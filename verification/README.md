# wiretap

A libp2p transport wrapper that records every peer, connection, stream and
byte it carries as a numbered event log, and streams that log to a trace file
and/or an ingest server.

The library (`src/`) is verified with Verus:

- `state`, `intern`: the live peers, connections and streams under their
  aliases, the interned protocol names, and the snapshot of the whole state.
- `emitter`: the event log — sequence numbers, the ring of recent events,
  catching a reconnecting reader up (replay or snapshot).
- `stream`, `muxer`, `transport`: what a tapped stream, connection and
  transport do with the log, including the multistream-select protocol
  detector.
- `varint`, `wire`, `proto`, `decode`, `readers`: LEB128 varints, the framing
  of the ingest protocol, and the protocol-buffer encoding of the records,
  written and read back.
- `config`: the configuration, the ingest hello, catch-up and reconnect
  backoff.

`app/` holds what Verus does not see: the libp2p and futures trait
implementations, the async file and network sinks, and `wrap_transport`.
