use wiretap::config::{
    boot_id_from_nanos, client_hello, next_backoff_ms, random_boot_id, uses_unix_socket,
    IngestSinkConfig,
    INITIAL_BACKOFF_MS, MAX_BACKOFF_MS,
};
use wiretap::emitter::{CatchUp, Emitter};
use wiretap::messages::{CloseReason, Direction, OneOfpayload, ServerHello, SnapshotStart};
use wiretap::muxer::ConnectionTap;
use wiretap::wire::PROTOCOL_VERSION;
use wiretap::transport::{connection_accepted, connection_dialed};
use wiretap::{connection_established, WiretapConfig};

#[test]
fn config_defaults() {
    let c = WiretapConfig::default();
    assert_eq!(c.ring_buffer_capacity, 65536);
    assert_eq!(c.sink_channel_capacity, 8192);
    assert!(c.file_path.is_none());
    assert!(c.ingest_addr.is_none());
    assert_eq!(c.client_name, "");
}

#[test]
fn boot_id_is_little_endian_time() {
    let id = boot_id_from_nanos(0x0102_0304_0506_0708_090a_0b0c_0d0e_0f10);
    assert_eq!(id, vec![0x10, 0x0f, 0x0e, 0x0d, 0x0c, 0x0b, 0x0a, 9, 8, 7, 6, 5, 4, 3, 2, 1]);
    assert_eq!(random_boot_id().len(), 16);
}

#[test]
fn backoff_doubles_up_to_the_cap() {
    let mut b = INITIAL_BACKOFF_MS;
    let mut seen = vec![b];
    for _ in 0..6 {
        b = next_backoff_ms(b);
        seen.push(b);
    }
    assert_eq!(seen, vec![250, 500, 1000, 2000, 4000, 5000, 5000]);
    assert_eq!(next_backoff_ms(MAX_BACKOFF_MS), MAX_BACKOFF_MS);
    assert_eq!(next_backoff_ms(u64::MAX), MAX_BACKOFF_MS);
}

#[test]
fn client_hello_carries_the_config() {
    let config = IngestSinkConfig {
        addr: "127.0.0.1:9000".to_owned(),
        peer_id: vec![1, 2, 3],
        client_name: "test".to_owned(),
        boot_id: vec![4, 5, 6],
        started_at_ns: 1234567890,
    };
    let hello = client_hello(&config);
    assert_eq!(hello.protocol_version, PROTOCOL_VERSION);
    assert_eq!(hello.peer_id, vec![1, 2, 3]);
    assert_eq!(hello.client_name, "test");
    assert_eq!(hello.boot_id, vec![4, 5, 6]);
    assert_eq!(hello.started_at_ns, 1234567890);
}

#[test]
fn catch_up_only_after_a_stored_event() {
    let mut emitter = Emitter::new(8);
    emitter.emit(OneOfpayload::snapshot_start(SnapshotStart {}));
    let fresh = ServerHello { protocol_version: 3, source_id: String::new(), last_acked_seq: 0 };
    assert!(wiretap::config::catch_up(&emitter, &fresh).is_none());
    let behind = ServerHello { protocol_version: 3, source_id: String::new(), last_acked_seq: 1 };
    match wiretap::config::catch_up(&emitter, &behind) {
        Some(CatchUp::Replay(envs)) => assert!(envs.is_empty()),
        _ => panic!("expected an empty replay"),
    }
}

#[test]
fn direction_and_reason_from_wire_numbers() {
    assert_eq!(Direction::from(1), Direction::DIRECTION_IN);
    assert_eq!(Direction::from(2), Direction::DIRECTION_OUT);
    assert_eq!(Direction::from(0), Direction::DIRECTION_UNKNOWN);
    assert_eq!(Direction::from(17), Direction::DIRECTION_UNKNOWN);
    assert_eq!(CloseReason::from(3), CloseReason::CLOSE_REASON_CONN_CLOSED);
    assert_eq!(CloseReason::from(-1), CloseReason::CLOSE_REASON_UNKNOWN);
    assert_eq!(Direction::default(), Direction::DIRECTION_UNKNOWN);
    assert_eq!(CloseReason::default(), CloseReason::CLOSE_REASON_UNKNOWN);
}

#[test]
fn established_connection_registers_peer_and_connection() {
    let mut emitter = Emitter::new(16);
    let c0 = connection_established(&mut emitter, &[1, 1], "/ip4/9.9.9.9/tcp/1", "", Direction::DIRECTION_OUT);
    let c1 = connection_established(&mut emitter, &[1, 1], "/ip4/9.9.9.9/tcp/2", "/ip4/0.0.0.0/tcp/3", Direction::DIRECTION_IN);
    assert_eq!((c0, c1), (0, 1));
    // peer once, two connections
    assert_eq!(emitter.ring_len(), 3);
}

#[test]
fn connection_tap_opens_streams_and_closes_once() {
    let mut emitter = Emitter::new(64);
    let c = connection_established(&mut emitter, &[2], "/ip4/1.1.1.1/tcp/1", "", Direction::DIRECTION_OUT);
    let mut tap = ConnectionTap::new(c);
    assert!(tap.is_open());
    let s = tap.open_stream(&mut emitter, Direction::DIRECTION_IN);
    assert_eq!(s, 0);
    // peer, connection, "" definition, stream
    assert_eq!(emitter.ring_len(), 4);
    tap.on_close(&mut emitter);
    assert!(!tap.is_open());
    // stream closed (connection closed), connection closed
    assert_eq!(emitter.ring_len(), 6);
    tap.on_close(&mut emitter);
    assert_eq!(emitter.ring_len(), 6);
    let _ = CloseReason::CLOSE_REASON_CLOSE;
}

#[test]
fn dialed_and_accepted_connections() {
    let mut emitter = Emitter::new(16);
    let out = connection_dialed(&mut emitter, &[7], "/ip4/5.6.7.8/tcp/9");
    let inb = connection_accepted(&mut emitter, &[8], "/ip4/1.2.3.4/tcp/5", "/ip4/0.0.0.0/tcp/6");
    assert_eq!((out, inb), (0, 1));
    let events = match emitter.events_from_seq(0) {
        CatchUp::Replay(events) => events,
        CatchUp::Snapshot(_) => panic!("the ring holds every event"),
    };
    // peer, connection, peer, connection
    assert_eq!(events.len(), 4);
    match &events[1].payload {
        OneOfpayload::connection_upsert(c) => {
            assert_eq!((c.conn_alias, c.peer_alias), (0, 0));
            assert_eq!(c.remote_addr, "/ip4/5.6.7.8/tcp/9");
            assert_eq!(c.local_addr, "");
            assert_eq!(c.direction, Direction::DIRECTION_OUT);
        }
        other => panic!("{other:?}"),
    }
    match &events[3].payload {
        OneOfpayload::connection_upsert(c) => {
            assert_eq!((c.conn_alias, c.peer_alias), (1, 1));
            assert_eq!(c.remote_addr, "/ip4/1.2.3.4/tcp/5");
            assert_eq!(c.local_addr, "/ip4/0.0.0.0/tcp/6");
            assert_eq!(c.direction, Direction::DIRECTION_IN);
        }
        other => panic!("{other:?}"),
    }
}

#[test]
fn unix_socket_addresses_hold_a_slash() {
    assert!(uses_unix_socket("/run/wiretap.sock"));
    assert!(uses_unix_socket("sockets/ingest"));
    assert!(!uses_unix_socket("127.0.0.1:7000"));
    assert!(!uses_unix_socket("ingest.example:7000"));
    assert!(!uses_unix_socket(""));
}

#[test]
fn connection_tap_announces_streams_and_closes() {
    let mut emitter = Emitter::new(64);
    let c = connection_dialed(&mut emitter, &[3], "/ip4/1.1.1.1/tcp/1");
    let mut tap = ConnectionTap::new(c);
    let s0 = tap.open_stream(&mut emitter, Direction::DIRECTION_OUT);
    let s1 = tap.open_stream(&mut emitter, Direction::DIRECTION_IN);
    tap.on_close(&mut emitter);
    let events = match emitter.events_from_seq(0) {
        CatchUp::Replay(events) => events,
        CatchUp::Snapshot(_) => panic!("the ring holds every event"),
    };
    // peer, connection, "" def, stream, stream, two stream closes, connection close
    assert_eq!(events.len(), 8);
    assert!(matches!(events[2].payload, OneOfpayload::string_def(_)));
    for (i, alias) in [(3, s0), (4, s1)] {
        match &events[i].payload {
            OneOfpayload::stream_upsert(u) => assert_eq!((u.stream_alias, u.conn_alias), (alias, c)),
            other => panic!("{other:?}"),
        }
    }
    for (i, alias) in [(5, s0), (6, s1)] {
        match &events[i].payload {
            OneOfpayload::stream_closed(sc) => {
                assert_eq!((sc.stream_alias, sc.reason), (alias, CloseReason::CLOSE_REASON_CONN_CLOSED))
            }
            other => panic!("{other:?}"),
        }
    }
    assert!(matches!(events[7].payload, OneOfpayload::connection_closed(ref cc) if cc.conn_alias == c));
}
