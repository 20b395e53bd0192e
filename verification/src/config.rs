//! How the tap is set up, and the decisions of the ingest sink around its
//! I/O: the hello it sends, when it catches a reader up, and how long it
//! waits before reconnecting.
use std::path::PathBuf;

use vstd::prelude::*;
use vstd::utf8::encode_utf8;

use crate::clock::{unix_time_nanos, Clock};
use crate::emitter::{
    catch_up_is, CatchUp, Emitter, DEFAULT_RING_BUFFER_CAPACITY, DEFAULT_SINK_CHANNEL_CAPACITY,
};
use crate::messages::{ClientHello, ServerHello};
use crate::wire::PROTOCOL_VERSION;

verus! {

#[verifier::external_type_specification]
#[verifier::external_body]
pub struct ExPathBuf(PathBuf);

/// How to set the tap up: ring and channel sizes, where to write a trace
/// file, which ingest server to stream to, and the name to give it.
pub struct WiretapConfig {
    pub ring_buffer_capacity: usize,
    pub sink_channel_capacity: usize,
    pub file_path: Option<PathBuf>,
    pub ingest_addr: Option<String>,
    pub client_name: String,
}

impl Default for WiretapConfig {
    fn default() -> (r: Self)
        ensures
            r.ring_buffer_capacity == DEFAULT_RING_BUFFER_CAPACITY,
            r.sink_channel_capacity == DEFAULT_SINK_CHANNEL_CAPACITY,
            r.file_path is None,
            r.ingest_addr is None,
            r.client_name@ == Seq::<char>::empty(),
    {
        WiretapConfig {
            ring_buffer_capacity: DEFAULT_RING_BUFFER_CAPACITY,
            sink_channel_capacity: DEFAULT_SINK_CHANNEL_CAPACITY,
            file_path: None,
            ingest_addr: None,
            client_name: String::new(),
        }
    }
}

/// Byte `i` of `ts`, least significant first.
pub open spec fn le_byte(ts: u128, i: nat) -> u8 {
    ((ts >> (8 * i)) & 0xff) as u8
}

/// A 16-byte id made of the bytes of `ts`, least significant first.
pub fn boot_id_from_nanos(ts: u128) -> (id: Vec<u8>)
    ensures
        id@.len() == 16,
        forall|i: int| 0 <= i < 16 ==> #[trigger] id@[i] == le_byte(ts, i as nat),
{
    let mut id: Vec<u8> = Vec::new();
    let mut i: u32 = 0;
    while i < 16
        invariant
            i <= 16,
            id@.len() == i,
            forall|j: int| 0 <= j < i ==> #[trigger] id@[j] == le_byte(ts, j as nat),
        decreases 16 - i,
    {
        let b = ((ts >> (8 * i)) & 0xff) as u8;
        id.push(b);
        i = i + 1;
    }
    id
}

/// An id for this run of the program, made of the current time's bytes.
pub fn random_boot_id() -> (id: Vec<u8>)
    ensures
        id@.len() == 16,
{
    let mut clock = Clock::new();
    boot_id_from_nanos(unix_time_nanos(&mut clock))
}

/// What the ingest sink knows about the node it reports for.
pub struct IngestSinkConfig {
    pub addr: String,
    pub peer_id: Vec<u8>,
    pub client_name: String,
    pub boot_id: Vec<u8>,
    pub started_at_ns: i64,
}

/// The hello the ingest sink opens each connection with.
pub fn client_hello(config: &IngestSinkConfig) -> (hello: ClientHello)
    ensures
        hello.protocol_version == PROTOCOL_VERSION,
        hello.peer_id@ == config.peer_id@,
        hello.client_name@ == config.client_name@,
        hello.boot_id@ == config.boot_id@,
        hello.started_at_ns == config.started_at_ns,
{
    ClientHello {
        protocol_version: PROTOCOL_VERSION,
        peer_id: crate::bytes::copy_bytes(config.peer_id.as_slice()),
        client_name: config.client_name.clone(),
        boot_id: crate::bytes::copy_bytes(config.boot_id.as_slice()),
        started_at_ns: config.started_at_ns,
    }
}

/// What the ingest sink sends after the server's hello: nothing if the
/// server has stored nothing yet, otherwise what the server missed.
pub fn catch_up(emitter: &Emitter, server_hello: &ServerHello) -> (r: Option<CatchUp>)
    requires
        emitter.wf(),
        emitter@.ring.len() > 0 ==> server_hello.last_acked_seq < u64::MAX,
    ensures
        server_hello.last_acked_seq == 0 ==> r is None,
        server_hello.last_acked_seq > 0 ==> (r matches Some(c) && catch_up_is(
            c,
            emitter@,
            server_hello.last_acked_seq,
        )),
{
    if server_hello.last_acked_seq > 0 {
        Some(emitter.events_from_seq(server_hello.last_acked_seq))
    } else {
        None
    }
}

/// Whether the ingest sink reaches `addr` over a Unix socket (the address
/// holds a `/`, so it is a path) rather than over TCP (`host:port`).
pub fn uses_unix_socket(addr: &str) -> (r: bool)
    ensures
        r == encode_utf8(addr@).contains(0x2fu8),
{
    let bytes = addr.as_bytes();
    let mut i: usize = 0;
    while i < bytes.len()
        invariant
            i <= bytes.len(),
            bytes@ == encode_utf8(addr@),
            forall|j: int| 0 <= j < i ==> bytes@[j] != 0x2fu8,
        decreases bytes.len() - i,
    {
        if bytes[i] == 0x2f {
            return true;
        }
        i = i + 1;
    }
    false
}

/// How long the ingest sink first waits before reconnecting, in milliseconds.
pub const INITIAL_BACKOFF_MS: u64 = 250;

/// The longest the ingest sink waits before reconnecting, in milliseconds.
pub const MAX_BACKOFF_MS: u64 = 5000;

/// The wait after another failed connection: twice the last one, at most
/// [`MAX_BACKOFF_MS`].
pub fn next_backoff_ms(backoff_ms: u64) -> (r: u64)
    ensures
        r == (if 2 * backoff_ms < MAX_BACKOFF_MS {
            2 * backoff_ms
        } else {
            MAX_BACKOFF_MS as int
        }),
{
    if backoff_ms < MAX_BACKOFF_MS / 2 {
        backoff_ms * 2
    } else {
        MAX_BACKOFF_MS
    }
}

} // verus!
