//! The records of the event log and of the ingest handshake, with the
//! mathematical value of each (its view): integers as they are, byte
//! strings and strings as sequences.
#![allow(non_camel_case_types)]

use vstd::prelude::*;

verus! {

/// Which side opened a connection or stream.
#[derive(Debug, PartialEq, Eq, Clone, Copy, Structural)]
pub enum Direction {
    DIRECTION_UNKNOWN,
    DIRECTION_IN,
    DIRECTION_OUT,
}

impl Default for Direction {
    fn default() -> (r: Self)
        ensures
            r == Direction::DIRECTION_UNKNOWN,
    {
        Direction::DIRECTION_UNKNOWN
    }
}

/// The enum's value for a wire number; numbers it does not know give the default.
pub open spec fn direction_from_i32(i: i32) -> Direction {
    if i == 1 {
        Direction::DIRECTION_IN
    } else if i == 2 {
        Direction::DIRECTION_OUT
    } else {
        Direction::DIRECTION_UNKNOWN
    }
}

impl From<i32> for Direction {
    fn from(i: i32) -> (r: Self) {
        match i {
            0 => Direction::DIRECTION_UNKNOWN,
            1 => Direction::DIRECTION_IN,
            2 => Direction::DIRECTION_OUT,
            _ => Self::default(),
        }
    }
}

impl vstd::std_specs::convert::FromSpecImpl<i32> for Direction {
    open spec fn obeys_from_spec() -> bool {
        true
    }

    open spec fn from_spec(v: i32) -> Direction {
        direction_from_i32(v)
    }
}

/// Why a stream ended.
#[derive(Debug, PartialEq, Eq, Clone, Copy, Structural)]
pub enum CloseReason {
    CLOSE_REASON_UNKNOWN,
    CLOSE_REASON_CLOSE,
    CLOSE_REASON_RESET,
    CLOSE_REASON_CONN_CLOSED,
}

impl Default for CloseReason {
    fn default() -> (r: Self)
        ensures
            r == CloseReason::CLOSE_REASON_UNKNOWN,
    {
        CloseReason::CLOSE_REASON_UNKNOWN
    }
}

/// The enum's value for a wire number; numbers it does not know give the default.
pub open spec fn close_reason_from_i32(i: i32) -> CloseReason {
    if i == 1 {
        CloseReason::CLOSE_REASON_CLOSE
    } else if i == 2 {
        CloseReason::CLOSE_REASON_RESET
    } else if i == 3 {
        CloseReason::CLOSE_REASON_CONN_CLOSED
    } else {
        CloseReason::CLOSE_REASON_UNKNOWN
    }
}

impl From<i32> for CloseReason {
    fn from(i: i32) -> (r: Self) {
        match i {
            0 => CloseReason::CLOSE_REASON_UNKNOWN,
            1 => CloseReason::CLOSE_REASON_CLOSE,
            2 => CloseReason::CLOSE_REASON_RESET,
            3 => CloseReason::CLOSE_REASON_CONN_CLOSED,
            _ => Self::default(),
        }
    }
}

impl vstd::std_specs::convert::FromSpecImpl<i32> for CloseReason {
    open spec fn obeys_from_spec() -> bool {
        true
    }

    open spec fn from_spec(v: i32) -> CloseReason {
        close_reason_from_i32(v)
    }
}

/// One numbered event of the log.
#[derive(Debug, PartialEq, Clone)]
pub struct Envelope {
    pub seq: u64,
    pub observed_at_ns: i64,
    pub payload: OneOfpayload,
}

/// What an envelope carries.
#[derive(Debug, PartialEq, Clone)]
pub enum OneOfpayload {
    snapshot_start(SnapshotStart),
    snapshot_end(SnapshotEnd),
    string_def(StringDef),
    peer_upsert(PeerUpsert),
    connection_upsert(ConnectionUpsert),
    connection_closed(ConnectionClosed),
    stream_upsert(StreamUpsert),
    stream_closed(StreamClosed),
    stream_chunk(StreamChunk),
    none,
}

/// The first message of an ingest connection, sent by the client.
#[derive(Debug, PartialEq, Clone)]
pub struct ClientHello {
    pub protocol_version: u32,
    pub peer_id: Vec<u8>,
    pub client_name: String,
    pub boot_id: Vec<u8>,
    pub started_at_ns: i64,
}

/// The server's answer, with the last sequence number it has stored.
#[derive(Debug, PartialEq, Clone)]
pub struct ServerHello {
    pub protocol_version: u32,
    pub source_id: String,
    pub last_acked_seq: u64,
}

/// Opens a snapshot of the whole state.
#[derive(Debug, PartialEq, Eq, Clone, Copy, Structural)]
pub struct SnapshotStart {}

/// Closes a snapshot of the whole state.
#[derive(Debug, PartialEq, Eq, Clone, Copy, Structural)]
pub struct SnapshotEnd {}

/// Gives an interned string its number.
#[derive(Debug, PartialEq, Clone)]
pub struct StringDef {
    pub id: u32,
    pub value: String,
}

/// A peer and its alias.
#[derive(Debug, PartialEq, Clone)]
pub struct PeerUpsert {
    pub peer_alias: u64,
    pub peer_id: Vec<u8>,
}

/// A connection and its alias.
#[derive(Debug, PartialEq, Clone)]
pub struct ConnectionUpsert {
    pub conn_alias: u64,
    pub peer_alias: u64,
    pub remote_addr: String,
    pub local_addr: String,
    pub direction: Direction,
    pub transport_id: u32,
    pub security_id: u32,
    pub muxer_id: u32,
    pub opened_at_ns: i64,
}

/// A connection has closed.
#[derive(Debug, PartialEq, Eq, Clone, Copy, Structural)]
pub struct ConnectionClosed {
    pub conn_alias: u64,
    pub closed_at_ns: i64,
}

/// A stream and its alias, or its newly known protocol.
#[derive(Debug, PartialEq, Eq, Clone, Copy, Structural)]
pub struct StreamUpsert {
    pub stream_alias: u64,
    pub conn_alias: u64,
    pub direction: Direction,
    pub protocol_id: u32,
    pub opened_at_ns: i64,
}

/// A stream has closed.
#[derive(Debug, PartialEq, Eq, Clone, Copy, Structural)]
pub struct StreamClosed {
    pub stream_alias: u64,
    pub closed_at_ns: i64,
    pub reason: CloseReason,
}

/// Bytes that crossed a stream.
#[derive(Debug, PartialEq, Clone)]
pub struct StreamChunk {
    pub stream_alias: u64,
    pub direction: Direction,
    pub data: Vec<u8>,
}

impl Default for OneOfpayload {
    fn default() -> (r: Self)
        ensures
            r is none,
    {
        OneOfpayload::none
    }
}

impl Default for Envelope {
    fn default() -> (r: Self)
        ensures
            r.seq == 0,
            r.observed_at_ns == 0,
            r.payload is none,
    {
        Envelope { seq: 0, observed_at_ns: 0, payload: OneOfpayload::none }
    }
}

impl Default for ClientHello {
    fn default() -> (r: Self)
        ensures
            r.protocol_version == 0,
            r.peer_id@ == Seq::<u8>::empty(),
            r.client_name@ == Seq::<char>::empty(),
            r.boot_id@ == Seq::<u8>::empty(),
            r.started_at_ns == 0,
    {
        ClientHello {
            protocol_version: 0,
            peer_id: Vec::new(),
            client_name: String::new(),
            boot_id: Vec::new(),
            started_at_ns: 0,
        }
    }
}

impl Default for ServerHello {
    fn default() -> (r: Self)
        ensures
            r.protocol_version == 0,
            r.source_id@ == Seq::<char>::empty(),
            r.last_acked_seq == 0,
    {
        ServerHello { protocol_version: 0, source_id: String::new(), last_acked_seq: 0 }
    }
}

impl Default for SnapshotStart {
    fn default() -> (r: Self)
        ensures
            r == (SnapshotStart {}),
    {
        SnapshotStart {}
    }
}

impl Default for SnapshotEnd {
    fn default() -> (r: Self)
        ensures
            r == (SnapshotEnd {}),
    {
        SnapshotEnd {}
    }
}

impl Default for StringDef {
    fn default() -> (r: Self)
        ensures
            r.id == 0,
            r.value@ == Seq::<char>::empty(),
    {
        StringDef { id: 0, value: String::new() }
    }
}

impl Default for PeerUpsert {
    fn default() -> (r: Self)
        ensures
            r.peer_alias == 0,
            r.peer_id@ == Seq::<u8>::empty(),
    {
        PeerUpsert { peer_alias: 0, peer_id: Vec::new() }
    }
}

impl Default for ConnectionUpsert {
    fn default() -> (r: Self)
        ensures
            r.conn_alias == 0,
            r.peer_alias == 0,
            r.remote_addr@ == Seq::<char>::empty(),
            r.local_addr@ == Seq::<char>::empty(),
            r.direction == Direction::DIRECTION_UNKNOWN,
            r.transport_id == 0,
            r.security_id == 0,
            r.muxer_id == 0,
            r.opened_at_ns == 0,
    {
        ConnectionUpsert {
            conn_alias: 0,
            peer_alias: 0,
            remote_addr: String::new(),
            local_addr: String::new(),
            direction: Direction::DIRECTION_UNKNOWN,
            transport_id: 0,
            security_id: 0,
            muxer_id: 0,
            opened_at_ns: 0,
        }
    }
}

impl Default for ConnectionClosed {
    fn default() -> (r: Self)
        ensures
            r.conn_alias == 0,
            r.closed_at_ns == 0,
    {
        ConnectionClosed { conn_alias: 0, closed_at_ns: 0 }
    }
}

impl Default for StreamUpsert {
    fn default() -> (r: Self)
        ensures
            r.stream_alias == 0,
            r.conn_alias == 0,
            r.direction == Direction::DIRECTION_UNKNOWN,
            r.protocol_id == 0,
            r.opened_at_ns == 0,
    {
        StreamUpsert {
            stream_alias: 0,
            conn_alias: 0,
            direction: Direction::DIRECTION_UNKNOWN,
            protocol_id: 0,
            opened_at_ns: 0,
        }
    }
}

impl Default for StreamClosed {
    fn default() -> (r: Self)
        ensures
            r.stream_alias == 0,
            r.closed_at_ns == 0,
            r.reason == CloseReason::CLOSE_REASON_UNKNOWN,
    {
        StreamClosed { stream_alias: 0, closed_at_ns: 0, reason: CloseReason::CLOSE_REASON_UNKNOWN }
    }
}

impl Default for StreamChunk {
    fn default() -> (r: Self)
        ensures
            r.stream_alias == 0,
            r.direction == Direction::DIRECTION_UNKNOWN,
            r.data@ == Seq::<u8>::empty(),
    {
        StreamChunk { stream_alias: 0, direction: Direction::DIRECTION_UNKNOWN, data: Vec::new() }
    }
}

/// What a client hello holds.
pub struct ClientHelloView {
    pub protocol_version: u32,
    pub peer_id: Seq<u8>,
    pub client_name: Seq<char>,
    pub boot_id: Seq<u8>,
    pub started_at_ns: i64,
}

impl View for ClientHello {
    type V = ClientHelloView;

    open spec fn view(&self) -> ClientHelloView {
        ClientHelloView {
            protocol_version: self.protocol_version,
            peer_id: self.peer_id@,
            client_name: self.client_name@,
            boot_id: self.boot_id@,
            started_at_ns: self.started_at_ns,
        }
    }
}

/// What a server hello holds.
pub struct ServerHelloView {
    pub protocol_version: u32,
    pub source_id: Seq<char>,
    pub last_acked_seq: u64,
}

impl View for ServerHello {
    type V = ServerHelloView;

    open spec fn view(&self) -> ServerHelloView {
        ServerHelloView {
            protocol_version: self.protocol_version,
            source_id: self.source_id@,
            last_acked_seq: self.last_acked_seq,
        }
    }
}

impl View for SnapshotStart {
    type V = SnapshotStart;

    open spec fn view(&self) -> SnapshotStart {
        *self
    }
}

impl View for SnapshotEnd {
    type V = SnapshotEnd;

    open spec fn view(&self) -> SnapshotEnd {
        *self
    }
}

/// What a string definition holds.
pub struct StringDefView {
    pub id: u32,
    pub value: Seq<char>,
}

impl View for StringDef {
    type V = StringDefView;

    open spec fn view(&self) -> StringDefView {
        StringDefView { id: self.id, value: self.value@ }
    }
}

/// What a peer announcement holds.
pub struct PeerUpsertView {
    pub peer_alias: u64,
    pub peer_id: Seq<u8>,
}

impl View for PeerUpsert {
    type V = PeerUpsertView;

    open spec fn view(&self) -> PeerUpsertView {
        PeerUpsertView { peer_alias: self.peer_alias, peer_id: self.peer_id@ }
    }
}

/// What a connection announcement holds.
pub struct ConnectionUpsertView {
    pub conn_alias: u64,
    pub peer_alias: u64,
    pub remote_addr: Seq<char>,
    pub local_addr: Seq<char>,
    pub direction: Direction,
    pub transport_id: u32,
    pub security_id: u32,
    pub muxer_id: u32,
    pub opened_at_ns: i64,
}

impl View for ConnectionUpsert {
    type V = ConnectionUpsertView;

    open spec fn view(&self) -> ConnectionUpsertView {
        ConnectionUpsertView {
            conn_alias: self.conn_alias,
            peer_alias: self.peer_alias,
            remote_addr: self.remote_addr@,
            local_addr: self.local_addr@,
            direction: self.direction,
            transport_id: self.transport_id,
            security_id: self.security_id,
            muxer_id: self.muxer_id,
            opened_at_ns: self.opened_at_ns,
        }
    }
}

impl View for ConnectionClosed {
    type V = ConnectionClosed;

    open spec fn view(&self) -> ConnectionClosed {
        *self
    }
}

impl View for StreamUpsert {
    type V = StreamUpsert;

    open spec fn view(&self) -> StreamUpsert {
        *self
    }
}

impl View for StreamClosed {
    type V = StreamClosed;

    open spec fn view(&self) -> StreamClosed {
        *self
    }
}

/// What a chunk of stream bytes holds.
pub struct StreamChunkView {
    pub stream_alias: u64,
    pub direction: Direction,
    pub data: Seq<u8>,
}

impl View for StreamChunk {
    type V = StreamChunkView;

    open spec fn view(&self) -> StreamChunkView {
        StreamChunkView { stream_alias: self.stream_alias, direction: self.direction, data: self.data@ }
    }
}

/// What an envelope's payload holds.
pub enum PayloadView {
    snapshot_start(SnapshotStart),
    snapshot_end(SnapshotEnd),
    string_def(StringDefView),
    peer_upsert(PeerUpsertView),
    connection_upsert(ConnectionUpsertView),
    connection_closed(ConnectionClosed),
    stream_upsert(StreamUpsert),
    stream_closed(StreamClosed),
    stream_chunk(StreamChunkView),
    none,
}

impl View for OneOfpayload {
    type V = PayloadView;

    open spec fn view(&self) -> PayloadView {
        match self {
            OneOfpayload::snapshot_start(m) => PayloadView::snapshot_start(*m),
            OneOfpayload::snapshot_end(m) => PayloadView::snapshot_end(*m),
            OneOfpayload::string_def(m) => PayloadView::string_def(m@),
            OneOfpayload::peer_upsert(m) => PayloadView::peer_upsert(m@),
            OneOfpayload::connection_upsert(m) => PayloadView::connection_upsert(m@),
            OneOfpayload::connection_closed(m) => PayloadView::connection_closed(*m),
            OneOfpayload::stream_upsert(m) => PayloadView::stream_upsert(*m),
            OneOfpayload::stream_closed(m) => PayloadView::stream_closed(*m),
            OneOfpayload::stream_chunk(m) => PayloadView::stream_chunk(m@),
            OneOfpayload::none => PayloadView::none,
        }
    }
}

/// What an envelope holds.
pub struct EnvelopeView {
    pub seq: u64,
    pub observed_at_ns: i64,
    pub payload: PayloadView,
}

impl View for Envelope {
    type V = EnvelopeView;

    open spec fn view(&self) -> EnvelopeView {
        EnvelopeView { seq: self.seq, observed_at_ns: self.observed_at_ns, payload: self.payload@ }
    }
}

} // verus!
