//! The protocol-buffer encoding of the log's records (`wiretap.proto`):
//! each field that is not at its default is written as its key (field
//! number and wire type, as a varint) and its value; a payload is written
//! as a length-delimited sub-message.
use vstd::prelude::*;
use vstd::utf8::encode_utf8;

use crate::messages::{
    ClientHello, CloseReason, ConnectionClosed, ConnectionUpsert, Direction, Envelope, OneOfpayload,
    PeerUpsert, ServerHello, SnapshotEnd, SnapshotStart, StreamChunk, StreamClosed, StreamUpsert,
    StringDef,
};
use crate::varint::{lemma_varint_encoding_len, varint_encoding};
use vstd::seq_lib::lemma_concat_associative;

verus! {

/// `quick_protobuf::Writer::write_varint`, writing into a vector: appends
/// the minimal LEB128 encoding of `v`. Writing into a vector cannot fail.
#[verifier::external_body]
fn pb_write_varint(buf: &mut Vec<u8>, v: u64)
    ensures
        final(buf)@ == old(buf)@ + varint_encoding(v as nat),
{
    let _ = quick_protobuf::Writer::new(buf).write_varint(v);
}

/// `quick_protobuf::Writer::write_bytes`, writing into a vector: appends
/// the length of `bytes` as a varint, then `bytes`.
#[verifier::external_body]
fn pb_write_bytes(buf: &mut Vec<u8>, bytes: &[u8])
    ensures
        final(buf)@ == old(buf)@ + varint_encoding(bytes@.len()) + bytes@,
{
    let _ = quick_protobuf::Writer::new(buf).write_bytes(bytes);
}

/// `quick_protobuf::sizeofs::sizeof_varint`: the length of the minimal
/// varint encoding of `v`.
pub assume_specification[ quick_protobuf::sizeofs::sizeof_varint ](v: u64) -> (r: usize)
    ensures
        r == varint_encoding(v as nat).len(),
;

/// A varint field with this key: absent when the value is 0.
#[verifier::opaque]
pub open spec fn varint_field(key: nat, v: u64) -> Seq<u8> {
    if v == 0 {
        Seq::empty()
    } else {
        varint_encoding(key) + varint_encoding(v as nat)
    }
}

/// A length-delimited field with this key: absent when it is empty.
#[verifier::opaque]
pub open spec fn bytes_field(key: nat, bytes: Seq<u8>) -> Seq<u8> {
    if bytes.len() == 0 {
        Seq::empty()
    } else {
        varint_encoding(key) + varint_encoding(bytes.len()) + bytes
    }
}

/// A sub-message field with this key: always present.
#[verifier::opaque]
pub open spec fn message_field(key: nat, body: Seq<u8>) -> Seq<u8> {
    varint_encoding(key) + varint_encoding(body.len()) + body
}

/// The wire number of a direction.
pub open spec fn direction_number(d: Direction) -> u64 {
    match d {
        Direction::DIRECTION_UNKNOWN => 0,
        Direction::DIRECTION_IN => 1,
        Direction::DIRECTION_OUT => 2,
    }
}

/// The wire number of a close reason.
pub open spec fn close_reason_number(r: CloseReason) -> u64 {
    match r {
        CloseReason::CLOSE_REASON_UNKNOWN => 0,
        CloseReason::CLOSE_REASON_CLOSE => 1,
        CloseReason::CLOSE_REASON_RESET => 2,
        CloseReason::CLOSE_REASON_CONN_CLOSED => 3,
    }
}

/// 2^64: encodings this long or longer are reported as this length.
pub open spec fn wide_cap() -> nat {
    0x1_0000_0000_0000_0000
}

/// `r` is the length of `wire`, or at least [`wide_cap`] when `wire` is
/// that long.
pub open spec fn measures(r: u128, wire: Seq<u8>) -> bool {
    if wire.len() < wide_cap() {
        r == wire.len()
    } else {
        r >= wide_cap()
    }
}

/// A message with a protocol-buffer encoding.
pub trait WireMessage {
    /// The message's encoding.
    spec fn wire(&self) -> Seq<u8>;

    /// The length of the encoding (see [`measures`]).
    fn wire_len(&self) -> (r: u128)
        ensures
            measures(r, self.wire()),
    ;

    /// Appends the encoding to `buf`.
    fn write_message(&self, buf: &mut Vec<u8>)
        ensures
            final(buf)@ == old(buf)@ + self.wire(),
    ;

    /// The length of the encoding.
    fn get_size(&self) -> (r: usize)
        requires
            self.wire().len() <= usize::MAX,
        ensures
            r == self.wire().len(),
    {
        self.wire_len() as usize
    }

    /// Whether the encoding's length fits a `usize`.
    fn fits(&self) -> (r: bool)
        ensures
            r == (self.wire().len() <= usize::MAX),
    {
        self.wire_len() <= usize::MAX as u128
    }
}

/// What `get_size` reports is what `write_message` writes: appending a
/// message to any buffer lengthens it by exactly the length of its
/// encoding, and whenever the grown buffer fits in memory that length fits a
/// `usize`, so `get_size` can report it.
pub proof fn lemma_size_is_written_len<M: WireMessage>(m: &M, before: Seq<u8>)
    ensures
        (before + m.wire()).len() == before.len() + m.wire().len(),
        (before + m.wire()).len() <= usize::MAX ==> m.wire().len() <= usize::MAX,
{
}

proof fn lemma_small_key(key: nat)
    requires
        key < 128,
    ensures
        varint_encoding(key).len() == 1,
{
}

proof fn lemma_two_byte_key(key: nat)
    requires
        128 <= key < 16384,
    ensures
        varint_encoding(key).len() == 2,
{
    assert(varint_encoding(key / 128).len() == 1);
}

fn varint_field_len(key: u64, v: u64) -> (r: u128)
    requires
        key < 128,
    ensures
        r == varint_field(key as nat, v).len(),
        r <= 11,
{
    proof {
        reveal(varint_field);
        lemma_small_key(key as nat);
        lemma_varint_encoding_len(v as nat);
    }
    if v == 0 {
        0
    } else {
        1 + quick_protobuf::sizeofs::sizeof_varint(v) as u128
    }
}

fn bytes_field_len(key: u64, bytes: &[u8]) -> (r: u128)
    requires
        key < 128,
    ensures
        r == bytes_field(key as nat, bytes@).len(),
        r <= bytes.len() + 11,
{
    proof {
        reveal(bytes_field);
        assert(bytes@.len() == bytes.len());
        lemma_small_key(key as nat);
        lemma_varint_encoding_len(bytes@.len());
    }
    if bytes.len() == 0 {
        0
    } else {
        1 + quick_protobuf::sizeofs::sizeof_varint(bytes.len() as u64) as u128 + bytes.len() as u128
    }
}

/// The length of a sub-message field with a key below 16384, given the
/// measured length of its body.
fn message_field_len(key: u64, body_len: u128, Ghost(body): Ghost<Seq<u8>>) -> (r: u128)
    requires
        key < 16384,
        measures(body_len, body),
    ensures
        measures(r, message_field(key as nat, body)),
{
    proof {
        reveal(message_field);
        if key < 128 {
            lemma_small_key(key as nat);
        } else {
            lemma_two_byte_key(key as nat);
        }
    }
    if body_len >= 0x1_0000_0000_0000_0000 {
        return 0x1_0000_0000_0000_0000;
    }
    proof {
        lemma_varint_encoding_len(body.len());
    }
    let k: u128 = if key < 128 { 1 } else { 2 };
    let r = k + quick_protobuf::sizeofs::sizeof_varint(body_len as u64) as u128 + body_len;
    if r >= 0x1_0000_0000_0000_0000 { 0x1_0000_0000_0000_0000 } else { r }
}

fn put_varint_field(buf: &mut Vec<u8>, key: u64, v: u64)
    ensures
        final(buf)@ == old(buf)@ + varint_field(key as nat, v),
{
    proof {
        reveal(varint_field);
    }
    if v != 0 {
        pb_write_varint(buf, key);
        pb_write_varint(buf, v);
        proof {
            assert(final(buf)@ =~= old(buf)@ + varint_field(key as nat, v));
        }
    } else {
        proof {
            assert(buf@ =~= old(buf)@ + varint_field(key as nat, v));
        }
    }
}

fn put_bytes_field(buf: &mut Vec<u8>, key: u64, bytes: &[u8])
    ensures
        final(buf)@ == old(buf)@ + bytes_field(key as nat, bytes@),
{
    proof {
        reveal(bytes_field);
    }
    if bytes.len() != 0 {
        pb_write_varint(buf, key);
        pb_write_bytes(buf, bytes);
        proof {
            assert(final(buf)@ =~= old(buf)@ + bytes_field(key as nat, bytes@));
        }
    } else {
        proof {
            assert(buf@ =~= old(buf)@ + bytes_field(key as nat, bytes@));
        }
    }
}

fn put_message_field<M: WireMessage>(buf: &mut Vec<u8>, key: u64, m: &M)
    ensures
        final(buf)@ == old(buf)@ + message_field(key as nat, m.wire()),
{
    proof {
        reveal(message_field);
    }
    let mut body: Vec<u8> = Vec::new();
    m.write_message(&mut body);
    proof {
        assert(body@ =~= m.wire());
    }
    pb_write_varint(buf, key);
    pb_write_bytes(buf, body.as_slice());
    proof {
        assert(final(buf)@ =~= old(buf)@ + message_field(key as nat, m.wire()));
    }
}

/// The UTF-8 bytes of a string.
fn str_bytes(s: &String) -> (b: &[u8])
    ensures
        b@ == encode_utf8(s@),
{
    s.as_str().as_bytes()
}

fn direction_to_u64(d: Direction) -> (r: u64)
    ensures
        r == direction_number(d),
{
    match d {
        Direction::DIRECTION_UNKNOWN => 0,
        Direction::DIRECTION_IN => 1,
        Direction::DIRECTION_OUT => 2,
    }
}

fn close_reason_to_u64(r: CloseReason) -> (n: u64)
    ensures
        n == close_reason_number(r),
{
    match r {
        CloseReason::CLOSE_REASON_UNKNOWN => 0,
        CloseReason::CLOSE_REASON_CLOSE => 1,
        CloseReason::CLOSE_REASON_RESET => 2,
        CloseReason::CLOSE_REASON_CONN_CLOSED => 3,
    }
}

impl WireMessage for SnapshotStart {
    open spec fn wire(&self) -> Seq<u8> {
        Seq::empty()
    }

    fn wire_len(&self) -> (r: u128) {
        0
    }

    fn write_message(&self, buf: &mut Vec<u8>) {
        proof {
            assert(buf@ =~= old(buf)@ + self.wire());
        }
    }
}

impl WireMessage for SnapshotEnd {
    open spec fn wire(&self) -> Seq<u8> {
        Seq::empty()
    }

    fn wire_len(&self) -> (r: u128) {
        0
    }

    fn write_message(&self, buf: &mut Vec<u8>) {
        proof {
            assert(buf@ =~= old(buf)@ + self.wire());
        }
    }
}

impl WireMessage for StringDef {
    open spec fn wire(&self) -> Seq<u8> {
        varint_field(8, self.id as u64) + bytes_field(18, encode_utf8(self.value@))
    }

    fn wire_len(&self) -> (r: u128) {
        varint_field_len(8, self.id as u64) + bytes_field_len(18, str_bytes(&self.value))
    }

    fn write_message(&self, buf: &mut Vec<u8>) {
        put_varint_field(buf, 8, self.id as u64);
        put_bytes_field(buf, 18, str_bytes(&self.value));
        proof {
            assert(final(buf)@ =~= old(buf)@ + self.wire());
        }
    }
}

impl WireMessage for PeerUpsert {
    open spec fn wire(&self) -> Seq<u8> {
        varint_field(8, self.peer_alias) + bytes_field(18, self.peer_id@)
    }

    fn wire_len(&self) -> (r: u128) {
        varint_field_len(8, self.peer_alias) + bytes_field_len(18, self.peer_id.as_slice())
    }

    fn write_message(&self, buf: &mut Vec<u8>) {
        put_varint_field(buf, 8, self.peer_alias);
        put_bytes_field(buf, 18, self.peer_id.as_slice());
        proof {
            assert(final(buf)@ =~= old(buf)@ + self.wire());
        }
    }
}

impl WireMessage for ConnectionUpsert {
    open spec fn wire(&self) -> Seq<u8> {
        varint_field(8, self.conn_alias) + varint_field(16, self.peer_alias) + bytes_field(
            26,
            encode_utf8(self.remote_addr@),
        ) + bytes_field(34, encode_utf8(self.local_addr@)) + varint_field(
            40,
            direction_number(self.direction),
        ) + varint_field(48, self.transport_id as u64) + varint_field(56, self.security_id as u64)
            + varint_field(64, self.muxer_id as u64) + varint_field(72, self.opened_at_ns as u64)
    }

    fn wire_len(&self) -> (r: u128) {
        varint_field_len(8, self.conn_alias) + varint_field_len(16, self.peer_alias)
            + bytes_field_len(26, str_bytes(&self.remote_addr)) + bytes_field_len(
            34,
            str_bytes(&self.local_addr),
        ) + varint_field_len(40, direction_to_u64(self.direction)) + varint_field_len(
            48,
            self.transport_id as u64,
        ) + varint_field_len(56, self.security_id as u64) + varint_field_len(
            64,
            self.muxer_id as u64,
        ) + varint_field_len(72, self.opened_at_ns as u64)
    }

    fn write_message(&self, buf: &mut Vec<u8>) {
        let ghost b0 = buf@;
        let ghost f1 = varint_field(8, self.conn_alias);
        let ghost f2 = varint_field(16, self.peer_alias);
        let ghost f3 = bytes_field(26, encode_utf8(self.remote_addr@));
        let ghost f4 = bytes_field(34, encode_utf8(self.local_addr@));
        let ghost f5 = varint_field(40, direction_number(self.direction));
        let ghost f6 = varint_field(48, self.transport_id as u64);
        let ghost f7 = varint_field(56, self.security_id as u64);
        let ghost f8 = varint_field(64, self.muxer_id as u64);
        let ghost f9 = varint_field(72, self.opened_at_ns as u64);
        put_varint_field(buf, 8, self.conn_alias);
        put_varint_field(buf, 16, self.peer_alias);
        proof {
            lemma_concat_associative(b0, f1, f2);
        }
        put_bytes_field(buf, 26, str_bytes(&self.remote_addr));
        proof {
            lemma_concat_associative(b0, f1 + f2, f3);
        }
        put_bytes_field(buf, 34, str_bytes(&self.local_addr));
        proof {
            lemma_concat_associative(b0, f1 + f2 + f3, f4);
        }
        put_varint_field(buf, 40, direction_to_u64(self.direction));
        proof {
            lemma_concat_associative(b0, f1 + f2 + f3 + f4, f5);
        }
        put_varint_field(buf, 48, self.transport_id as u64);
        proof {
            lemma_concat_associative(b0, f1 + f2 + f3 + f4 + f5, f6);
        }
        put_varint_field(buf, 56, self.security_id as u64);
        proof {
            lemma_concat_associative(b0, f1 + f2 + f3 + f4 + f5 + f6, f7);
        }
        put_varint_field(buf, 64, self.muxer_id as u64);
        proof {
            lemma_concat_associative(b0, f1 + f2 + f3 + f4 + f5 + f6 + f7, f8);
        }
        put_varint_field(buf, 72, self.opened_at_ns as u64);
        proof {
            lemma_concat_associative(b0, f1 + f2 + f3 + f4 + f5 + f6 + f7 + f8, f9);
        }
    }
}

impl WireMessage for ConnectionClosed {
    open spec fn wire(&self) -> Seq<u8> {
        varint_field(8, self.conn_alias) + varint_field(16, self.closed_at_ns as u64)
    }

    fn wire_len(&self) -> (r: u128) {
        varint_field_len(8, self.conn_alias) + varint_field_len(16, self.closed_at_ns as u64)
    }

    fn write_message(&self, buf: &mut Vec<u8>) {
        put_varint_field(buf, 8, self.conn_alias);
        put_varint_field(buf, 16, self.closed_at_ns as u64);
        proof {
            assert(final(buf)@ =~= old(buf)@ + self.wire());
        }
    }
}

impl WireMessage for StreamUpsert {
    open spec fn wire(&self) -> Seq<u8> {
        varint_field(8, self.stream_alias) + varint_field(16, self.conn_alias) + varint_field(
            24,
            direction_number(self.direction),
        ) + varint_field(32, self.protocol_id as u64) + varint_field(40, self.opened_at_ns as u64)
    }

    fn wire_len(&self) -> (r: u128) {
        varint_field_len(8, self.stream_alias) + varint_field_len(16, self.conn_alias)
            + varint_field_len(24, direction_to_u64(self.direction)) + varint_field_len(
            32,
            self.protocol_id as u64,
        ) + varint_field_len(40, self.opened_at_ns as u64)
    }

    fn write_message(&self, buf: &mut Vec<u8>) {
        put_varint_field(buf, 8, self.stream_alias);
        put_varint_field(buf, 16, self.conn_alias);
        put_varint_field(buf, 24, direction_to_u64(self.direction));
        put_varint_field(buf, 32, self.protocol_id as u64);
        put_varint_field(buf, 40, self.opened_at_ns as u64);
        proof {
            assert(final(buf)@ =~= old(buf)@ + self.wire());
        }
    }
}

impl WireMessage for StreamClosed {
    open spec fn wire(&self) -> Seq<u8> {
        varint_field(8, self.stream_alias) + varint_field(16, self.closed_at_ns as u64)
            + varint_field(24, close_reason_number(self.reason))
    }

    fn wire_len(&self) -> (r: u128) {
        varint_field_len(8, self.stream_alias) + varint_field_len(16, self.closed_at_ns as u64)
            + varint_field_len(24, close_reason_to_u64(self.reason))
    }

    fn write_message(&self, buf: &mut Vec<u8>) {
        put_varint_field(buf, 8, self.stream_alias);
        put_varint_field(buf, 16, self.closed_at_ns as u64);
        put_varint_field(buf, 24, close_reason_to_u64(self.reason));
        proof {
            assert(final(buf)@ =~= old(buf)@ + self.wire());
        }
    }
}

impl WireMessage for StreamChunk {
    open spec fn wire(&self) -> Seq<u8> {
        varint_field(8, self.stream_alias) + varint_field(16, direction_number(self.direction))
            + bytes_field(26, self.data@)
    }

    fn wire_len(&self) -> (r: u128) {
        varint_field_len(8, self.stream_alias) + varint_field_len(
            16,
            direction_to_u64(self.direction),
        ) + bytes_field_len(26, self.data.as_slice())
    }

    fn write_message(&self, buf: &mut Vec<u8>) {
        put_varint_field(buf, 8, self.stream_alias);
        put_varint_field(buf, 16, direction_to_u64(self.direction));
        put_bytes_field(buf, 26, self.data.as_slice());
        proof {
            assert(final(buf)@ =~= old(buf)@ + self.wire());
        }
    }
}

impl WireMessage for ClientHello {
    open spec fn wire(&self) -> Seq<u8> {
        varint_field(8, self.protocol_version as u64) + bytes_field(18, self.peer_id@) + bytes_field(
            26,
            encode_utf8(self.client_name@),
        ) + bytes_field(34, self.boot_id@) + varint_field(40, self.started_at_ns as u64)
    }

    fn wire_len(&self) -> (r: u128) {
        varint_field_len(8, self.protocol_version as u64) + bytes_field_len(
            18,
            self.peer_id.as_slice(),
        ) + bytes_field_len(26, str_bytes(&self.client_name)) + bytes_field_len(
            34,
            self.boot_id.as_slice(),
        ) + varint_field_len(40, self.started_at_ns as u64)
    }

    fn write_message(&self, buf: &mut Vec<u8>) {
        put_varint_field(buf, 8, self.protocol_version as u64);
        put_bytes_field(buf, 18, self.peer_id.as_slice());
        put_bytes_field(buf, 26, str_bytes(&self.client_name));
        put_bytes_field(buf, 34, self.boot_id.as_slice());
        put_varint_field(buf, 40, self.started_at_ns as u64);
        proof {
            assert(final(buf)@ =~= old(buf)@ + self.wire());
        }
    }
}

impl WireMessage for ServerHello {
    open spec fn wire(&self) -> Seq<u8> {
        varint_field(8, self.protocol_version as u64) + bytes_field(18, encode_utf8(self.source_id@))
            + varint_field(24, self.last_acked_seq)
    }

    fn wire_len(&self) -> (r: u128) {
        varint_field_len(8, self.protocol_version as u64) + bytes_field_len(
            18,
            str_bytes(&self.source_id),
        ) + varint_field_len(24, self.last_acked_seq)
    }

    fn write_message(&self, buf: &mut Vec<u8>) {
        put_varint_field(buf, 8, self.protocol_version as u64);
        put_bytes_field(buf, 18, str_bytes(&self.source_id));
        put_varint_field(buf, 24, self.last_acked_seq);
        proof {
            assert(final(buf)@ =~= old(buf)@ + self.wire());
        }
    }
}

/// The encoding of an envelope's payload: one sub-message field, or none.
pub open spec fn payload_wire(p: OneOfpayload) -> Seq<u8> {
    match p {
        OneOfpayload::snapshot_start(m) => message_field(90, m.wire()),
        OneOfpayload::snapshot_end(m) => message_field(98, m.wire()),
        OneOfpayload::string_def(m) => message_field(162, m.wire()),
        OneOfpayload::peer_upsert(m) => message_field(170, m.wire()),
        OneOfpayload::connection_upsert(m) => message_field(178, m.wire()),
        OneOfpayload::connection_closed(m) => message_field(186, m.wire()),
        OneOfpayload::stream_upsert(m) => message_field(194, m.wire()),
        OneOfpayload::stream_closed(m) => message_field(202, m.wire()),
        OneOfpayload::stream_chunk(m) => message_field(210, m.wire()),
        OneOfpayload::none => Seq::empty(),
    }
}

impl WireMessage for Envelope {
    open spec fn wire(&self) -> Seq<u8> {
        varint_field(8, self.seq) + varint_field(16, self.observed_at_ns as u64) + payload_wire(
            self.payload,
        )
    }

    fn wire_len(&self) -> (r: u128) {
        let head = varint_field_len(8, self.seq) + varint_field_len(16, self.observed_at_ns as u64);
        let body = match &self.payload {
            OneOfpayload::snapshot_start(m) => message_field_len(90, m.wire_len(), Ghost(m.wire())),
            OneOfpayload::snapshot_end(m) => message_field_len(98, m.wire_len(), Ghost(m.wire())),
            OneOfpayload::string_def(m) => message_field_len(162, m.wire_len(), Ghost(m.wire())),
            OneOfpayload::peer_upsert(m) => message_field_len(170, m.wire_len(), Ghost(m.wire())),
            OneOfpayload::connection_upsert(m) => message_field_len(
                178,
                m.wire_len(),
                Ghost(m.wire()),
            ),
            OneOfpayload::connection_closed(m) => message_field_len(
                186,
                m.wire_len(),
                Ghost(m.wire()),
            ),
            OneOfpayload::stream_upsert(m) => message_field_len(194, m.wire_len(), Ghost(m.wire())),
            OneOfpayload::stream_closed(m) => message_field_len(202, m.wire_len(), Ghost(m.wire())),
            OneOfpayload::stream_chunk(m) => message_field_len(210, m.wire_len(), Ghost(m.wire())),
            OneOfpayload::none => 0,
        };
        if body >= 0x1_0000_0000_0000_0000 {
            0x1_0000_0000_0000_0000
        } else {
            let r = head + body;
            if r >= 0x1_0000_0000_0000_0000 { 0x1_0000_0000_0000_0000 } else { r }
        }
    }

    fn write_message(&self, buf: &mut Vec<u8>) {
        put_varint_field(buf, 8, self.seq);
        put_varint_field(buf, 16, self.observed_at_ns as u64);
        match &self.payload {
            OneOfpayload::snapshot_start(m) => put_message_field(buf, 90, m),
            OneOfpayload::snapshot_end(m) => put_message_field(buf, 98, m),
            OneOfpayload::string_def(m) => put_message_field(buf, 162, m),
            OneOfpayload::peer_upsert(m) => put_message_field(buf, 170, m),
            OneOfpayload::connection_upsert(m) => put_message_field(buf, 178, m),
            OneOfpayload::connection_closed(m) => put_message_field(buf, 186, m),
            OneOfpayload::stream_upsert(m) => put_message_field(buf, 194, m),
            OneOfpayload::stream_closed(m) => put_message_field(buf, 202, m),
            OneOfpayload::stream_chunk(m) => put_message_field(buf, 210, m),
            OneOfpayload::none => {},
        }
        proof {
            assert(final(buf)@ =~= old(buf)@ + self.wire());
        }
    }
}

/// The key of field `number` with wire type `wire_type`: what a
/// protocol-buffer encoding writes before the field's value.
pub open spec fn field_key(number: nat, wire_type: nat) -> nat {
    number * 8 + wire_type
}

/// How a field is written: a number field as its key and the number (left
/// out when 0), a byte-string field as its key, its length and its bytes
/// (left out when empty), a sub-message as its key, its length and its
/// encoding (always written).
pub proof fn lemma_field_rules(key: nat, v: u64, bytes: Seq<u8>)
    ensures
        v == 0 ==> varint_field(key, v) == Seq::<u8>::empty(),
        v != 0 ==> varint_field(key, v) == varint_encoding(key) + varint_encoding(v as nat),
        bytes.len() == 0 ==> bytes_field(key, bytes) == Seq::<u8>::empty(),
        bytes.len() != 0 ==> bytes_field(key, bytes) == varint_encoding(key) + varint_encoding(
            bytes.len(),
        ) + bytes,
        message_field(key, bytes) == varint_encoding(key) + varint_encoding(bytes.len()) + bytes,
{
    reveal(varint_field);
    reveal(bytes_field);
    reveal(message_field);
}

/// The enum numbers of `wiretap.proto`.
pub proof fn lemma_enum_numbers()
    ensures
        direction_number(Direction::DIRECTION_UNKNOWN) == 0,
        direction_number(Direction::DIRECTION_IN) == 1,
        direction_number(Direction::DIRECTION_OUT) == 2,
        close_reason_number(CloseReason::CLOSE_REASON_UNKNOWN) == 0,
        close_reason_number(CloseReason::CLOSE_REASON_CLOSE) == 1,
        close_reason_number(CloseReason::CLOSE_REASON_RESET) == 2,
        close_reason_number(CloseReason::CLOSE_REASON_CONN_CLOSED) == 3,
{
}

/// An envelope is written as `wiretap.proto` numbers its fields: `seq` is
/// field 1, `observed_at_ns` field 2, and the payload is the sub-message
/// under its own field (snapshot_start 11, snapshot_end 12, string_def 20,
/// peer_upsert 21, connection_upsert 22, connection_closed 23,
/// stream_upsert 24, stream_closed 25, stream_chunk 26), or nothing.
pub proof fn lemma_envelope_schema(e: Envelope)
    ensures
        e.wire() == varint_field(field_key(1, 0), e.seq) + varint_field(
            field_key(2, 0),
            e.observed_at_ns as u64,
        ) + payload_wire(e.payload),
        ({
            let (number, body): (nat, Seq<u8>) = match e.payload {
                OneOfpayload::snapshot_start(m) => (11, m.wire()),
                OneOfpayload::snapshot_end(m) => (12, m.wire()),
                OneOfpayload::string_def(m) => (20, m.wire()),
                OneOfpayload::peer_upsert(m) => (21, m.wire()),
                OneOfpayload::connection_upsert(m) => (22, m.wire()),
                OneOfpayload::connection_closed(m) => (23, m.wire()),
                OneOfpayload::stream_upsert(m) => (24, m.wire()),
                OneOfpayload::stream_closed(m) => (25, m.wire()),
                OneOfpayload::stream_chunk(m) => (26, m.wire()),
                OneOfpayload::none => (0, Seq::empty()),
            };
            if e.payload is none {
                payload_wire(e.payload) == Seq::<u8>::empty()
            } else {
                payload_wire(e.payload) == varint_encoding(field_key(number, 2)) + varint_encoding(
                    body.len(),
                ) + body
            }
        }),
{
    reveal(message_field);
}

/// Each record is written as `wiretap.proto` numbers its fields, in field
/// order: numbers with wire type 0, strings and byte strings with wire
/// type 2.
pub proof fn lemma_record_schema(
    sd: StringDef,
    pu: PeerUpsert,
    cu: ConnectionUpsert,
    cc: ConnectionClosed,
    su: StreamUpsert,
    sc: StreamClosed,
    ch: StreamChunk,
    h: ClientHello,
    sh: ServerHello,
)
    ensures
        sd.wire() == varint_field(field_key(1, 0), sd.id as u64) + bytes_field(
            field_key(2, 2),
            encode_utf8(sd.value@),
        ),
        pu.wire() == varint_field(field_key(1, 0), pu.peer_alias) + bytes_field(
            field_key(2, 2),
            pu.peer_id@,
        ),
        cu.wire() == varint_field(field_key(1, 0), cu.conn_alias) + varint_field(
            field_key(2, 0),
            cu.peer_alias,
        ) + bytes_field(field_key(3, 2), encode_utf8(cu.remote_addr@)) + bytes_field(
            field_key(4, 2),
            encode_utf8(cu.local_addr@),
        ) + varint_field(field_key(5, 0), direction_number(cu.direction)) + varint_field(
            field_key(6, 0),
            cu.transport_id as u64,
        ) + varint_field(field_key(7, 0), cu.security_id as u64) + varint_field(
            field_key(8, 0),
            cu.muxer_id as u64,
        ) + varint_field(field_key(9, 0), cu.opened_at_ns as u64),
        cc.wire() == varint_field(field_key(1, 0), cc.conn_alias) + varint_field(
            field_key(2, 0),
            cc.closed_at_ns as u64,
        ),
        su.wire() == varint_field(field_key(1, 0), su.stream_alias) + varint_field(
            field_key(2, 0),
            su.conn_alias,
        ) + varint_field(field_key(3, 0), direction_number(su.direction)) + varint_field(
            field_key(4, 0),
            su.protocol_id as u64,
        ) + varint_field(field_key(5, 0), su.opened_at_ns as u64),
        sc.wire() == varint_field(field_key(1, 0), sc.stream_alias) + varint_field(
            field_key(2, 0),
            sc.closed_at_ns as u64,
        ) + varint_field(field_key(3, 0), close_reason_number(sc.reason)),
        ch.wire() == varint_field(field_key(1, 0), ch.stream_alias) + varint_field(
            field_key(2, 0),
            direction_number(ch.direction),
        ) + bytes_field(field_key(3, 2), ch.data@),
        h.wire() == varint_field(field_key(1, 0), h.protocol_version as u64) + bytes_field(
            field_key(2, 2),
            h.peer_id@,
        ) + bytes_field(field_key(3, 2), encode_utf8(h.client_name@)) + bytes_field(
            field_key(4, 2),
            h.boot_id@,
        ) + varint_field(field_key(5, 0), h.started_at_ns as u64),
        sh.wire() == varint_field(field_key(1, 0), sh.protocol_version as u64) + bytes_field(
            field_key(2, 2),
            encode_utf8(sh.source_id@),
        ) + varint_field(field_key(3, 0), sh.last_acked_seq),
{
}

} // verus!
