//! How each record is read back: for each, what reading a window of a
//! buffer gives (its fields, tag by tag), the reader, and the proof that a
//! record's encoding reads back as the record.
use vstd::prelude::*;
use vstd::utf8::{decode_utf8, encode_utf8, encode_utf8_decode_utf8, encode_utf8_valid_utf8};

use crate::decode::{
    bytes_at, left, lemma_field_encodings, lemma_message_field_at,
    lemma_varint_at_bounds, lemma_varint_field_at, read_bytes, read_string, read_varint32,
    read_varint64, skip_at, skip_field, string_at, two_to_32, varint32_at, varint64_at,
    DecodeError, WireRead,
};
use crate::messages::{
    close_reason_from_i32, direction_from_i32, ClientHello, ClientHelloView, CloseReason,
    ConnectionClosed, ConnectionUpsert, ConnectionUpsertView, Direction, Envelope, EnvelopeView,
    OneOfpayload, PayloadView, PeerUpsert, PeerUpsertView, ServerHello, ServerHelloView,
    SnapshotEnd, SnapshotStart, StreamChunk, StreamChunkView, StreamClosed, StreamUpsert,
    StringDef, StringDefView,
};
use crate::proto::{
    bytes_field, close_reason_number, direction_number, message_field, payload_wire, varint_field,
    WireMessage,
};
use crate::varint::varint_encoding;

verus! {

/// Splitting a run of bytes known to hold `a + b` into its two parts.
pub proof fn lemma_split_at(bytes: Seq<u8>, s: int, a: Seq<u8>, b: Seq<u8>)
    requires
        0 <= s,
        s + a.len() + b.len() <= bytes.len(),
        bytes.subrange(s, s + a.len() + b.len()) == a + b,
    ensures
        bytes.subrange(s, s + a.len()) == a,
        bytes.subrange(s + a.len(), s + a.len() + b.len()) == b,
{
    let w = bytes.subrange(s, s + a.len() + b.len());
    assert(bytes.subrange(s, s + a.len()) =~= a) by {
        assert forall|i: int| 0 <= i < a.len() implies bytes.subrange(s, s + a.len())[i] == a[i] by {
            assert(bytes.subrange(s, s + a.len())[i] == w[i]);
        }
    }
    assert(bytes.subrange(s + a.len(), s + a.len() + b.len()) =~= b) by {
        assert forall|i: int| 0 <= i < b.len() implies bytes.subrange(s + a.len(), s + a.len() + b.len())[i]
            == b[i] by {
            assert(bytes.subrange(s + a.len(), s + a.len() + b.len())[i] == w[a.len() + i]);
        }
    }
}

/// The nine fields of a record, laid end to end from `s`: each at its offset.
pub proof fn lemma_segments9(
    bytes: Seq<u8>,
    s: int,
    f1: Seq<u8>,
    f2: Seq<u8>,
    f3: Seq<u8>,
    f4: Seq<u8>,
    f5: Seq<u8>,
    f6: Seq<u8>,
    f7: Seq<u8>,
    f8: Seq<u8>,
    f9: Seq<u8>,
)
    requires
        0 <= s,
        s + (f1 + f2 + f3 + f4 + f5 + f6 + f7 + f8 + f9).len() <= bytes.len(),
        bytes.subrange(s, s + (f1 + f2 + f3 + f4 + f5 + f6 + f7 + f8 + f9).len()) == f1 + f2 + f3 + f4
            + f5 + f6 + f7 + f8 + f9,
    ensures
        ({
            let o2 = s + f1.len();
            let o3 = o2 + f2.len();
            let o4 = o3 + f3.len();
            let o5 = o4 + f4.len();
            let o6 = o5 + f5.len();
            let o7 = o6 + f6.len();
            let o8 = o7 + f7.len();
            let o9 = o8 + f8.len();
            &&& bytes.subrange(s, o2) == f1
            &&& bytes.subrange(o2, o3) == f2
            &&& bytes.subrange(o3, o4) == f3
            &&& bytes.subrange(o4, o5) == f4
            &&& bytes.subrange(o5, o6) == f5
            &&& bytes.subrange(o6, o7) == f6
            &&& bytes.subrange(o7, o8) == f7
            &&& bytes.subrange(o8, o9) == f8
            &&& bytes.subrange(o9, o9 + f9.len()) == f9
        }),
{
    lemma_split_at(bytes, s, f1 + f2 + f3 + f4 + f5 + f6 + f7 + f8, f9);
    lemma_split_at(bytes, s, f1 + f2 + f3 + f4 + f5 + f6 + f7, f8);
    lemma_split_at(bytes, s, f1 + f2 + f3 + f4 + f5 + f6, f7);
    lemma_split_at(bytes, s, f1 + f2 + f3 + f4 + f5, f6);
    lemma_split_at(bytes, s, f1 + f2 + f3 + f4, f5);
    lemma_split_at(bytes, s, f1 + f2 + f3, f4);
    lemma_split_at(bytes, s, f1 + f2, f3);
    lemma_split_at(bytes, s, f1, f2);
}

/// The five fields of a record, laid end to end from `s`: each at its offset.
pub proof fn lemma_segments5(
    bytes: Seq<u8>,
    s: int,
    f1: Seq<u8>,
    f2: Seq<u8>,
    f3: Seq<u8>,
    f4: Seq<u8>,
    f5: Seq<u8>,
)
    requires
        0 <= s,
        s + (f1 + f2 + f3 + f4 + f5).len() <= bytes.len(),
        bytes.subrange(s, s + (f1 + f2 + f3 + f4 + f5).len()) == f1 + f2 + f3 + f4 + f5,
    ensures
        ({
            let o2 = s + f1.len();
            let o3 = o2 + f2.len();
            let o4 = o3 + f3.len();
            let o5 = o4 + f4.len();
            &&& bytes.subrange(s, o2) == f1
            &&& bytes.subrange(o2, o3) == f2
            &&& bytes.subrange(o3, o4) == f3
            &&& bytes.subrange(o4, o5) == f4
            &&& bytes.subrange(o5, o5 + f5.len()) == f5
        }),
{
    lemma_split_at(bytes, s, f1 + f2 + f3 + f4, f5);
    lemma_split_at(bytes, s, f1 + f2 + f3, f4);
    lemma_split_at(bytes, s, f1 + f2, f3);
    lemma_split_at(bytes, s, f1, f2);
}

/// A string's encoding is empty exactly when the string is.
pub proof fn lemma_utf8_empty(s: Seq<char>)
    ensures
        (encode_utf8(s).len() == 0) == (s.len() == 0),
        valid_utf8_of(s),
{
    encode_utf8_decode_utf8(s);
    encode_utf8_valid_utf8(s);
    if s.len() == 0 {
        assert(encode_utf8(s) =~= Seq::<u8>::empty());
    }
    if encode_utf8(s).len() == 0 {
        assert(encode_utf8(s) =~= Seq::<u8>::empty());
        assert(decode_utf8(Seq::<u8>::empty()) =~= Seq::<char>::empty());
    }
}

/// A string's encoding is valid UTF-8 and decodes to the string.
pub open spec fn valid_utf8_of(s: Seq<char>) -> bool {
    vstd::utf8::valid_utf8(encode_utf8(s)) && decode_utf8(encode_utf8(s)) == s
}

/// A signed 64-bit number written as its two's-complement bits reads back
/// as itself, and is written as zero only when it is zero.
pub proof fn lemma_i64_bits(v: i64)
    ensures
        (v as u64) as i64 == v,
        (v as u64 == 0) == (v == 0),
{
    assert((v as u64) as i64 == v) by (bit_vector);
    assert((v as u64 == 0) == (v == 0)) by (bit_vector);
}

// -------------------------------------------------------------------- ServerHello

/// A record of this kind with every field at its default.
pub open spec fn server_hello_default() -> ServerHelloView {
    ServerHelloView { protocol_version: 0, source_id: Seq::empty(), last_acked_seq: 0 }
}

/// Reading the value of a field with tag `tag` at `p` into `v`.
pub open spec fn server_hello_step(bytes: Seq<u8>, p: int, end: int, v: ServerHelloView, tag: u32) -> Result<
    (ServerHelloView, int),
    DecodeError,
> {
    if tag == 8 {
        match varint32_at(bytes, p) {
            Ok((x, q)) => Ok((ServerHelloView { protocol_version: x, ..v }, q)),
            Err(e) => Err(e),
        }
    } else if tag == 18 {
        match string_at(bytes, p) {
            Ok((x, q)) => Ok((ServerHelloView { source_id: x, ..v }, q)),
            Err(e) => Err(e),
        }
    } else if tag == 24 {
        match varint64_at(bytes, p) {
            Ok((x, q)) => Ok((ServerHelloView { last_acked_seq: x, ..v }, q)),
            Err(e) => Err(e),
        }
    } else {
        match skip_at(bytes, p, end, tag) {
            Ok(q) => Ok((v, q)),
            Err(e) => Err(e),
        }
    }
}

/// Reading the fields from `pos` to `end` into `v`.
#[verifier::opaque]
pub open spec fn server_hello_fields(bytes: Seq<u8>, pos: int, end: int, v: ServerHelloView) -> Result<
    ServerHelloView,
    DecodeError,
>
    decreases left(bytes, pos),
{
    if pos == end {
        Ok(v)
    } else {
        match varint32_at(bytes, pos) {
            Err(e) => Err(e),
            Ok((tag, p)) => match server_hello_step(bytes, p, end, v, tag) {
                Err(e) => Err(e),
                Ok((v2, q)) => server_hello_fields(bytes, q, end, v2),
            },
        }
    }
}

/// One field read: reading from `p` is reading its tag and value, then
/// the rest.
pub proof fn lemma_server_hello_advance(
    bytes: Seq<u8>,
    p: int,
    end: int,
    v: ServerHelloView,
    tag: u32,
    p1: int,
    v2: ServerHelloView,
    q: int,
)
    requires
        p != end,
        varint32_at(bytes, p) == Ok::<(u32, int), DecodeError>((tag, p1)),
        server_hello_step(bytes, p1, end, v, tag) == Ok::<(ServerHelloView, int), DecodeError>((v2, q)),
    ensures
        server_hello_fields(bytes, p, end, v) == server_hello_fields(bytes, q, end, v2),
{
    reveal(server_hello_fields);
}

impl WireRead for ServerHello {
    open spec fn parse(bytes: Seq<u8>, start: int, end: int) -> Result<ServerHelloView, DecodeError> {
        server_hello_fields(bytes, start, end, server_hello_default())
    }

    open spec fn lengths_fit(&self) -> bool {
        encode_utf8(self.source_id@).len() < two_to_32()
    }

    proof fn lemma_short_lengths_fit(&self) {
        lemma_field_encodings(18, 0, encode_utf8(self.source_id@));
    }


    fn from_reader(bytes: &[u8], start: usize, end: usize) -> (r: Result<ServerHello, DecodeError>) {
        let mut msg = ServerHello { protocol_version: 0, source_id: String::new(), last_acked_seq: 0 };
        let mut pos = start;
        while pos != end
            invariant
                server_hello_fields(bytes@, pos as int, end as int, msg@) == Self::parse(
                    bytes@,
                    start as int,
                    end as int,
                ),
            decreases left(bytes@, pos as int),
        {
            proof {
                reveal(server_hello_fields);
            }
            let (tag, p) = match read_varint32(bytes, pos) {
                Ok(x) => x,
                Err(e) => return Err(e),
            };
            if tag == 8 {
                match read_varint32(bytes, p) {
                    Ok((x, q)) => {
                        msg.protocol_version = x;
                        pos = q;
                    },
                    Err(e) => return Err(e),
                }
            } else if tag == 18 {
                match read_string(bytes, p) {
                    Ok((x, q)) => {
                        msg.source_id = x;
                        pos = q;
                    },
                    Err(e) => return Err(e),
                }
            } else if tag == 24 {
                match read_varint64(bytes, p) {
                    Ok((x, q)) => {
                        msg.last_acked_seq = x;
                        pos = q;
                    },
                    Err(e) => return Err(e),
                }
            } else {
                match skip_field(bytes, p, end, tag) {
                    Ok(q) => pos = q,
                    Err(e) => return Err(e),
                }
            }
        }
        proof {
            reveal(server_hello_fields);
        }
        Ok(msg)
    }

    proof fn lemma_read_back(&self, bytes: Seq<u8>, start: int) {
        let f1 = varint_field(8, self.protocol_version as u64);
        let f2 = bytes_field(18, encode_utf8(self.source_id@));
        let f3 = varint_field(24, self.last_acked_seq);
        let end = start + self.wire().len();
        lemma_split_at(bytes, start, f1 + f2, f3);
        lemma_split_at(bytes, start, f1, f2);
        lemma_utf8_empty(self.source_id@);
        let p0 = start;
        let v0 = server_hello_default();
        let p1 = p0 + f1.len();
        let v1 = if self.protocol_version != 0 {
            ServerHelloView { protocol_version: self.protocol_version, ..v0 }
        } else {
            v0
        };
        assert(server_hello_fields(bytes, p0, end, v0) == server_hello_fields(bytes, p1, end, v1)) by {
            if self.protocol_version != 0 {
                lemma_varint_field_at(bytes, p0, 8, self.protocol_version as u64);
                lemma_server_hello_advance(bytes, p0, end, v0, 8, p0 + varint_encoding(8).len(), v1, p1);
            } else {
                lemma_field_encodings(8, self.protocol_version as u64, Seq::empty());
            }
        }
        let p2 = p1 + f2.len();
        let v2 = if self.source_id@.len() != 0 {
            ServerHelloView { source_id: self.source_id@, ..v1 }
        } else {
            v1
        };
        assert(server_hello_fields(bytes, p1, end, v1) == server_hello_fields(bytes, p2, end, v2)) by {
            if self.source_id@.len() != 0 {
                lemma_field_encodings(18, 0, encode_utf8(self.source_id@));
                lemma_message_field_at(bytes, p1, 18, encode_utf8(self.source_id@));
                lemma_server_hello_advance(bytes, p1, end, v1, 18, p1 + varint_encoding(18).len(), v2, p2);
            } else {
                lemma_field_encodings(18, 0, encode_utf8(self.source_id@));
            }
        }
        let p3 = p2 + f3.len();
        let v3 = if self.last_acked_seq != 0 {
            ServerHelloView { last_acked_seq: self.last_acked_seq, ..v2 }
        } else {
            v2
        };
        assert(server_hello_fields(bytes, p2, end, v2) == server_hello_fields(bytes, p3, end, v3)) by {
            if self.last_acked_seq != 0 {
                lemma_varint_field_at(bytes, p2, 24, self.last_acked_seq);
                lemma_server_hello_advance(bytes, p2, end, v2, 24, p2 + varint_encoding(24).len(), v3, p3);
            } else {
                lemma_field_encodings(24, self.last_acked_seq, Seq::empty());
            }
        }
        assert(self.source_id@.len() == 0 ==> self.source_id@ =~= Seq::<char>::empty());
        assert(server_hello_fields(bytes, p3, end, v3) == Ok::<ServerHelloView, DecodeError>(v3)) by {
            reveal(server_hello_fields);
        }
        assert(v3 == self@);
    }
}

// ---------------------------------------------------------------------- StringDef

/// A record of this kind with every field at its default.
pub open spec fn string_def_default() -> StringDefView {
    StringDefView { id: 0, value: Seq::empty() }
}

/// Reading the value of a field with tag `tag` at `p` into `v`.
pub open spec fn string_def_step(bytes: Seq<u8>, p: int, end: int, v: StringDefView, tag: u32) -> Result<
    (StringDefView, int),
    DecodeError,
> {
    if tag == 8 {
        match varint32_at(bytes, p) {
            Ok((x, q)) => Ok((StringDefView { id: x, ..v }, q)),
            Err(e) => Err(e),
        }
    } else if tag == 18 {
        match string_at(bytes, p) {
            Ok((x, q)) => Ok((StringDefView { value: x, ..v }, q)),
            Err(e) => Err(e),
        }
    } else {
        match skip_at(bytes, p, end, tag) {
            Ok(q) => Ok((v, q)),
            Err(e) => Err(e),
        }
    }
}

/// Reading the fields from `pos` to `end` into `v`.
#[verifier::opaque]
pub open spec fn string_def_fields(bytes: Seq<u8>, pos: int, end: int, v: StringDefView) -> Result<
    StringDefView,
    DecodeError,
>
    decreases left(bytes, pos),
{
    if pos == end {
        Ok(v)
    } else {
        match varint32_at(bytes, pos) {
            Err(e) => Err(e),
            Ok((tag, p)) => match string_def_step(bytes, p, end, v, tag) {
                Err(e) => Err(e),
                Ok((v2, q)) => string_def_fields(bytes, q, end, v2),
            },
        }
    }
}

/// One field read: reading from `p` is reading its tag and value, then
/// the rest.
pub proof fn lemma_string_def_advance(
    bytes: Seq<u8>,
    p: int,
    end: int,
    v: StringDefView,
    tag: u32,
    p1: int,
    v2: StringDefView,
    q: int,
)
    requires
        p != end,
        varint32_at(bytes, p) == Ok::<(u32, int), DecodeError>((tag, p1)),
        string_def_step(bytes, p1, end, v, tag) == Ok::<(StringDefView, int), DecodeError>((v2, q)),
    ensures
        string_def_fields(bytes, p, end, v) == string_def_fields(bytes, q, end, v2),
{
    reveal(string_def_fields);
}

impl WireRead for StringDef {
    open spec fn parse(bytes: Seq<u8>, start: int, end: int) -> Result<StringDefView, DecodeError> {
        string_def_fields(bytes, start, end, string_def_default())
    }

    open spec fn lengths_fit(&self) -> bool {
        encode_utf8(self.value@).len() < two_to_32()
    }

    proof fn lemma_short_lengths_fit(&self) {
        lemma_field_encodings(18, 0, encode_utf8(self.value@));
    }


    fn from_reader(bytes: &[u8], start: usize, end: usize) -> (r: Result<StringDef, DecodeError>) {
        let mut msg = StringDef { id: 0, value: String::new() };
        let mut pos = start;
        while pos != end
            invariant
                string_def_fields(bytes@, pos as int, end as int, msg@) == Self::parse(
                    bytes@,
                    start as int,
                    end as int,
                ),
            decreases left(bytes@, pos as int),
        {
            proof {
                reveal(string_def_fields);
            }
            let (tag, p) = match read_varint32(bytes, pos) {
                Ok(x) => x,
                Err(e) => return Err(e),
            };
            if tag == 8 {
                match read_varint32(bytes, p) {
                    Ok((x, q)) => {
                        msg.id = x;
                        pos = q;
                    },
                    Err(e) => return Err(e),
                }
            } else if tag == 18 {
                match read_string(bytes, p) {
                    Ok((x, q)) => {
                        msg.value = x;
                        pos = q;
                    },
                    Err(e) => return Err(e),
                }
            } else {
                match skip_field(bytes, p, end, tag) {
                    Ok(q) => pos = q,
                    Err(e) => return Err(e),
                }
            }
        }
        proof {
            reveal(string_def_fields);
        }
        Ok(msg)
    }

    proof fn lemma_read_back(&self, bytes: Seq<u8>, start: int) {
        let f1 = varint_field(8, self.id as u64);
        let f2 = bytes_field(18, encode_utf8(self.value@));
        let end = start + self.wire().len();
        lemma_split_at(bytes, start, f1, f2);
        lemma_utf8_empty(self.value@);
        let p0 = start;
        let v0 = string_def_default();
        let p1 = p0 + f1.len();
        let v1 = if self.id != 0 {
            StringDefView { id: self.id, ..v0 }
        } else {
            v0
        };
        assert(string_def_fields(bytes, p0, end, v0) == string_def_fields(bytes, p1, end, v1)) by {
            if self.id != 0 {
                lemma_varint_field_at(bytes, p0, 8, self.id as u64);
                lemma_string_def_advance(bytes, p0, end, v0, 8, p0 + varint_encoding(8).len(), v1, p1);
            } else {
                lemma_field_encodings(8, self.id as u64, Seq::empty());
            }
        }
        let p2 = p1 + f2.len();
        let v2 = if self.value@.len() != 0 {
            StringDefView { value: self.value@, ..v1 }
        } else {
            v1
        };
        assert(string_def_fields(bytes, p1, end, v1) == string_def_fields(bytes, p2, end, v2)) by {
            if self.value@.len() != 0 {
                lemma_field_encodings(18, 0, encode_utf8(self.value@));
                lemma_message_field_at(bytes, p1, 18, encode_utf8(self.value@));
                lemma_string_def_advance(bytes, p1, end, v1, 18, p1 + varint_encoding(18).len(), v2, p2);
            } else {
                lemma_field_encodings(18, 0, encode_utf8(self.value@));
            }
        }
        assert(self.value@.len() == 0 ==> self.value@ =~= Seq::<char>::empty());
        assert(string_def_fields(bytes, p2, end, v2) == Ok::<StringDefView, DecodeError>(v2)) by {
            reveal(string_def_fields);
        }
        assert(v2 == self@);
    }
}

// --------------------------------------------------------------------- PeerUpsert

/// A record of this kind with every field at its default.
pub open spec fn peer_upsert_default() -> PeerUpsertView {
    PeerUpsertView { peer_alias: 0, peer_id: Seq::empty() }
}

/// Reading the value of a field with tag `tag` at `p` into `v`.
pub open spec fn peer_upsert_step(bytes: Seq<u8>, p: int, end: int, v: PeerUpsertView, tag: u32) -> Result<
    (PeerUpsertView, int),
    DecodeError,
> {
    if tag == 8 {
        match varint64_at(bytes, p) {
            Ok((x, q)) => Ok((PeerUpsertView { peer_alias: x, ..v }, q)),
            Err(e) => Err(e),
        }
    } else if tag == 18 {
        match bytes_at(bytes, p) {
            Ok((x, q)) => Ok((PeerUpsertView { peer_id: x, ..v }, q)),
            Err(e) => Err(e),
        }
    } else {
        match skip_at(bytes, p, end, tag) {
            Ok(q) => Ok((v, q)),
            Err(e) => Err(e),
        }
    }
}

/// Reading the fields from `pos` to `end` into `v`.
#[verifier::opaque]
pub open spec fn peer_upsert_fields(bytes: Seq<u8>, pos: int, end: int, v: PeerUpsertView) -> Result<
    PeerUpsertView,
    DecodeError,
>
    decreases left(bytes, pos),
{
    if pos == end {
        Ok(v)
    } else {
        match varint32_at(bytes, pos) {
            Err(e) => Err(e),
            Ok((tag, p)) => match peer_upsert_step(bytes, p, end, v, tag) {
                Err(e) => Err(e),
                Ok((v2, q)) => peer_upsert_fields(bytes, q, end, v2),
            },
        }
    }
}

/// One field read: reading from `p` is reading its tag and value, then
/// the rest.
pub proof fn lemma_peer_upsert_advance(
    bytes: Seq<u8>,
    p: int,
    end: int,
    v: PeerUpsertView,
    tag: u32,
    p1: int,
    v2: PeerUpsertView,
    q: int,
)
    requires
        p != end,
        varint32_at(bytes, p) == Ok::<(u32, int), DecodeError>((tag, p1)),
        peer_upsert_step(bytes, p1, end, v, tag) == Ok::<(PeerUpsertView, int), DecodeError>((v2, q)),
    ensures
        peer_upsert_fields(bytes, p, end, v) == peer_upsert_fields(bytes, q, end, v2),
{
    reveal(peer_upsert_fields);
}

impl WireRead for PeerUpsert {
    open spec fn parse(bytes: Seq<u8>, start: int, end: int) -> Result<PeerUpsertView, DecodeError> {
        peer_upsert_fields(bytes, start, end, peer_upsert_default())
    }

    open spec fn lengths_fit(&self) -> bool {
        self.peer_id@.len() < two_to_32()
    }

    proof fn lemma_short_lengths_fit(&self) {
        lemma_field_encodings(18, 0, self.peer_id@);
    }


    fn from_reader(bytes: &[u8], start: usize, end: usize) -> (r: Result<PeerUpsert, DecodeError>) {
        let mut msg = PeerUpsert { peer_alias: 0, peer_id: Vec::new() };
        let mut pos = start;
        while pos != end
            invariant
                peer_upsert_fields(bytes@, pos as int, end as int, msg@) == Self::parse(
                    bytes@,
                    start as int,
                    end as int,
                ),
            decreases left(bytes@, pos as int),
        {
            proof {
                reveal(peer_upsert_fields);
            }
            let (tag, p) = match read_varint32(bytes, pos) {
                Ok(x) => x,
                Err(e) => return Err(e),
            };
            if tag == 8 {
                match read_varint64(bytes, p) {
                    Ok((x, q)) => {
                        msg.peer_alias = x;
                        pos = q;
                    },
                    Err(e) => return Err(e),
                }
            } else if tag == 18 {
                match read_bytes(bytes, p) {
                    Ok((x, q)) => {
                        msg.peer_id = x;
                        pos = q;
                    },
                    Err(e) => return Err(e),
                }
            } else {
                match skip_field(bytes, p, end, tag) {
                    Ok(q) => pos = q,
                    Err(e) => return Err(e),
                }
            }
        }
        proof {
            reveal(peer_upsert_fields);
        }
        Ok(msg)
    }

    proof fn lemma_read_back(&self, bytes: Seq<u8>, start: int) {
        let f1 = varint_field(8, self.peer_alias);
        let f2 = bytes_field(18, self.peer_id@);
        let end = start + self.wire().len();
        lemma_split_at(bytes, start, f1, f2);
        let p0 = start;
        let v0 = peer_upsert_default();
        let p1 = p0 + f1.len();
        let v1 = if self.peer_alias != 0 {
            PeerUpsertView { peer_alias: self.peer_alias, ..v0 }
        } else {
            v0
        };
        assert(peer_upsert_fields(bytes, p0, end, v0) == peer_upsert_fields(bytes, p1, end, v1)) by {
            if self.peer_alias != 0 {
                lemma_varint_field_at(bytes, p0, 8, self.peer_alias);
                lemma_peer_upsert_advance(bytes, p0, end, v0, 8, p0 + varint_encoding(8).len(), v1, p1);
            } else {
                lemma_field_encodings(8, self.peer_alias, Seq::empty());
            }
        }
        let p2 = p1 + f2.len();
        let v2 = if self.peer_id@.len() != 0 {
            PeerUpsertView { peer_id: self.peer_id@, ..v1 }
        } else {
            v1
        };
        assert(peer_upsert_fields(bytes, p1, end, v1) == peer_upsert_fields(bytes, p2, end, v2)) by {
            if self.peer_id@.len() != 0 {
                lemma_field_encodings(18, 0, self.peer_id@);
                lemma_message_field_at(bytes, p1, 18, self.peer_id@);
                lemma_peer_upsert_advance(bytes, p1, end, v1, 18, p1 + varint_encoding(18).len(), v2, p2);
            } else {
                lemma_field_encodings(18, 0, self.peer_id@);
            }
        }
        assert(self.peer_id@.len() == 0 ==> self.peer_id@ =~= Seq::<u8>::empty());
        assert(peer_upsert_fields(bytes, p2, end, v2) == Ok::<PeerUpsertView, DecodeError>(v2)) by {
            reveal(peer_upsert_fields);
        }
        assert(v2 == self@);
    }
}

// --------------------------------------------------------------- ConnectionUpsert

/// A record of this kind with every field at its default.
pub open spec fn connection_upsert_default() -> ConnectionUpsertView {
    ConnectionUpsertView {
        conn_alias: 0,
        peer_alias: 0,
        remote_addr: Seq::empty(),
        local_addr: Seq::empty(),
        direction: Direction::DIRECTION_UNKNOWN,
        transport_id: 0,
        security_id: 0,
        muxer_id: 0,
        opened_at_ns: 0,
    }
}

/// Reading the value of a field with tag `tag` at `p` into `v`.
pub open spec fn connection_upsert_step(bytes: Seq<u8>, p: int, end: int, v: ConnectionUpsertView, tag: u32) -> Result<
    (ConnectionUpsertView, int),
    DecodeError,
> {
    if tag == 8 {
        match varint64_at(bytes, p) {
            Ok((x, q)) => Ok((ConnectionUpsertView { conn_alias: x, ..v }, q)),
            Err(e) => Err(e),
        }
    } else if tag == 16 {
        match varint64_at(bytes, p) {
            Ok((x, q)) => Ok((ConnectionUpsertView { peer_alias: x, ..v }, q)),
            Err(e) => Err(e),
        }
    } else if tag == 26 {
        match string_at(bytes, p) {
            Ok((x, q)) => Ok((ConnectionUpsertView { remote_addr: x, ..v }, q)),
            Err(e) => Err(e),
        }
    } else if tag == 34 {
        match string_at(bytes, p) {
            Ok((x, q)) => Ok((ConnectionUpsertView { local_addr: x, ..v }, q)),
            Err(e) => Err(e),
        }
    } else if tag == 40 {
        match varint32_at(bytes, p) {
            Ok((x, q)) => Ok((ConnectionUpsertView { direction: direction_from_i32(x as i32), ..v }, q)),
            Err(e) => Err(e),
        }
    } else if tag == 48 {
        match varint32_at(bytes, p) {
            Ok((x, q)) => Ok((ConnectionUpsertView { transport_id: x, ..v }, q)),
            Err(e) => Err(e),
        }
    } else if tag == 56 {
        match varint32_at(bytes, p) {
            Ok((x, q)) => Ok((ConnectionUpsertView { security_id: x, ..v }, q)),
            Err(e) => Err(e),
        }
    } else if tag == 64 {
        match varint32_at(bytes, p) {
            Ok((x, q)) => Ok((ConnectionUpsertView { muxer_id: x, ..v }, q)),
            Err(e) => Err(e),
        }
    } else if tag == 72 {
        match varint64_at(bytes, p) {
            Ok((x, q)) => Ok((ConnectionUpsertView { opened_at_ns: x as i64, ..v }, q)),
            Err(e) => Err(e),
        }
    } else {
        match skip_at(bytes, p, end, tag) {
            Ok(q) => Ok((v, q)),
            Err(e) => Err(e),
        }
    }
}

/// Reading the fields from `pos` to `end` into `v`.
#[verifier::opaque]
pub open spec fn connection_upsert_fields(bytes: Seq<u8>, pos: int, end: int, v: ConnectionUpsertView) -> Result<
    ConnectionUpsertView,
    DecodeError,
>
    decreases left(bytes, pos),
{
    if pos == end {
        Ok(v)
    } else {
        match varint32_at(bytes, pos) {
            Err(e) => Err(e),
            Ok((tag, p)) => match connection_upsert_step(bytes, p, end, v, tag) {
                Err(e) => Err(e),
                Ok((v2, q)) => connection_upsert_fields(bytes, q, end, v2),
            },
        }
    }
}

/// One field read: reading from `p` is reading its tag and value, then
/// the rest.
pub proof fn lemma_connection_upsert_advance(
    bytes: Seq<u8>,
    p: int,
    end: int,
    v: ConnectionUpsertView,
    tag: u32,
    p1: int,
    v2: ConnectionUpsertView,
    q: int,
)
    requires
        p != end,
        varint32_at(bytes, p) == Ok::<(u32, int), DecodeError>((tag, p1)),
        connection_upsert_step(bytes, p1, end, v, tag) == Ok::<(ConnectionUpsertView, int), DecodeError>((v2, q)),
    ensures
        connection_upsert_fields(bytes, p, end, v) == connection_upsert_fields(bytes, q, end, v2),
{
    reveal(connection_upsert_fields);
}

/// The connection announcement `m` with its first `k` fields (in field
/// order) read, the others at their defaults.
pub open spec fn connection_upsert_partial(m: ConnectionUpsertView, k: int) -> ConnectionUpsertView {
    ConnectionUpsertView {
        conn_alias: if k >= 1 { m.conn_alias } else { 0 },
        peer_alias: if k >= 2 { m.peer_alias } else { 0 },
        remote_addr: if k >= 3 { m.remote_addr } else { Seq::empty() },
        local_addr: if k >= 4 { m.local_addr } else { Seq::empty() },
        direction: if k >= 5 { m.direction } else { Direction::DIRECTION_UNKNOWN },
        transport_id: if k >= 6 { m.transport_id } else { 0 },
        security_id: if k >= 7 { m.security_id } else { 0 },
        muxer_id: if k >= 8 { m.muxer_id } else { 0 },
        opened_at_ns: if k >= 9 { m.opened_at_ns } else { 0 },
    }
}

/// Field 1 of a connection announcement read back at `p`.
proof fn lemma_connection_upsert_read_conn_alias(m: &ConnectionUpsert, bytes: Seq<u8>, p: int, end: int)
    requires
        0 <= p,
        p + varint_field(8, m.conn_alias).len() <= end <= bytes.len(),
        bytes.subrange(p, p + varint_field(8, m.conn_alias).len()) == varint_field(8, m.conn_alias),
    ensures
        connection_upsert_fields(bytes, p, end, connection_upsert_partial(m@, 0))
            == connection_upsert_fields(bytes, p + varint_field(8, m.conn_alias).len(), end, connection_upsert_partial(m@, 1)),
{
    if m.conn_alias != 0 {
        lemma_varint_field_at(bytes, p, 8, m.conn_alias);
        lemma_connection_upsert_advance(
            bytes,
            p,
            end,
            connection_upsert_partial(m@, 0),
            8,
            p + varint_encoding(8).len(),
            connection_upsert_partial(m@, 1),
            p + varint_field(8, m.conn_alias).len(),
        );
    } else {
        lemma_field_encodings(8, m.conn_alias, Seq::empty());
        assert(connection_upsert_partial(m@, 0) == connection_upsert_partial(m@, 1));
    }
}

/// Field 2 of a connection announcement read back at `p`.
proof fn lemma_connection_upsert_read_peer_alias(m: &ConnectionUpsert, bytes: Seq<u8>, p: int, end: int)
    requires
        0 <= p,
        p + varint_field(16, m.peer_alias).len() <= end <= bytes.len(),
        bytes.subrange(p, p + varint_field(16, m.peer_alias).len()) == varint_field(16, m.peer_alias),
    ensures
        connection_upsert_fields(bytes, p, end, connection_upsert_partial(m@, 1))
            == connection_upsert_fields(bytes, p + varint_field(16, m.peer_alias).len(), end, connection_upsert_partial(m@, 2)),
{
    if m.peer_alias != 0 {
        lemma_varint_field_at(bytes, p, 16, m.peer_alias);
        lemma_connection_upsert_advance(
            bytes,
            p,
            end,
            connection_upsert_partial(m@, 1),
            16,
            p + varint_encoding(16).len(),
            connection_upsert_partial(m@, 2),
            p + varint_field(16, m.peer_alias).len(),
        );
    } else {
        lemma_field_encodings(16, m.peer_alias, Seq::empty());
        assert(connection_upsert_partial(m@, 1) == connection_upsert_partial(m@, 2));
    }
}

/// Field 3 of a connection announcement read back at `p`.
proof fn lemma_connection_upsert_read_remote_addr(m: &ConnectionUpsert, bytes: Seq<u8>, p: int, end: int)
    requires
        0 <= p,
        p + bytes_field(26, encode_utf8(m.remote_addr@)).len() <= end <= bytes.len(),
        bytes.subrange(p, p + bytes_field(26, encode_utf8(m.remote_addr@)).len()) == bytes_field(26, encode_utf8(m.remote_addr@)),
        encode_utf8(m.remote_addr@).len() < two_to_32(),
    ensures
        connection_upsert_fields(bytes, p, end, connection_upsert_partial(m@, 2))
            == connection_upsert_fields(bytes, p + bytes_field(26, encode_utf8(m.remote_addr@)).len(), end, connection_upsert_partial(m@, 3)),
{
    lemma_utf8_empty(m.remote_addr@);
    if m.remote_addr@.len() != 0 {
        lemma_field_encodings(26, 0, encode_utf8(m.remote_addr@));
        lemma_message_field_at(bytes, p, 26, encode_utf8(m.remote_addr@));
        lemma_connection_upsert_advance(
            bytes,
            p,
            end,
            connection_upsert_partial(m@, 2),
            26,
            p + varint_encoding(26).len(),
            connection_upsert_partial(m@, 3),
            p + bytes_field(26, encode_utf8(m.remote_addr@)).len(),
        );
    } else {
        lemma_field_encodings(26, 0, encode_utf8(m.remote_addr@));
        assert(m.remote_addr@ =~= Seq::<char>::empty());
        assert(connection_upsert_partial(m@, 2) == connection_upsert_partial(m@, 3));
    }
}

/// Field 4 of a connection announcement read back at `p`.
proof fn lemma_connection_upsert_read_local_addr(m: &ConnectionUpsert, bytes: Seq<u8>, p: int, end: int)
    requires
        0 <= p,
        p + bytes_field(34, encode_utf8(m.local_addr@)).len() <= end <= bytes.len(),
        bytes.subrange(p, p + bytes_field(34, encode_utf8(m.local_addr@)).len()) == bytes_field(34, encode_utf8(m.local_addr@)),
        encode_utf8(m.local_addr@).len() < two_to_32(),
    ensures
        connection_upsert_fields(bytes, p, end, connection_upsert_partial(m@, 3))
            == connection_upsert_fields(bytes, p + bytes_field(34, encode_utf8(m.local_addr@)).len(), end, connection_upsert_partial(m@, 4)),
{
    lemma_utf8_empty(m.local_addr@);
    if m.local_addr@.len() != 0 {
        lemma_field_encodings(34, 0, encode_utf8(m.local_addr@));
        lemma_message_field_at(bytes, p, 34, encode_utf8(m.local_addr@));
        lemma_connection_upsert_advance(
            bytes,
            p,
            end,
            connection_upsert_partial(m@, 3),
            34,
            p + varint_encoding(34).len(),
            connection_upsert_partial(m@, 4),
            p + bytes_field(34, encode_utf8(m.local_addr@)).len(),
        );
    } else {
        lemma_field_encodings(34, 0, encode_utf8(m.local_addr@));
        assert(m.local_addr@ =~= Seq::<char>::empty());
        assert(connection_upsert_partial(m@, 3) == connection_upsert_partial(m@, 4));
    }
}

/// Field 5 of a connection announcement read back at `p`.
proof fn lemma_connection_upsert_read_direction(m: &ConnectionUpsert, bytes: Seq<u8>, p: int, end: int)
    requires
        0 <= p,
        p + varint_field(40, direction_number(m.direction)).len() <= end <= bytes.len(),
        bytes.subrange(p, p + varint_field(40, direction_number(m.direction)).len()) == varint_field(40, direction_number(m.direction)),
    ensures
        connection_upsert_fields(bytes, p, end, connection_upsert_partial(m@, 4))
            == connection_upsert_fields(bytes, p + varint_field(40, direction_number(m.direction)).len(), end, connection_upsert_partial(m@, 5)),
{
    if m.direction != Direction::DIRECTION_UNKNOWN {
        lemma_varint_field_at(bytes, p, 40, direction_number(m.direction));
        lemma_connection_upsert_advance(
            bytes,
            p,
            end,
            connection_upsert_partial(m@, 4),
            40,
            p + varint_encoding(40).len(),
            connection_upsert_partial(m@, 5),
            p + varint_field(40, direction_number(m.direction)).len(),
        );
    } else {
        lemma_field_encodings(40, direction_number(m.direction), Seq::empty());
        assert(connection_upsert_partial(m@, 4) == connection_upsert_partial(m@, 5));
    }
}

/// Field 6 of a connection announcement read back at `p`.
proof fn lemma_connection_upsert_read_transport_id(m: &ConnectionUpsert, bytes: Seq<u8>, p: int, end: int)
    requires
        0 <= p,
        p + varint_field(48, m.transport_id as u64).len() <= end <= bytes.len(),
        bytes.subrange(p, p + varint_field(48, m.transport_id as u64).len()) == varint_field(48, m.transport_id as u64),
    ensures
        connection_upsert_fields(bytes, p, end, connection_upsert_partial(m@, 5))
            == connection_upsert_fields(bytes, p + varint_field(48, m.transport_id as u64).len(), end, connection_upsert_partial(m@, 6)),
{
    if m.transport_id != 0 {
        lemma_varint_field_at(bytes, p, 48, m.transport_id as u64);
        lemma_connection_upsert_advance(
            bytes,
            p,
            end,
            connection_upsert_partial(m@, 5),
            48,
            p + varint_encoding(48).len(),
            connection_upsert_partial(m@, 6),
            p + varint_field(48, m.transport_id as u64).len(),
        );
    } else {
        lemma_field_encodings(48, m.transport_id as u64, Seq::empty());
        assert(connection_upsert_partial(m@, 5) == connection_upsert_partial(m@, 6));
    }
}

/// Field 7 of a connection announcement read back at `p`.
proof fn lemma_connection_upsert_read_security_id(m: &ConnectionUpsert, bytes: Seq<u8>, p: int, end: int)
    requires
        0 <= p,
        p + varint_field(56, m.security_id as u64).len() <= end <= bytes.len(),
        bytes.subrange(p, p + varint_field(56, m.security_id as u64).len()) == varint_field(56, m.security_id as u64),
    ensures
        connection_upsert_fields(bytes, p, end, connection_upsert_partial(m@, 6))
            == connection_upsert_fields(bytes, p + varint_field(56, m.security_id as u64).len(), end, connection_upsert_partial(m@, 7)),
{
    if m.security_id != 0 {
        lemma_varint_field_at(bytes, p, 56, m.security_id as u64);
        lemma_connection_upsert_advance(
            bytes,
            p,
            end,
            connection_upsert_partial(m@, 6),
            56,
            p + varint_encoding(56).len(),
            connection_upsert_partial(m@, 7),
            p + varint_field(56, m.security_id as u64).len(),
        );
    } else {
        lemma_field_encodings(56, m.security_id as u64, Seq::empty());
        assert(connection_upsert_partial(m@, 6) == connection_upsert_partial(m@, 7));
    }
}

/// Field 8 of a connection announcement read back at `p`.
proof fn lemma_connection_upsert_read_muxer_id(m: &ConnectionUpsert, bytes: Seq<u8>, p: int, end: int)
    requires
        0 <= p,
        p + varint_field(64, m.muxer_id as u64).len() <= end <= bytes.len(),
        bytes.subrange(p, p + varint_field(64, m.muxer_id as u64).len()) == varint_field(64, m.muxer_id as u64),
    ensures
        connection_upsert_fields(bytes, p, end, connection_upsert_partial(m@, 7))
            == connection_upsert_fields(bytes, p + varint_field(64, m.muxer_id as u64).len(), end, connection_upsert_partial(m@, 8)),
{
    if m.muxer_id != 0 {
        lemma_varint_field_at(bytes, p, 64, m.muxer_id as u64);
        lemma_connection_upsert_advance(
            bytes,
            p,
            end,
            connection_upsert_partial(m@, 7),
            64,
            p + varint_encoding(64).len(),
            connection_upsert_partial(m@, 8),
            p + varint_field(64, m.muxer_id as u64).len(),
        );
    } else {
        lemma_field_encodings(64, m.muxer_id as u64, Seq::empty());
        assert(connection_upsert_partial(m@, 7) == connection_upsert_partial(m@, 8));
    }
}

/// Field 9 of a connection announcement read back at `p`.
proof fn lemma_connection_upsert_read_opened_at_ns(m: &ConnectionUpsert, bytes: Seq<u8>, p: int, end: int)
    requires
        0 <= p,
        p + varint_field(72, m.opened_at_ns as u64).len() <= end <= bytes.len(),
        bytes.subrange(p, p + varint_field(72, m.opened_at_ns as u64).len()) == varint_field(72, m.opened_at_ns as u64),
    ensures
        connection_upsert_fields(bytes, p, end, connection_upsert_partial(m@, 8))
            == connection_upsert_fields(bytes, p + varint_field(72, m.opened_at_ns as u64).len(), end, connection_upsert_partial(m@, 9)),
{
    lemma_i64_bits(m.opened_at_ns);
    if m.opened_at_ns != 0 {
        lemma_varint_field_at(bytes, p, 72, m.opened_at_ns as u64);
        lemma_connection_upsert_advance(
            bytes,
            p,
            end,
            connection_upsert_partial(m@, 8),
            72,
            p + varint_encoding(72).len(),
            connection_upsert_partial(m@, 9),
            p + varint_field(72, m.opened_at_ns as u64).len(),
        );
    } else {
        lemma_field_encodings(72, m.opened_at_ns as u64, Seq::empty());
        assert(connection_upsert_partial(m@, 8) == connection_upsert_partial(m@, 9));
    }
}

impl WireRead for ConnectionUpsert {
    open spec fn parse(bytes: Seq<u8>, start: int, end: int) -> Result<ConnectionUpsertView, DecodeError> {
        connection_upsert_fields(bytes, start, end, connection_upsert_default())
    }

    open spec fn lengths_fit(&self) -> bool {
        encode_utf8(self.remote_addr@).len() < two_to_32() && encode_utf8(self.local_addr@).len() < two_to_32()
    }

    proof fn lemma_short_lengths_fit(&self) {
        lemma_field_encodings(26, 0, encode_utf8(self.remote_addr@));
        lemma_field_encodings(34, 0, encode_utf8(self.local_addr@));
    }


    fn from_reader(bytes: &[u8], start: usize, end: usize) -> (r: Result<ConnectionUpsert, DecodeError>) {
        let mut msg = ConnectionUpsert { conn_alias: 0, peer_alias: 0, remote_addr: String::new(), local_addr: String::new(), direction: Direction::DIRECTION_UNKNOWN, transport_id: 0, security_id: 0, muxer_id: 0, opened_at_ns: 0 };
        let mut pos = start;
        while pos != end
            invariant
                connection_upsert_fields(bytes@, pos as int, end as int, msg@) == Self::parse(
                    bytes@,
                    start as int,
                    end as int,
                ),
            decreases left(bytes@, pos as int),
        {
            proof {
                reveal(connection_upsert_fields);
            }
            let (tag, p) = match read_varint32(bytes, pos) {
                Ok(x) => x,
                Err(e) => return Err(e),
            };
            if tag == 8 {
                match read_varint64(bytes, p) {
                    Ok((x, q)) => {
                        msg.conn_alias = x;
                        pos = q;
                    },
                    Err(e) => return Err(e),
                }
            } else if tag == 16 {
                match read_varint64(bytes, p) {
                    Ok((x, q)) => {
                        msg.peer_alias = x;
                        pos = q;
                    },
                    Err(e) => return Err(e),
                }
            } else if tag == 26 {
                match read_string(bytes, p) {
                    Ok((x, q)) => {
                        msg.remote_addr = x;
                        pos = q;
                    },
                    Err(e) => return Err(e),
                }
            } else if tag == 34 {
                match read_string(bytes, p) {
                    Ok((x, q)) => {
                        msg.local_addr = x;
                        pos = q;
                    },
                    Err(e) => return Err(e),
                }
            } else if tag == 40 {
                match read_varint32(bytes, p) {
                    Ok((x, q)) => {
                        msg.direction = Direction::from(x as i32);
                        pos = q;
                    },
                    Err(e) => return Err(e),
                }
            } else if tag == 48 {
                match read_varint32(bytes, p) {
                    Ok((x, q)) => {
                        msg.transport_id = x;
                        pos = q;
                    },
                    Err(e) => return Err(e),
                }
            } else if tag == 56 {
                match read_varint32(bytes, p) {
                    Ok((x, q)) => {
                        msg.security_id = x;
                        pos = q;
                    },
                    Err(e) => return Err(e),
                }
            } else if tag == 64 {
                match read_varint32(bytes, p) {
                    Ok((x, q)) => {
                        msg.muxer_id = x;
                        pos = q;
                    },
                    Err(e) => return Err(e),
                }
            } else if tag == 72 {
                match read_varint64(bytes, p) {
                    Ok((x, q)) => {
                        msg.opened_at_ns = x as i64;
                        pos = q;
                    },
                    Err(e) => return Err(e),
                }
            } else {
                match skip_field(bytes, p, end, tag) {
                    Ok(q) => pos = q,
                    Err(e) => return Err(e),
                }
            }
        }
        proof {
            reveal(connection_upsert_fields);
        }
        Ok(msg)
    }

    proof fn lemma_read_back(&self, bytes: Seq<u8>, start: int) {
        let f1 = varint_field(8, self.conn_alias);
        let f2 = varint_field(16, self.peer_alias);
        let f3 = bytes_field(26, encode_utf8(self.remote_addr@));
        let f4 = bytes_field(34, encode_utf8(self.local_addr@));
        let f5 = varint_field(40, direction_number(self.direction));
        let f6 = varint_field(48, self.transport_id as u64);
        let f7 = varint_field(56, self.security_id as u64);
        let f8 = varint_field(64, self.muxer_id as u64);
        let f9 = varint_field(72, self.opened_at_ns as u64);
        let end = start + self.wire().len();
        lemma_segments9(bytes, start, f1, f2, f3, f4, f5, f6, f7, f8, f9);
        let p0 = start;
        lemma_connection_upsert_read_conn_alias(self, bytes, p0, end);
        let p1 = p0 + f1.len();
        lemma_connection_upsert_read_peer_alias(self, bytes, p1, end);
        let p2 = p1 + f2.len();
        lemma_field_encodings(26, 0, encode_utf8(self.remote_addr@));
        lemma_connection_upsert_read_remote_addr(self, bytes, p2, end);
        let p3 = p2 + f3.len();
        lemma_field_encodings(34, 0, encode_utf8(self.local_addr@));
        lemma_connection_upsert_read_local_addr(self, bytes, p3, end);
        let p4 = p3 + f4.len();
        lemma_connection_upsert_read_direction(self, bytes, p4, end);
        let p5 = p4 + f5.len();
        lemma_connection_upsert_read_transport_id(self, bytes, p5, end);
        let p6 = p5 + f6.len();
        lemma_connection_upsert_read_security_id(self, bytes, p6, end);
        let p7 = p6 + f7.len();
        lemma_connection_upsert_read_muxer_id(self, bytes, p7, end);
        let p8 = p7 + f8.len();
        lemma_connection_upsert_read_opened_at_ns(self, bytes, p8, end);
        let p9 = p8 + f9.len();
        assert(connection_upsert_partial(self@, 0) == connection_upsert_default());
        assert(connection_upsert_partial(self@, 9) == self@);
        assert(connection_upsert_fields(bytes, p9, end, self@) == Ok::<ConnectionUpsertView, DecodeError>(self@)) by {
            reveal(connection_upsert_fields);
        }
    }
}

// --------------------------------------------------------------- ConnectionClosed

/// A record of this kind with every field at its default.
pub open spec fn connection_closed_default() -> ConnectionClosed {
    ConnectionClosed { conn_alias: 0, closed_at_ns: 0 }
}

/// Reading the value of a field with tag `tag` at `p` into `v`.
pub open spec fn connection_closed_step(bytes: Seq<u8>, p: int, end: int, v: ConnectionClosed, tag: u32) -> Result<
    (ConnectionClosed, int),
    DecodeError,
> {
    if tag == 8 {
        match varint64_at(bytes, p) {
            Ok((x, q)) => Ok((ConnectionClosed { conn_alias: x, ..v }, q)),
            Err(e) => Err(e),
        }
    } else if tag == 16 {
        match varint64_at(bytes, p) {
            Ok((x, q)) => Ok((ConnectionClosed { closed_at_ns: x as i64, ..v }, q)),
            Err(e) => Err(e),
        }
    } else {
        match skip_at(bytes, p, end, tag) {
            Ok(q) => Ok((v, q)),
            Err(e) => Err(e),
        }
    }
}

/// Reading the fields from `pos` to `end` into `v`.
#[verifier::opaque]
pub open spec fn connection_closed_fields(bytes: Seq<u8>, pos: int, end: int, v: ConnectionClosed) -> Result<
    ConnectionClosed,
    DecodeError,
>
    decreases left(bytes, pos),
{
    if pos == end {
        Ok(v)
    } else {
        match varint32_at(bytes, pos) {
            Err(e) => Err(e),
            Ok((tag, p)) => match connection_closed_step(bytes, p, end, v, tag) {
                Err(e) => Err(e),
                Ok((v2, q)) => connection_closed_fields(bytes, q, end, v2),
            },
        }
    }
}

/// One field read: reading from `p` is reading its tag and value, then
/// the rest.
pub proof fn lemma_connection_closed_advance(
    bytes: Seq<u8>,
    p: int,
    end: int,
    v: ConnectionClosed,
    tag: u32,
    p1: int,
    v2: ConnectionClosed,
    q: int,
)
    requires
        p != end,
        varint32_at(bytes, p) == Ok::<(u32, int), DecodeError>((tag, p1)),
        connection_closed_step(bytes, p1, end, v, tag) == Ok::<(ConnectionClosed, int), DecodeError>((v2, q)),
    ensures
        connection_closed_fields(bytes, p, end, v) == connection_closed_fields(bytes, q, end, v2),
{
    reveal(connection_closed_fields);
}

impl WireRead for ConnectionClosed {
    open spec fn parse(bytes: Seq<u8>, start: int, end: int) -> Result<ConnectionClosed, DecodeError> {
        connection_closed_fields(bytes, start, end, connection_closed_default())
    }

    open spec fn lengths_fit(&self) -> bool {
        true
    }

    proof fn lemma_short_lengths_fit(&self) {
    }


    fn from_reader(bytes: &[u8], start: usize, end: usize) -> (r: Result<ConnectionClosed, DecodeError>) {
        let mut msg = ConnectionClosed { conn_alias: 0, closed_at_ns: 0 };
        let mut pos = start;
        while pos != end
            invariant
                connection_closed_fields(bytes@, pos as int, end as int, msg@) == Self::parse(
                    bytes@,
                    start as int,
                    end as int,
                ),
            decreases left(bytes@, pos as int),
        {
            proof {
                reveal(connection_closed_fields);
            }
            let (tag, p) = match read_varint32(bytes, pos) {
                Ok(x) => x,
                Err(e) => return Err(e),
            };
            if tag == 8 {
                match read_varint64(bytes, p) {
                    Ok((x, q)) => {
                        msg.conn_alias = x;
                        pos = q;
                    },
                    Err(e) => return Err(e),
                }
            } else if tag == 16 {
                match read_varint64(bytes, p) {
                    Ok((x, q)) => {
                        msg.closed_at_ns = x as i64;
                        pos = q;
                    },
                    Err(e) => return Err(e),
                }
            } else {
                match skip_field(bytes, p, end, tag) {
                    Ok(q) => pos = q,
                    Err(e) => return Err(e),
                }
            }
        }
        proof {
            reveal(connection_closed_fields);
        }
        Ok(msg)
    }

    proof fn lemma_read_back(&self, bytes: Seq<u8>, start: int) {
        let f1 = varint_field(8, self.conn_alias);
        let f2 = varint_field(16, self.closed_at_ns as u64);
        let end = start + self.wire().len();
        lemma_split_at(bytes, start, f1, f2);
        lemma_i64_bits(self.closed_at_ns);
        let p0 = start;
        let v0 = connection_closed_default();
        let p1 = p0 + f1.len();
        let v1 = if self.conn_alias != 0 {
            ConnectionClosed { conn_alias: self.conn_alias, ..v0 }
        } else {
            v0
        };
        assert(connection_closed_fields(bytes, p0, end, v0) == connection_closed_fields(bytes, p1, end, v1)) by {
            if self.conn_alias != 0 {
                lemma_varint_field_at(bytes, p0, 8, self.conn_alias);
                lemma_connection_closed_advance(bytes, p0, end, v0, 8, p0 + varint_encoding(8).len(), v1, p1);
            } else {
                lemma_field_encodings(8, self.conn_alias, Seq::empty());
            }
        }
        let p2 = p1 + f2.len();
        let v2 = if self.closed_at_ns != 0 {
            ConnectionClosed { closed_at_ns: self.closed_at_ns, ..v1 }
        } else {
            v1
        };
        assert(connection_closed_fields(bytes, p1, end, v1) == connection_closed_fields(bytes, p2, end, v2)) by {
            if self.closed_at_ns != 0 {
                lemma_varint_field_at(bytes, p1, 16, self.closed_at_ns as u64);
                lemma_connection_closed_advance(bytes, p1, end, v1, 16, p1 + varint_encoding(16).len(), v2, p2);
            } else {
                lemma_field_encodings(16, self.closed_at_ns as u64, Seq::empty());
            }
        }
        assert(connection_closed_fields(bytes, p2, end, v2) == Ok::<ConnectionClosed, DecodeError>(v2)) by {
            reveal(connection_closed_fields);
        }
        assert(v2 == self@);
    }
}

// ------------------------------------------------------------------- StreamUpsert

/// A record of this kind with every field at its default.
pub open spec fn stream_upsert_default() -> StreamUpsert {
    StreamUpsert {
        stream_alias: 0,
        conn_alias: 0,
        direction: Direction::DIRECTION_UNKNOWN,
        protocol_id: 0,
        opened_at_ns: 0,
    }
}

/// Reading the value of a field with tag `tag` at `p` into `v`.
pub open spec fn stream_upsert_step(bytes: Seq<u8>, p: int, end: int, v: StreamUpsert, tag: u32) -> Result<
    (StreamUpsert, int),
    DecodeError,
> {
    if tag == 8 {
        match varint64_at(bytes, p) {
            Ok((x, q)) => Ok((StreamUpsert { stream_alias: x, ..v }, q)),
            Err(e) => Err(e),
        }
    } else if tag == 16 {
        match varint64_at(bytes, p) {
            Ok((x, q)) => Ok((StreamUpsert { conn_alias: x, ..v }, q)),
            Err(e) => Err(e),
        }
    } else if tag == 24 {
        match varint32_at(bytes, p) {
            Ok((x, q)) => Ok((StreamUpsert { direction: direction_from_i32(x as i32), ..v }, q)),
            Err(e) => Err(e),
        }
    } else if tag == 32 {
        match varint32_at(bytes, p) {
            Ok((x, q)) => Ok((StreamUpsert { protocol_id: x, ..v }, q)),
            Err(e) => Err(e),
        }
    } else if tag == 40 {
        match varint64_at(bytes, p) {
            Ok((x, q)) => Ok((StreamUpsert { opened_at_ns: x as i64, ..v }, q)),
            Err(e) => Err(e),
        }
    } else {
        match skip_at(bytes, p, end, tag) {
            Ok(q) => Ok((v, q)),
            Err(e) => Err(e),
        }
    }
}

/// Reading the fields from `pos` to `end` into `v`.
#[verifier::opaque]
pub open spec fn stream_upsert_fields(bytes: Seq<u8>, pos: int, end: int, v: StreamUpsert) -> Result<
    StreamUpsert,
    DecodeError,
>
    decreases left(bytes, pos),
{
    if pos == end {
        Ok(v)
    } else {
        match varint32_at(bytes, pos) {
            Err(e) => Err(e),
            Ok((tag, p)) => match stream_upsert_step(bytes, p, end, v, tag) {
                Err(e) => Err(e),
                Ok((v2, q)) => stream_upsert_fields(bytes, q, end, v2),
            },
        }
    }
}

/// One field read: reading from `p` is reading its tag and value, then
/// the rest.
pub proof fn lemma_stream_upsert_advance(
    bytes: Seq<u8>,
    p: int,
    end: int,
    v: StreamUpsert,
    tag: u32,
    p1: int,
    v2: StreamUpsert,
    q: int,
)
    requires
        p != end,
        varint32_at(bytes, p) == Ok::<(u32, int), DecodeError>((tag, p1)),
        stream_upsert_step(bytes, p1, end, v, tag) == Ok::<(StreamUpsert, int), DecodeError>((v2, q)),
    ensures
        stream_upsert_fields(bytes, p, end, v) == stream_upsert_fields(bytes, q, end, v2),
{
    reveal(stream_upsert_fields);
}

impl WireRead for StreamUpsert {
    open spec fn parse(bytes: Seq<u8>, start: int, end: int) -> Result<StreamUpsert, DecodeError> {
        stream_upsert_fields(bytes, start, end, stream_upsert_default())
    }

    open spec fn lengths_fit(&self) -> bool {
        true
    }

    proof fn lemma_short_lengths_fit(&self) {
    }


    fn from_reader(bytes: &[u8], start: usize, end: usize) -> (r: Result<StreamUpsert, DecodeError>) {
        let mut msg = StreamUpsert { stream_alias: 0, conn_alias: 0, direction: Direction::DIRECTION_UNKNOWN, protocol_id: 0, opened_at_ns: 0 };
        let mut pos = start;
        while pos != end
            invariant
                stream_upsert_fields(bytes@, pos as int, end as int, msg@) == Self::parse(
                    bytes@,
                    start as int,
                    end as int,
                ),
            decreases left(bytes@, pos as int),
        {
            proof {
                reveal(stream_upsert_fields);
            }
            let (tag, p) = match read_varint32(bytes, pos) {
                Ok(x) => x,
                Err(e) => return Err(e),
            };
            if tag == 8 {
                match read_varint64(bytes, p) {
                    Ok((x, q)) => {
                        msg.stream_alias = x;
                        pos = q;
                    },
                    Err(e) => return Err(e),
                }
            } else if tag == 16 {
                match read_varint64(bytes, p) {
                    Ok((x, q)) => {
                        msg.conn_alias = x;
                        pos = q;
                    },
                    Err(e) => return Err(e),
                }
            } else if tag == 24 {
                match read_varint32(bytes, p) {
                    Ok((x, q)) => {
                        msg.direction = Direction::from(x as i32);
                        pos = q;
                    },
                    Err(e) => return Err(e),
                }
            } else if tag == 32 {
                match read_varint32(bytes, p) {
                    Ok((x, q)) => {
                        msg.protocol_id = x;
                        pos = q;
                    },
                    Err(e) => return Err(e),
                }
            } else if tag == 40 {
                match read_varint64(bytes, p) {
                    Ok((x, q)) => {
                        msg.opened_at_ns = x as i64;
                        pos = q;
                    },
                    Err(e) => return Err(e),
                }
            } else {
                match skip_field(bytes, p, end, tag) {
                    Ok(q) => pos = q,
                    Err(e) => return Err(e),
                }
            }
        }
        proof {
            reveal(stream_upsert_fields);
        }
        Ok(msg)
    }

    proof fn lemma_read_back(&self, bytes: Seq<u8>, start: int) {
        let f1 = varint_field(8, self.stream_alias);
        let f2 = varint_field(16, self.conn_alias);
        let f3 = varint_field(24, direction_number(self.direction));
        let f4 = varint_field(32, self.protocol_id as u64);
        let f5 = varint_field(40, self.opened_at_ns as u64);
        let end = start + self.wire().len();
        lemma_segments5(bytes, start, f1, f2, f3, f4, f5);
        lemma_i64_bits(self.opened_at_ns);
        let p0 = start;
        let v0 = stream_upsert_default();
        let p1 = p0 + f1.len();
        let v1 = if self.stream_alias != 0 {
            StreamUpsert { stream_alias: self.stream_alias, ..v0 }
        } else {
            v0
        };
        assert(stream_upsert_fields(bytes, p0, end, v0) == stream_upsert_fields(bytes, p1, end, v1)) by {
            if self.stream_alias != 0 {
                lemma_varint_field_at(bytes, p0, 8, self.stream_alias);
                lemma_stream_upsert_advance(bytes, p0, end, v0, 8, p0 + varint_encoding(8).len(), v1, p1);
            } else {
                lemma_field_encodings(8, self.stream_alias, Seq::empty());
            }
        }
        let p2 = p1 + f2.len();
        let v2 = if self.conn_alias != 0 {
            StreamUpsert { conn_alias: self.conn_alias, ..v1 }
        } else {
            v1
        };
        assert(stream_upsert_fields(bytes, p1, end, v1) == stream_upsert_fields(bytes, p2, end, v2)) by {
            if self.conn_alias != 0 {
                lemma_varint_field_at(bytes, p1, 16, self.conn_alias);
                lemma_stream_upsert_advance(bytes, p1, end, v1, 16, p1 + varint_encoding(16).len(), v2, p2);
            } else {
                lemma_field_encodings(16, self.conn_alias, Seq::empty());
            }
        }
        let p3 = p2 + f3.len();
        let v3 = if self.direction != Direction::DIRECTION_UNKNOWN {
            StreamUpsert { direction: self.direction, ..v2 }
        } else {
            v2
        };
        assert(stream_upsert_fields(bytes, p2, end, v2) == stream_upsert_fields(bytes, p3, end, v3)) by {
            if self.direction != Direction::DIRECTION_UNKNOWN {
                lemma_varint_field_at(bytes, p2, 24, direction_number(self.direction));
                lemma_stream_upsert_advance(bytes, p2, end, v2, 24, p2 + varint_encoding(24).len(), v3, p3);
            } else {
                lemma_field_encodings(24, direction_number(self.direction), Seq::empty());
            }
        }
        let p4 = p3 + f4.len();
        let v4 = if self.protocol_id != 0 {
            StreamUpsert { protocol_id: self.protocol_id, ..v3 }
        } else {
            v3
        };
        assert(stream_upsert_fields(bytes, p3, end, v3) == stream_upsert_fields(bytes, p4, end, v4)) by {
            if self.protocol_id != 0 {
                lemma_varint_field_at(bytes, p3, 32, self.protocol_id as u64);
                lemma_stream_upsert_advance(bytes, p3, end, v3, 32, p3 + varint_encoding(32).len(), v4, p4);
            } else {
                lemma_field_encodings(32, self.protocol_id as u64, Seq::empty());
            }
        }
        let p5 = p4 + f5.len();
        let v5 = if self.opened_at_ns != 0 {
            StreamUpsert { opened_at_ns: self.opened_at_ns, ..v4 }
        } else {
            v4
        };
        assert(stream_upsert_fields(bytes, p4, end, v4) == stream_upsert_fields(bytes, p5, end, v5)) by {
            if self.opened_at_ns != 0 {
                lemma_varint_field_at(bytes, p4, 40, self.opened_at_ns as u64);
                lemma_stream_upsert_advance(bytes, p4, end, v4, 40, p4 + varint_encoding(40).len(), v5, p5);
            } else {
                lemma_field_encodings(40, self.opened_at_ns as u64, Seq::empty());
            }
        }
        assert(stream_upsert_fields(bytes, p5, end, v5) == Ok::<StreamUpsert, DecodeError>(v5)) by {
            reveal(stream_upsert_fields);
        }
        assert(v5 == self@);
    }
}

// ------------------------------------------------------------------- StreamClosed

/// A record of this kind with every field at its default.
pub open spec fn stream_closed_default() -> StreamClosed {
    StreamClosed {
        stream_alias: 0,
        closed_at_ns: 0,
        reason: CloseReason::CLOSE_REASON_UNKNOWN,
    }
}

/// Reading the value of a field with tag `tag` at `p` into `v`.
pub open spec fn stream_closed_step(bytes: Seq<u8>, p: int, end: int, v: StreamClosed, tag: u32) -> Result<
    (StreamClosed, int),
    DecodeError,
> {
    if tag == 8 {
        match varint64_at(bytes, p) {
            Ok((x, q)) => Ok((StreamClosed { stream_alias: x, ..v }, q)),
            Err(e) => Err(e),
        }
    } else if tag == 16 {
        match varint64_at(bytes, p) {
            Ok((x, q)) => Ok((StreamClosed { closed_at_ns: x as i64, ..v }, q)),
            Err(e) => Err(e),
        }
    } else if tag == 24 {
        match varint32_at(bytes, p) {
            Ok((x, q)) => Ok((StreamClosed { reason: close_reason_from_i32(x as i32), ..v }, q)),
            Err(e) => Err(e),
        }
    } else {
        match skip_at(bytes, p, end, tag) {
            Ok(q) => Ok((v, q)),
            Err(e) => Err(e),
        }
    }
}

/// Reading the fields from `pos` to `end` into `v`.
#[verifier::opaque]
pub open spec fn stream_closed_fields(bytes: Seq<u8>, pos: int, end: int, v: StreamClosed) -> Result<
    StreamClosed,
    DecodeError,
>
    decreases left(bytes, pos),
{
    if pos == end {
        Ok(v)
    } else {
        match varint32_at(bytes, pos) {
            Err(e) => Err(e),
            Ok((tag, p)) => match stream_closed_step(bytes, p, end, v, tag) {
                Err(e) => Err(e),
                Ok((v2, q)) => stream_closed_fields(bytes, q, end, v2),
            },
        }
    }
}

/// One field read: reading from `p` is reading its tag and value, then
/// the rest.
pub proof fn lemma_stream_closed_advance(
    bytes: Seq<u8>,
    p: int,
    end: int,
    v: StreamClosed,
    tag: u32,
    p1: int,
    v2: StreamClosed,
    q: int,
)
    requires
        p != end,
        varint32_at(bytes, p) == Ok::<(u32, int), DecodeError>((tag, p1)),
        stream_closed_step(bytes, p1, end, v, tag) == Ok::<(StreamClosed, int), DecodeError>((v2, q)),
    ensures
        stream_closed_fields(bytes, p, end, v) == stream_closed_fields(bytes, q, end, v2),
{
    reveal(stream_closed_fields);
}

impl WireRead for StreamClosed {
    open spec fn parse(bytes: Seq<u8>, start: int, end: int) -> Result<StreamClosed, DecodeError> {
        stream_closed_fields(bytes, start, end, stream_closed_default())
    }

    open spec fn lengths_fit(&self) -> bool {
        true
    }

    proof fn lemma_short_lengths_fit(&self) {
    }


    fn from_reader(bytes: &[u8], start: usize, end: usize) -> (r: Result<StreamClosed, DecodeError>) {
        let mut msg = StreamClosed { stream_alias: 0, closed_at_ns: 0, reason: CloseReason::CLOSE_REASON_UNKNOWN };
        let mut pos = start;
        while pos != end
            invariant
                stream_closed_fields(bytes@, pos as int, end as int, msg@) == Self::parse(
                    bytes@,
                    start as int,
                    end as int,
                ),
            decreases left(bytes@, pos as int),
        {
            proof {
                reveal(stream_closed_fields);
            }
            let (tag, p) = match read_varint32(bytes, pos) {
                Ok(x) => x,
                Err(e) => return Err(e),
            };
            if tag == 8 {
                match read_varint64(bytes, p) {
                    Ok((x, q)) => {
                        msg.stream_alias = x;
                        pos = q;
                    },
                    Err(e) => return Err(e),
                }
            } else if tag == 16 {
                match read_varint64(bytes, p) {
                    Ok((x, q)) => {
                        msg.closed_at_ns = x as i64;
                        pos = q;
                    },
                    Err(e) => return Err(e),
                }
            } else if tag == 24 {
                match read_varint32(bytes, p) {
                    Ok((x, q)) => {
                        msg.reason = CloseReason::from(x as i32);
                        pos = q;
                    },
                    Err(e) => return Err(e),
                }
            } else {
                match skip_field(bytes, p, end, tag) {
                    Ok(q) => pos = q,
                    Err(e) => return Err(e),
                }
            }
        }
        proof {
            reveal(stream_closed_fields);
        }
        Ok(msg)
    }

    proof fn lemma_read_back(&self, bytes: Seq<u8>, start: int) {
        let f1 = varint_field(8, self.stream_alias);
        let f2 = varint_field(16, self.closed_at_ns as u64);
        let f3 = varint_field(24, close_reason_number(self.reason));
        let end = start + self.wire().len();
        lemma_split_at(bytes, start, f1 + f2, f3);
        lemma_split_at(bytes, start, f1, f2);
        lemma_i64_bits(self.closed_at_ns);
        let p0 = start;
        let v0 = stream_closed_default();
        let p1 = p0 + f1.len();
        let v1 = if self.stream_alias != 0 {
            StreamClosed { stream_alias: self.stream_alias, ..v0 }
        } else {
            v0
        };
        assert(stream_closed_fields(bytes, p0, end, v0) == stream_closed_fields(bytes, p1, end, v1)) by {
            if self.stream_alias != 0 {
                lemma_varint_field_at(bytes, p0, 8, self.stream_alias);
                lemma_stream_closed_advance(bytes, p0, end, v0, 8, p0 + varint_encoding(8).len(), v1, p1);
            } else {
                lemma_field_encodings(8, self.stream_alias, Seq::empty());
            }
        }
        let p2 = p1 + f2.len();
        let v2 = if self.closed_at_ns != 0 {
            StreamClosed { closed_at_ns: self.closed_at_ns, ..v1 }
        } else {
            v1
        };
        assert(stream_closed_fields(bytes, p1, end, v1) == stream_closed_fields(bytes, p2, end, v2)) by {
            if self.closed_at_ns != 0 {
                lemma_varint_field_at(bytes, p1, 16, self.closed_at_ns as u64);
                lemma_stream_closed_advance(bytes, p1, end, v1, 16, p1 + varint_encoding(16).len(), v2, p2);
            } else {
                lemma_field_encodings(16, self.closed_at_ns as u64, Seq::empty());
            }
        }
        let p3 = p2 + f3.len();
        let v3 = if self.reason != CloseReason::CLOSE_REASON_UNKNOWN {
            StreamClosed { reason: self.reason, ..v2 }
        } else {
            v2
        };
        assert(stream_closed_fields(bytes, p2, end, v2) == stream_closed_fields(bytes, p3, end, v3)) by {
            if self.reason != CloseReason::CLOSE_REASON_UNKNOWN {
                lemma_varint_field_at(bytes, p2, 24, close_reason_number(self.reason));
                lemma_stream_closed_advance(bytes, p2, end, v2, 24, p2 + varint_encoding(24).len(), v3, p3);
            } else {
                lemma_field_encodings(24, close_reason_number(self.reason), Seq::empty());
            }
        }
        assert(stream_closed_fields(bytes, p3, end, v3) == Ok::<StreamClosed, DecodeError>(v3)) by {
            reveal(stream_closed_fields);
        }
        assert(v3 == self@);
    }
}

// -------------------------------------------------------------------- StreamChunk

/// A record of this kind with every field at its default.
pub open spec fn stream_chunk_default() -> StreamChunkView {
    StreamChunkView {
        stream_alias: 0,
        direction: Direction::DIRECTION_UNKNOWN,
        data: Seq::empty(),
    }
}

/// Reading the value of a field with tag `tag` at `p` into `v`.
pub open spec fn stream_chunk_step(bytes: Seq<u8>, p: int, end: int, v: StreamChunkView, tag: u32) -> Result<
    (StreamChunkView, int),
    DecodeError,
> {
    if tag == 8 {
        match varint64_at(bytes, p) {
            Ok((x, q)) => Ok((StreamChunkView { stream_alias: x, ..v }, q)),
            Err(e) => Err(e),
        }
    } else if tag == 16 {
        match varint32_at(bytes, p) {
            Ok((x, q)) => Ok((StreamChunkView { direction: direction_from_i32(x as i32), ..v }, q)),
            Err(e) => Err(e),
        }
    } else if tag == 26 {
        match bytes_at(bytes, p) {
            Ok((x, q)) => Ok((StreamChunkView { data: x, ..v }, q)),
            Err(e) => Err(e),
        }
    } else {
        match skip_at(bytes, p, end, tag) {
            Ok(q) => Ok((v, q)),
            Err(e) => Err(e),
        }
    }
}

/// Reading the fields from `pos` to `end` into `v`.
#[verifier::opaque]
pub open spec fn stream_chunk_fields(bytes: Seq<u8>, pos: int, end: int, v: StreamChunkView) -> Result<
    StreamChunkView,
    DecodeError,
>
    decreases left(bytes, pos),
{
    if pos == end {
        Ok(v)
    } else {
        match varint32_at(bytes, pos) {
            Err(e) => Err(e),
            Ok((tag, p)) => match stream_chunk_step(bytes, p, end, v, tag) {
                Err(e) => Err(e),
                Ok((v2, q)) => stream_chunk_fields(bytes, q, end, v2),
            },
        }
    }
}

/// One field read: reading from `p` is reading its tag and value, then
/// the rest.
pub proof fn lemma_stream_chunk_advance(
    bytes: Seq<u8>,
    p: int,
    end: int,
    v: StreamChunkView,
    tag: u32,
    p1: int,
    v2: StreamChunkView,
    q: int,
)
    requires
        p != end,
        varint32_at(bytes, p) == Ok::<(u32, int), DecodeError>((tag, p1)),
        stream_chunk_step(bytes, p1, end, v, tag) == Ok::<(StreamChunkView, int), DecodeError>((v2, q)),
    ensures
        stream_chunk_fields(bytes, p, end, v) == stream_chunk_fields(bytes, q, end, v2),
{
    reveal(stream_chunk_fields);
}

impl WireRead for StreamChunk {
    open spec fn parse(bytes: Seq<u8>, start: int, end: int) -> Result<StreamChunkView, DecodeError> {
        stream_chunk_fields(bytes, start, end, stream_chunk_default())
    }

    open spec fn lengths_fit(&self) -> bool {
        self.data@.len() < two_to_32()
    }

    proof fn lemma_short_lengths_fit(&self) {
        lemma_field_encodings(26, 0, self.data@);
    }


    fn from_reader(bytes: &[u8], start: usize, end: usize) -> (r: Result<StreamChunk, DecodeError>) {
        let mut msg = StreamChunk { stream_alias: 0, direction: Direction::DIRECTION_UNKNOWN, data: Vec::new() };
        let mut pos = start;
        while pos != end
            invariant
                stream_chunk_fields(bytes@, pos as int, end as int, msg@) == Self::parse(
                    bytes@,
                    start as int,
                    end as int,
                ),
            decreases left(bytes@, pos as int),
        {
            proof {
                reveal(stream_chunk_fields);
            }
            let (tag, p) = match read_varint32(bytes, pos) {
                Ok(x) => x,
                Err(e) => return Err(e),
            };
            if tag == 8 {
                match read_varint64(bytes, p) {
                    Ok((x, q)) => {
                        msg.stream_alias = x;
                        pos = q;
                    },
                    Err(e) => return Err(e),
                }
            } else if tag == 16 {
                match read_varint32(bytes, p) {
                    Ok((x, q)) => {
                        msg.direction = Direction::from(x as i32);
                        pos = q;
                    },
                    Err(e) => return Err(e),
                }
            } else if tag == 26 {
                match read_bytes(bytes, p) {
                    Ok((x, q)) => {
                        msg.data = x;
                        pos = q;
                    },
                    Err(e) => return Err(e),
                }
            } else {
                match skip_field(bytes, p, end, tag) {
                    Ok(q) => pos = q,
                    Err(e) => return Err(e),
                }
            }
        }
        proof {
            reveal(stream_chunk_fields);
        }
        Ok(msg)
    }

    proof fn lemma_read_back(&self, bytes: Seq<u8>, start: int) {
        let f1 = varint_field(8, self.stream_alias);
        let f2 = varint_field(16, direction_number(self.direction));
        let f3 = bytes_field(26, self.data@);
        let end = start + self.wire().len();
        lemma_split_at(bytes, start, f1 + f2, f3);
        lemma_split_at(bytes, start, f1, f2);
        let p0 = start;
        let v0 = stream_chunk_default();
        let p1 = p0 + f1.len();
        let v1 = if self.stream_alias != 0 {
            StreamChunkView { stream_alias: self.stream_alias, ..v0 }
        } else {
            v0
        };
        assert(stream_chunk_fields(bytes, p0, end, v0) == stream_chunk_fields(bytes, p1, end, v1)) by {
            if self.stream_alias != 0 {
                lemma_varint_field_at(bytes, p0, 8, self.stream_alias);
                lemma_stream_chunk_advance(bytes, p0, end, v0, 8, p0 + varint_encoding(8).len(), v1, p1);
            } else {
                lemma_field_encodings(8, self.stream_alias, Seq::empty());
            }
        }
        let p2 = p1 + f2.len();
        let v2 = if self.direction != Direction::DIRECTION_UNKNOWN {
            StreamChunkView { direction: self.direction, ..v1 }
        } else {
            v1
        };
        assert(stream_chunk_fields(bytes, p1, end, v1) == stream_chunk_fields(bytes, p2, end, v2)) by {
            if self.direction != Direction::DIRECTION_UNKNOWN {
                lemma_varint_field_at(bytes, p1, 16, direction_number(self.direction));
                lemma_stream_chunk_advance(bytes, p1, end, v1, 16, p1 + varint_encoding(16).len(), v2, p2);
            } else {
                lemma_field_encodings(16, direction_number(self.direction), Seq::empty());
            }
        }
        let p3 = p2 + f3.len();
        let v3 = if self.data@.len() != 0 {
            StreamChunkView { data: self.data@, ..v2 }
        } else {
            v2
        };
        assert(stream_chunk_fields(bytes, p2, end, v2) == stream_chunk_fields(bytes, p3, end, v3)) by {
            if self.data@.len() != 0 {
                lemma_field_encodings(26, 0, self.data@);
                lemma_message_field_at(bytes, p2, 26, self.data@);
                lemma_stream_chunk_advance(bytes, p2, end, v2, 26, p2 + varint_encoding(26).len(), v3, p3);
            } else {
                lemma_field_encodings(26, 0, self.data@);
            }
        }
        assert(self.data@.len() == 0 ==> self.data@ =~= Seq::<u8>::empty());
        assert(stream_chunk_fields(bytes, p3, end, v3) == Ok::<StreamChunkView, DecodeError>(v3)) by {
            reveal(stream_chunk_fields);
        }
        assert(v3 == self@);
    }
}

// -------------------------------------------------------------------- ClientHello

/// A record of this kind with every field at its default.
pub open spec fn client_hello_default() -> ClientHelloView {
    ClientHelloView {
        protocol_version: 0,
        peer_id: Seq::empty(),
        client_name: Seq::empty(),
        boot_id: Seq::empty(),
        started_at_ns: 0,
    }
}

/// Reading the value of a field with tag `tag` at `p` into `v`.
pub open spec fn client_hello_step(bytes: Seq<u8>, p: int, end: int, v: ClientHelloView, tag: u32) -> Result<
    (ClientHelloView, int),
    DecodeError,
> {
    if tag == 8 {
        match varint32_at(bytes, p) {
            Ok((x, q)) => Ok((ClientHelloView { protocol_version: x, ..v }, q)),
            Err(e) => Err(e),
        }
    } else if tag == 18 {
        match bytes_at(bytes, p) {
            Ok((x, q)) => Ok((ClientHelloView { peer_id: x, ..v }, q)),
            Err(e) => Err(e),
        }
    } else if tag == 26 {
        match string_at(bytes, p) {
            Ok((x, q)) => Ok((ClientHelloView { client_name: x, ..v }, q)),
            Err(e) => Err(e),
        }
    } else if tag == 34 {
        match bytes_at(bytes, p) {
            Ok((x, q)) => Ok((ClientHelloView { boot_id: x, ..v }, q)),
            Err(e) => Err(e),
        }
    } else if tag == 40 {
        match varint64_at(bytes, p) {
            Ok((x, q)) => Ok((ClientHelloView { started_at_ns: x as i64, ..v }, q)),
            Err(e) => Err(e),
        }
    } else {
        match skip_at(bytes, p, end, tag) {
            Ok(q) => Ok((v, q)),
            Err(e) => Err(e),
        }
    }
}

/// Reading the fields from `pos` to `end` into `v`.
#[verifier::opaque]
pub open spec fn client_hello_fields(bytes: Seq<u8>, pos: int, end: int, v: ClientHelloView) -> Result<
    ClientHelloView,
    DecodeError,
>
    decreases left(bytes, pos),
{
    if pos == end {
        Ok(v)
    } else {
        match varint32_at(bytes, pos) {
            Err(e) => Err(e),
            Ok((tag, p)) => match client_hello_step(bytes, p, end, v, tag) {
                Err(e) => Err(e),
                Ok((v2, q)) => client_hello_fields(bytes, q, end, v2),
            },
        }
    }
}

/// One field read: reading from `p` is reading its tag and value, then
/// the rest.
pub proof fn lemma_client_hello_advance(
    bytes: Seq<u8>,
    p: int,
    end: int,
    v: ClientHelloView,
    tag: u32,
    p1: int,
    v2: ClientHelloView,
    q: int,
)
    requires
        p != end,
        varint32_at(bytes, p) == Ok::<(u32, int), DecodeError>((tag, p1)),
        client_hello_step(bytes, p1, end, v, tag) == Ok::<(ClientHelloView, int), DecodeError>((v2, q)),
    ensures
        client_hello_fields(bytes, p, end, v) == client_hello_fields(bytes, q, end, v2),
{
    reveal(client_hello_fields);
}

impl WireRead for ClientHello {
    open spec fn parse(bytes: Seq<u8>, start: int, end: int) -> Result<ClientHelloView, DecodeError> {
        client_hello_fields(bytes, start, end, client_hello_default())
    }

    open spec fn lengths_fit(&self) -> bool {
        self.peer_id@.len() < two_to_32() && encode_utf8(self.client_name@).len() < two_to_32() && self.boot_id@.len() < two_to_32()
    }

    proof fn lemma_short_lengths_fit(&self) {
        lemma_field_encodings(18, 0, self.peer_id@);
        lemma_field_encodings(26, 0, encode_utf8(self.client_name@));
        lemma_field_encodings(34, 0, self.boot_id@);
    }


    fn from_reader(bytes: &[u8], start: usize, end: usize) -> (r: Result<ClientHello, DecodeError>) {
        let mut msg = ClientHello { protocol_version: 0, peer_id: Vec::new(), client_name: String::new(), boot_id: Vec::new(), started_at_ns: 0 };
        let mut pos = start;
        while pos != end
            invariant
                client_hello_fields(bytes@, pos as int, end as int, msg@) == Self::parse(
                    bytes@,
                    start as int,
                    end as int,
                ),
            decreases left(bytes@, pos as int),
        {
            proof {
                reveal(client_hello_fields);
            }
            let (tag, p) = match read_varint32(bytes, pos) {
                Ok(x) => x,
                Err(e) => return Err(e),
            };
            if tag == 8 {
                match read_varint32(bytes, p) {
                    Ok((x, q)) => {
                        msg.protocol_version = x;
                        pos = q;
                    },
                    Err(e) => return Err(e),
                }
            } else if tag == 18 {
                match read_bytes(bytes, p) {
                    Ok((x, q)) => {
                        msg.peer_id = x;
                        pos = q;
                    },
                    Err(e) => return Err(e),
                }
            } else if tag == 26 {
                match read_string(bytes, p) {
                    Ok((x, q)) => {
                        msg.client_name = x;
                        pos = q;
                    },
                    Err(e) => return Err(e),
                }
            } else if tag == 34 {
                match read_bytes(bytes, p) {
                    Ok((x, q)) => {
                        msg.boot_id = x;
                        pos = q;
                    },
                    Err(e) => return Err(e),
                }
            } else if tag == 40 {
                match read_varint64(bytes, p) {
                    Ok((x, q)) => {
                        msg.started_at_ns = x as i64;
                        pos = q;
                    },
                    Err(e) => return Err(e),
                }
            } else {
                match skip_field(bytes, p, end, tag) {
                    Ok(q) => pos = q,
                    Err(e) => return Err(e),
                }
            }
        }
        proof {
            reveal(client_hello_fields);
        }
        Ok(msg)
    }

    proof fn lemma_read_back(&self, bytes: Seq<u8>, start: int) {
        let f1 = varint_field(8, self.protocol_version as u64);
        let f2 = bytes_field(18, self.peer_id@);
        let f3 = bytes_field(26, encode_utf8(self.client_name@));
        let f4 = bytes_field(34, self.boot_id@);
        let f5 = varint_field(40, self.started_at_ns as u64);
        let end = start + self.wire().len();
        lemma_segments5(bytes, start, f1, f2, f3, f4, f5);
        lemma_utf8_empty(self.client_name@);
        lemma_i64_bits(self.started_at_ns);
        let p0 = start;
        let v0 = client_hello_default();
        let p1 = p0 + f1.len();
        let v1 = if self.protocol_version != 0 {
            ClientHelloView { protocol_version: self.protocol_version, ..v0 }
        } else {
            v0
        };
        assert(client_hello_fields(bytes, p0, end, v0) == client_hello_fields(bytes, p1, end, v1)) by {
            if self.protocol_version != 0 {
                lemma_varint_field_at(bytes, p0, 8, self.protocol_version as u64);
                lemma_client_hello_advance(bytes, p0, end, v0, 8, p0 + varint_encoding(8).len(), v1, p1);
            } else {
                lemma_field_encodings(8, self.protocol_version as u64, Seq::empty());
            }
        }
        let p2 = p1 + f2.len();
        let v2 = if self.peer_id@.len() != 0 {
            ClientHelloView { peer_id: self.peer_id@, ..v1 }
        } else {
            v1
        };
        assert(client_hello_fields(bytes, p1, end, v1) == client_hello_fields(bytes, p2, end, v2)) by {
            if self.peer_id@.len() != 0 {
                lemma_field_encodings(18, 0, self.peer_id@);
                lemma_message_field_at(bytes, p1, 18, self.peer_id@);
                lemma_client_hello_advance(bytes, p1, end, v1, 18, p1 + varint_encoding(18).len(), v2, p2);
            } else {
                lemma_field_encodings(18, 0, self.peer_id@);
            }
        }
        let p3 = p2 + f3.len();
        let v3 = if self.client_name@.len() != 0 {
            ClientHelloView { client_name: self.client_name@, ..v2 }
        } else {
            v2
        };
        assert(client_hello_fields(bytes, p2, end, v2) == client_hello_fields(bytes, p3, end, v3)) by {
            if self.client_name@.len() != 0 {
                lemma_field_encodings(26, 0, encode_utf8(self.client_name@));
                lemma_message_field_at(bytes, p2, 26, encode_utf8(self.client_name@));
                lemma_client_hello_advance(bytes, p2, end, v2, 26, p2 + varint_encoding(26).len(), v3, p3);
            } else {
                lemma_field_encodings(26, 0, encode_utf8(self.client_name@));
            }
        }
        let p4 = p3 + f4.len();
        let v4 = if self.boot_id@.len() != 0 {
            ClientHelloView { boot_id: self.boot_id@, ..v3 }
        } else {
            v3
        };
        assert(client_hello_fields(bytes, p3, end, v3) == client_hello_fields(bytes, p4, end, v4)) by {
            if self.boot_id@.len() != 0 {
                lemma_field_encodings(34, 0, self.boot_id@);
                lemma_message_field_at(bytes, p3, 34, self.boot_id@);
                lemma_client_hello_advance(bytes, p3, end, v3, 34, p3 + varint_encoding(34).len(), v4, p4);
            } else {
                lemma_field_encodings(34, 0, self.boot_id@);
            }
        }
        let p5 = p4 + f5.len();
        let v5 = if self.started_at_ns != 0 {
            ClientHelloView { started_at_ns: self.started_at_ns, ..v4 }
        } else {
            v4
        };
        assert(client_hello_fields(bytes, p4, end, v4) == client_hello_fields(bytes, p5, end, v5)) by {
            if self.started_at_ns != 0 {
                lemma_varint_field_at(bytes, p4, 40, self.started_at_ns as u64);
                lemma_client_hello_advance(bytes, p4, end, v4, 40, p4 + varint_encoding(40).len(), v5, p5);
            } else {
                lemma_field_encodings(40, self.started_at_ns as u64, Seq::empty());
            }
        }
        assert(self.peer_id@.len() == 0 ==> self.peer_id@ =~= Seq::<u8>::empty());
        assert(self.client_name@.len() == 0 ==> self.client_name@ =~= Seq::<char>::empty());
        assert(self.boot_id@.len() == 0 ==> self.boot_id@ =~= Seq::<u8>::empty());
        assert(client_hello_fields(bytes, p5, end, v5) == Ok::<ClientHelloView, DecodeError>(v5)) by {
            reveal(client_hello_fields);
        }
        assert(v5 == self@);
    }
}

// ---------------------------------------------------------- SnapshotStart, SnapshotEnd

impl WireRead for SnapshotStart {
    /// The markers have no fields: reading one skips its whole window.
    open spec fn parse(bytes: Seq<u8>, start: int, end: int) -> Result<SnapshotStart, DecodeError> {
        Ok(SnapshotStart {})
    }

    open spec fn lengths_fit(&self) -> bool {
        true
    }

    proof fn lemma_short_lengths_fit(&self) {
    }


    fn from_reader(bytes: &[u8], start: usize, end: usize) -> (r: Result<SnapshotStart, DecodeError>) {
        Ok(SnapshotStart {})
    }

    proof fn lemma_read_back(&self, bytes: Seq<u8>, start: int) {
    }
}

impl WireRead for SnapshotEnd {
    /// The markers have no fields: reading one skips its whole window.
    open spec fn parse(bytes: Seq<u8>, start: int, end: int) -> Result<SnapshotEnd, DecodeError> {
        Ok(SnapshotEnd {})
    }

    open spec fn lengths_fit(&self) -> bool {
        true
    }

    proof fn lemma_short_lengths_fit(&self) {
    }


    fn from_reader(bytes: &[u8], start: usize, end: usize) -> (r: Result<SnapshotEnd, DecodeError>) {
        Ok(SnapshotEnd {})
    }

    proof fn lemma_read_back(&self, bytes: Seq<u8>, start: int) {
    }
}

// ---------------------------------------------------------------------- Envelope

/// The sub-message at `p`: a 32-bit varint length, then a window of that
/// many bytes read as an `M`; the position after it is the window's end. A
/// window that would end past the largest `usize` runs past the buffer,
/// which cannot be that long, and is refused as such.
pub open spec fn message_at<M: WireRead>(bytes: Seq<u8>, p: int) -> Result<(M::V, int), DecodeError> {
    match varint32_at(bytes, p) {
        Ok((len, p2)) => if p2 + len > usize::MAX {
            Err(DecodeError::UnexpectedEndOfBuffer)
        } else {
            match M::parse(bytes, p2, p2 + len) {
                Ok(m) => Ok((m, p2 + len)),
                Err(e) => Err(e),
            }
        },
        Err(e) => Err(e),
    }
}

/// Reads the sub-message at `pos`.
pub fn read_message<M: WireRead>(bytes: &[u8], pos: usize) -> (r: Result<(M, usize), DecodeError>)
    ensures
        match r {
            Ok((m, q)) => message_at::<M>(bytes@, pos as int) == Ok::<(M::V, int), DecodeError>((m@, q as int)),
            Err(e) => message_at::<M>(bytes@, pos as int) == Err::<(M::V, int), DecodeError>(e),
        },
{
    let (len, p) = match read_varint32(bytes, pos) {
        Ok(x) => x,
        Err(e) => return Err(e),
    };
    proof {
        lemma_varint_at_bounds(bytes@, pos as int);
    }
    if len as usize > usize::MAX - p {
        return Err(DecodeError::UnexpectedEndOfBuffer);
    }
    let end = p + len as usize;
    match M::from_reader(bytes, p, end) {
        Ok(m) => Ok((m, end)),
        Err(e) => Err(e),
    }
}

/// An envelope with every field at its default (no payload).
pub open spec fn envelope_default() -> EnvelopeView {
    EnvelopeView { seq: 0, observed_at_ns: 0, payload: PayloadView::none }
}

/// The envelope `v` with payload `p`.
pub open spec fn with_payload(v: EnvelopeView, p: PayloadView) -> EnvelopeView {
    EnvelopeView { payload: p, ..v }
}

/// Reading the value of a field with tag `tag` at `p` into `v`: the
/// numbers, or one of the payloads (the last one read wins).
pub open spec fn envelope_step(bytes: Seq<u8>, p: int, end: int, v: EnvelopeView, tag: u32) -> Result<
    (EnvelopeView, int),
    DecodeError,
> {
    if tag == 8 {
        match varint64_at(bytes, p) {
            Ok((x, q)) => Ok((EnvelopeView { seq: x, ..v }, q)),
            Err(e) => Err(e),
        }
    } else if tag == 16 {
        match varint64_at(bytes, p) {
            Ok((x, q)) => Ok((EnvelopeView { observed_at_ns: x as i64, ..v }, q)),
            Err(e) => Err(e),
        }
    } else if tag == 90 {
        match message_at::<SnapshotStart>(bytes, p) {
            Ok((m, q)) => Ok((with_payload(v, PayloadView::snapshot_start(m)), q)),
            Err(e) => Err(e),
        }
    } else if tag == 98 {
        match message_at::<SnapshotEnd>(bytes, p) {
            Ok((m, q)) => Ok((with_payload(v, PayloadView::snapshot_end(m)), q)),
            Err(e) => Err(e),
        }
    } else if tag == 162 {
        match message_at::<StringDef>(bytes, p) {
            Ok((m, q)) => Ok((with_payload(v, PayloadView::string_def(m)), q)),
            Err(e) => Err(e),
        }
    } else if tag == 170 {
        match message_at::<PeerUpsert>(bytes, p) {
            Ok((m, q)) => Ok((with_payload(v, PayloadView::peer_upsert(m)), q)),
            Err(e) => Err(e),
        }
    } else if tag == 178 {
        match message_at::<ConnectionUpsert>(bytes, p) {
            Ok((m, q)) => Ok((with_payload(v, PayloadView::connection_upsert(m)), q)),
            Err(e) => Err(e),
        }
    } else if tag == 186 {
        match message_at::<ConnectionClosed>(bytes, p) {
            Ok((m, q)) => Ok((with_payload(v, PayloadView::connection_closed(m)), q)),
            Err(e) => Err(e),
        }
    } else if tag == 194 {
        match message_at::<StreamUpsert>(bytes, p) {
            Ok((m, q)) => Ok((with_payload(v, PayloadView::stream_upsert(m)), q)),
            Err(e) => Err(e),
        }
    } else if tag == 202 {
        match message_at::<StreamClosed>(bytes, p) {
            Ok((m, q)) => Ok((with_payload(v, PayloadView::stream_closed(m)), q)),
            Err(e) => Err(e),
        }
    } else if tag == 210 {
        match message_at::<StreamChunk>(bytes, p) {
            Ok((m, q)) => Ok((with_payload(v, PayloadView::stream_chunk(m)), q)),
            Err(e) => Err(e),
        }
    } else {
        match skip_at(bytes, p, end, tag) {
            Ok(q) => Ok((v, q)),
            Err(e) => Err(e),
        }
    }
}

/// Reading the fields from `pos` to `end` into `v`.
#[verifier::opaque]
pub open spec fn envelope_fields(bytes: Seq<u8>, pos: int, end: int, v: EnvelopeView) -> Result<
    EnvelopeView,
    DecodeError,
>
    decreases left(bytes, pos),
{
    if pos == end {
        Ok(v)
    } else {
        match varint32_at(bytes, pos) {
            Err(e) => Err(e),
            Ok((tag, p)) => match envelope_step(bytes, p, end, v, tag) {
                Err(e) => Err(e),
                Ok((v2, q)) => envelope_fields(bytes, q, end, v2),
            },
        }
    }
}

/// One field read: reading from `p` is reading its tag and value, then
/// the rest.
pub proof fn lemma_envelope_advance(
    bytes: Seq<u8>,
    p: int,
    end: int,
    v: EnvelopeView,
    tag: u32,
    p1: int,
    v2: EnvelopeView,
    q: int,
)
    requires
        p != end,
        varint32_at(bytes, p) == Ok::<(u32, int), DecodeError>((tag, p1)),
        envelope_step(bytes, p1, end, v, tag) == Ok::<(EnvelopeView, int), DecodeError>((v2, q)),
    ensures
        envelope_fields(bytes, p, end, v) == envelope_fields(bytes, q, end, v2),
{
    reveal(envelope_fields);
}

/// A payload's encoding read back at `p`: its tag, then the record.
proof fn lemma_payload_at<M: WireRead>(bytes: Seq<u8>, p: int, key: u64, m: M)
    requires
        0 <= p,
        key < 16384,
        p + message_field(key as nat, m.wire()).len() <= bytes.len(),
        bytes.len() <= usize::MAX,
        bytes.subrange(p, p + message_field(key as nat, m.wire()).len()) == message_field(key as nat, m.wire()),
        nested_fits(m),
    ensures
        varint32_at(bytes, p) == Ok::<(u32, int), DecodeError>((key as u32, p + varint_encoding(key as nat).len())),
        message_at::<M>(bytes, p + varint_encoding(key as nat).len()) == Ok::<(M::V, int), DecodeError>(
            (m@, p + message_field(key as nat, m.wire()).len()),
        ),
{
    let w = m.wire();
    lemma_field_encodings(key as nat, 0, w);
    lemma_message_field_at(bytes, p, key, w);
    let k = varint_encoding(key as nat).len() as int;
    let l = varint_encoding(w.len()).len() as int;
    m.lemma_read_back(bytes, p + k + l);
}

/// A nested record `m` fits when its own encoding is shorter than 2^32
/// (its length is read as a 32-bit number) and its lengths fit.
pub open spec fn nested_fits<M: WireRead>(m: M) -> bool {
    m.wire().len() < two_to_32() && m.lengths_fit()
}

/// An envelope's payload fits: see [`nested_fits`].
pub open spec fn payload_lengths_fit(p: OneOfpayload) -> bool {
    match p {
        OneOfpayload::snapshot_start(m) => nested_fits(m),
        OneOfpayload::snapshot_end(m) => nested_fits(m),
        OneOfpayload::string_def(m) => nested_fits(m),
        OneOfpayload::peer_upsert(m) => nested_fits(m),
        OneOfpayload::connection_upsert(m) => nested_fits(m),
        OneOfpayload::connection_closed(m) => nested_fits(m),
        OneOfpayload::stream_upsert(m) => nested_fits(m),
        OneOfpayload::stream_closed(m) => nested_fits(m),
        OneOfpayload::stream_chunk(m) => nested_fits(m),
        OneOfpayload::none => true,
    }
}

/// A nested record written as field `key` of an encoding shorter than
/// 2^32 fits.
proof fn lemma_nested_lengths_fit<M: WireRead>(key: u64, m: M)
    requires
        message_field(key as nat, m.wire()).len() < two_to_32(),
    ensures
        nested_fits(m),
{
    lemma_field_encodings(key as nat, 0, m.wire());
    m.lemma_short_lengths_fit();
}

impl WireRead for Envelope {
    open spec fn parse(bytes: Seq<u8>, start: int, end: int) -> Result<EnvelopeView, DecodeError> {
        envelope_fields(bytes, start, end, envelope_default())
    }

    open spec fn lengths_fit(&self) -> bool {
        payload_lengths_fit(self.payload)
    }

    proof fn lemma_short_lengths_fit(&self) {
        match self.payload {
            OneOfpayload::snapshot_start(m) => lemma_nested_lengths_fit(90, m),
            OneOfpayload::snapshot_end(m) => lemma_nested_lengths_fit(98, m),
            OneOfpayload::string_def(m) => lemma_nested_lengths_fit(162, m),
            OneOfpayload::peer_upsert(m) => lemma_nested_lengths_fit(170, m),
            OneOfpayload::connection_upsert(m) => lemma_nested_lengths_fit(178, m),
            OneOfpayload::connection_closed(m) => lemma_nested_lengths_fit(186, m),
            OneOfpayload::stream_upsert(m) => lemma_nested_lengths_fit(194, m),
            OneOfpayload::stream_closed(m) => lemma_nested_lengths_fit(202, m),
            OneOfpayload::stream_chunk(m) => lemma_nested_lengths_fit(210, m),
            OneOfpayload::none => {},
        }
    }


    fn from_reader(bytes: &[u8], start: usize, end: usize) -> (r: Result<Envelope, DecodeError>) {
        let mut msg = Envelope { seq: 0, observed_at_ns: 0, payload: OneOfpayload::none };
        let mut pos = start;
        while pos != end
            invariant
                envelope_fields(bytes@, pos as int, end as int, msg@) == Self::parse(
                    bytes@,
                    start as int,
                    end as int,
                ),
            decreases left(bytes@, pos as int),
        {
            proof {
                reveal(envelope_fields);
            }
            let (tag, p) = match read_varint32(bytes, pos) {
                Ok(x) => x,
                Err(e) => return Err(e),
            };
            if tag == 8 {
                match read_varint64(bytes, p) {
                    Ok((x, q)) => {
                        msg.seq = x;
                        pos = q;
                    },
                    Err(e) => return Err(e),
                }
            } else if tag == 16 {
                match read_varint64(bytes, p) {
                    Ok((x, q)) => {
                        msg.observed_at_ns = x as i64;
                        pos = q;
                    },
                    Err(e) => return Err(e),
                }
            } else if tag == 90 {
                match read_message::<SnapshotStart>(bytes, p) {
                    Ok((m, q)) => {
                        msg.payload = OneOfpayload::snapshot_start(m);
                        pos = q;
                    },
                    Err(e) => return Err(e),
                }
            } else if tag == 98 {
                match read_message::<SnapshotEnd>(bytes, p) {
                    Ok((m, q)) => {
                        msg.payload = OneOfpayload::snapshot_end(m);
                        pos = q;
                    },
                    Err(e) => return Err(e),
                }
            } else if tag == 162 {
                match read_message::<StringDef>(bytes, p) {
                    Ok((m, q)) => {
                        msg.payload = OneOfpayload::string_def(m);
                        pos = q;
                    },
                    Err(e) => return Err(e),
                }
            } else if tag == 170 {
                match read_message::<PeerUpsert>(bytes, p) {
                    Ok((m, q)) => {
                        msg.payload = OneOfpayload::peer_upsert(m);
                        pos = q;
                    },
                    Err(e) => return Err(e),
                }
            } else if tag == 178 {
                match read_message::<ConnectionUpsert>(bytes, p) {
                    Ok((m, q)) => {
                        msg.payload = OneOfpayload::connection_upsert(m);
                        pos = q;
                    },
                    Err(e) => return Err(e),
                }
            } else if tag == 186 {
                match read_message::<ConnectionClosed>(bytes, p) {
                    Ok((m, q)) => {
                        msg.payload = OneOfpayload::connection_closed(m);
                        pos = q;
                    },
                    Err(e) => return Err(e),
                }
            } else if tag == 194 {
                match read_message::<StreamUpsert>(bytes, p) {
                    Ok((m, q)) => {
                        msg.payload = OneOfpayload::stream_upsert(m);
                        pos = q;
                    },
                    Err(e) => return Err(e),
                }
            } else if tag == 202 {
                match read_message::<StreamClosed>(bytes, p) {
                    Ok((m, q)) => {
                        msg.payload = OneOfpayload::stream_closed(m);
                        pos = q;
                    },
                    Err(e) => return Err(e),
                }
            } else if tag == 210 {
                match read_message::<StreamChunk>(bytes, p) {
                    Ok((m, q)) => {
                        msg.payload = OneOfpayload::stream_chunk(m);
                        pos = q;
                    },
                    Err(e) => return Err(e),
                }
            } else {
                match skip_field(bytes, p, end, tag) {
                    Ok(q) => pos = q,
                    Err(e) => return Err(e),
                }
            }
        }
        proof {
            reveal(envelope_fields);
        }
        Ok(msg)
    }

    proof fn lemma_read_back(&self, bytes: Seq<u8>, start: int) {
        let f1 = varint_field(8, self.seq);
        let f2 = varint_field(16, self.observed_at_ns as u64);
        let f3 = payload_wire(self.payload);
        let end = start + self.wire().len();
        lemma_split_at(bytes, start, f1 + f2, f3);
        lemma_split_at(bytes, start, f1, f2);
        lemma_i64_bits(self.observed_at_ns);
        let p0 = start;
        let v0 = envelope_default();
        let p1 = p0 + f1.len();
        let v1 = if self.seq != 0 {
            EnvelopeView { seq: self.seq, ..v0 }
        } else {
            v0
        };
        assert(envelope_fields(bytes, p0, end, v0) == envelope_fields(bytes, p1, end, v1)) by {
            if self.seq != 0 {
                lemma_varint_field_at(bytes, p0, 8, self.seq);
                lemma_envelope_advance(bytes, p0, end, v0, 8, p0 + varint_encoding(8).len(), v1, p1);
            } else {
                lemma_field_encodings(8, self.seq, Seq::empty());
            }
        }
        let p2 = p1 + f2.len();
        let v2 = if self.observed_at_ns != 0 {
            EnvelopeView { observed_at_ns: self.observed_at_ns, ..v1 }
        } else {
            v1
        };
        assert(envelope_fields(bytes, p1, end, v1) == envelope_fields(bytes, p2, end, v2)) by {
            if self.observed_at_ns != 0 {
                lemma_varint_field_at(bytes, p1, 16, self.observed_at_ns as u64);
                lemma_envelope_advance(bytes, p1, end, v1, 16, p1 + varint_encoding(16).len(), v2, p2);
            } else {
                lemma_field_encodings(16, self.observed_at_ns as u64, Seq::empty());
            }
        }
        let p3 = p2 + f3.len();
        let v3 = with_payload(v2, self.payload@);
        assert(envelope_fields(bytes, p2, end, v2) == envelope_fields(bytes, p3, end, v3)) by {
            match self.payload {
                OneOfpayload::snapshot_start(m) => {
                    lemma_payload_at(bytes, p2, 90, m);
                    lemma_envelope_advance(bytes, p2, end, v2, 90, p2 + varint_encoding(90).len(), v3, p3);
                },
                OneOfpayload::snapshot_end(m) => {
                    lemma_payload_at(bytes, p2, 98, m);
                    lemma_envelope_advance(bytes, p2, end, v2, 98, p2 + varint_encoding(98).len(), v3, p3);
                },
                OneOfpayload::string_def(m) => {
                    lemma_payload_at(bytes, p2, 162, m);
                    lemma_envelope_advance(bytes, p2, end, v2, 162, p2 + varint_encoding(162).len(), v3, p3);
                },
                OneOfpayload::peer_upsert(m) => {
                    lemma_payload_at(bytes, p2, 170, m);
                    lemma_envelope_advance(bytes, p2, end, v2, 170, p2 + varint_encoding(170).len(), v3, p3);
                },
                OneOfpayload::connection_upsert(m) => {
                    lemma_payload_at(bytes, p2, 178, m);
                    lemma_envelope_advance(bytes, p2, end, v2, 178, p2 + varint_encoding(178).len(), v3, p3);
                },
                OneOfpayload::connection_closed(m) => {
                    lemma_payload_at(bytes, p2, 186, m);
                    lemma_envelope_advance(bytes, p2, end, v2, 186, p2 + varint_encoding(186).len(), v3, p3);
                },
                OneOfpayload::stream_upsert(m) => {
                    lemma_payload_at(bytes, p2, 194, m);
                    lemma_envelope_advance(bytes, p2, end, v2, 194, p2 + varint_encoding(194).len(), v3, p3);
                },
                OneOfpayload::stream_closed(m) => {
                    lemma_payload_at(bytes, p2, 202, m);
                    lemma_envelope_advance(bytes, p2, end, v2, 202, p2 + varint_encoding(202).len(), v3, p3);
                },
                OneOfpayload::stream_chunk(m) => {
                    lemma_payload_at(bytes, p2, 210, m);
                    lemma_envelope_advance(bytes, p2, end, v2, 210, p2 + varint_encoding(210).len(), v3, p3);
                },
                OneOfpayload::none => {
                    assert(v3 == v2);
                },
            }
        }
        assert(envelope_fields(bytes, p3, end, v3) == Ok::<EnvelopeView, DecodeError>(v3)) by {
            reveal(envelope_fields);
        }
        assert(v3 == self@);
    }
}

} // verus!
