//! Reading the protocol-buffer encoding of the records back, as
//! quick-protobuf's `BytesReader` reads it: a reader is a window
//! `[start, end)` on a buffer, fields are read one after the other until the
//! window is used up, and a field's bytes are taken from the whole buffer.
use vstd::prelude::*;
use vstd::slice::{slice_subrange, slice_to_vec};
use vstd::utf8::{decode_utf8, valid_utf8};

use crate::proto::{bytes_field, message_field, varint_field, WireMessage};
use crate::stream::string_from_utf8;
use crate::varint::{lemma_varint_roundtrip, lenient_varint, varint_encoding};
use crate::wire::{frame_bytes, frame_header_status, lemma_frame_header_roundtrip, HeaderStatus, MAX_MESSAGE_SIZE};

verus! {

/// Why a record could not be read.
#[derive(Debug, PartialEq, Eq, Clone, Copy, Structural)]
pub enum DecodeError {
    /// A read ran past the end of the buffer.
    UnexpectedEndOfBuffer,
    /// A varint ran past ten bytes, or a skipped field past its message.
    Varint,
    /// A string field was not UTF-8.
    Utf8,
    /// A group field (wire types 3 and 4).
    Deprecated,
    /// An unknown wire type (6 or 7).
    UnknownWireType(u8),
}

/// 2^32, the modulus of `u32` arithmetic.
pub open spec fn two_to_32() -> nat {
    0x1_0000_0000nat
}

/// The varint at `pos` of `bytes`: its value (bits beyond 64 dropped) and
/// the position after it.
pub open spec fn varint64_at(bytes: Seq<u8>, pos: int) -> Result<(u64, int), DecodeError> {
    if pos < 0 || pos >= bytes.len() {
        Err(DecodeError::UnexpectedEndOfBuffer)
    } else {
        match lenient_varint(bytes.skip(pos)) {
            None => Err(DecodeError::UnexpectedEndOfBuffer),
            Some(Err(())) => Err(DecodeError::Varint),
            Some(Ok((v, n))) => Ok((v, pos + n)),
        }
    }
}

/// The varint at `pos` read as a 32-bit number (bits beyond 32 dropped).
pub open spec fn varint32_at(bytes: Seq<u8>, pos: int) -> Result<(u32, int), DecodeError> {
    match varint64_at(bytes, pos) {
        Ok((v, q)) => Ok(((v as nat % two_to_32()) as u32, q)),
        Err(e) => Err(e),
    }
}

/// The length-delimited bytes at `pos` (a 32-bit varint length, then that
/// many bytes of the buffer) and the position after them.
pub open spec fn bytes_at(bytes: Seq<u8>, pos: int) -> Result<(Seq<u8>, int), DecodeError> {
    match varint32_at(bytes, pos) {
        Ok((len, p)) => if p + len <= bytes.len() {
            Ok((bytes.subrange(p, p + len), p + len))
        } else {
            Err(DecodeError::UnexpectedEndOfBuffer)
        },
        Err(e) => Err(e),
    }
}

/// The length-delimited string at `pos`, which must be UTF-8.
pub open spec fn string_at(bytes: Seq<u8>, pos: int) -> Result<(Seq<char>, int), DecodeError> {
    match bytes_at(bytes, pos) {
        Ok((b, q)) => if valid_utf8(b) {
            Ok((decode_utf8(b), q))
        } else {
            Err(DecodeError::Utf8)
        },
        Err(e) => Err(e),
    }
}

/// Skipping `n` bytes at `pos` in a message that ends at `end`.
pub open spec fn skip_within(pos: int, end: int, n: int) -> Result<int, DecodeError> {
    if pos <= end && n <= end - pos {
        Ok(pos + n)
    } else {
        Err(DecodeError::Varint)
    }
}

/// Skipping the value of a field with an unknown tag at `pos`, in a message
/// that ends at `end`: its wire type (the tag's low three bits) says how.
pub open spec fn skip_at(bytes: Seq<u8>, pos: int, end: int, tag: u32) -> Result<int, DecodeError> {
    let wire_type = tag % 8;
    if wire_type == 0 {
        match varint64_at(bytes, pos) {
            Ok((_, q)) => Ok(q),
            Err(e) => Err(e),
        }
    } else if wire_type == 1 {
        skip_within(pos, end, 8)
    } else if wire_type == 2 {
        match varint64_at(bytes, pos) {
            Ok((len, q)) => skip_within(q, end, len as int),
            Err(e) => Err(e),
        }
    } else if wire_type == 5 {
        skip_within(pos, end, 4)
    } else if wire_type == 3 || wire_type == 4 {
        Err(DecodeError::Deprecated)
    } else {
        Err(DecodeError::UnknownWireType(wire_type as u8))
    }
}

/// How many bytes of the buffer are left from `pos`: what every step of a
/// reader uses up.
pub open spec fn left(bytes: Seq<u8>, pos: int) -> nat {
    if 0 <= pos < bytes.len() {
        (bytes.len() - pos) as nat
    } else {
        0
    }
}

/// An exec read `r` (a value and a position) is the spec read `s`.
pub open spec fn read_is<T>(r: Result<(T, usize), DecodeError>, s: Result<(T, int), DecodeError>) -> bool {
    match r {
        Ok((v, q)) => s == Ok::<(T, int), DecodeError>((v, q as int)),
        Err(e) => s == Err::<(T, int), DecodeError>(e),
    }
}

/// `quick_protobuf::BytesReader::read_varint64`, started at `pos`: the
/// value of the varint there and how many bytes of the buffer are left
/// after it. It reads at most ten bytes and drops bits beyond 64; running
/// out of bytes is `UnexpectedEndOfBuffer`, ten bytes without an end
/// `Varint`.
#[verifier::external_body]
fn pb_read_varint64(bytes: &[u8], pos: usize) -> (r: Result<(u64, usize), DecodeError>)
    requires
        pos <= bytes.len(),
    ensures
        match lenient_varint(bytes@.skip(pos as int)) {
            None => r == Err::<(u64, usize), DecodeError>(DecodeError::UnexpectedEndOfBuffer),
            Some(Err(())) => r == Err::<(u64, usize), DecodeError>(DecodeError::Varint),
            Some(Ok((v, n))) => r == Ok::<(u64, usize), DecodeError>((v, (bytes.len() - pos - n) as usize)),
        },
{
    let rest = &bytes[pos..];
    let mut reader = quick_protobuf::BytesReader::from_bytes(rest);
    match reader.read_varint64(rest) {
        Ok(v) => Ok((v, reader.len())),
        Err(quick_protobuf::errors::Error::Varint) => Err(DecodeError::Varint),
        Err(_) => Err(DecodeError::UnexpectedEndOfBuffer),
    }
}

/// `quick_protobuf::BytesReader::read_varint32`, started at `pos`: as
/// [`pb_read_varint64`], with the value cut to its low 32 bits.
#[verifier::external_body]
fn pb_read_varint32(bytes: &[u8], pos: usize) -> (r: Result<(u32, usize), DecodeError>)
    requires
        pos <= bytes.len(),
    ensures
        match lenient_varint(bytes@.skip(pos as int)) {
            None => r == Err::<(u32, usize), DecodeError>(DecodeError::UnexpectedEndOfBuffer),
            Some(Err(())) => r == Err::<(u32, usize), DecodeError>(DecodeError::Varint),
            Some(Ok((v, n))) => r == Ok::<(u32, usize), DecodeError>(
                ((v as nat % two_to_32()) as u32, (bytes.len() - pos - n) as usize),
            ),
        },
{
    let rest = &bytes[pos..];
    let mut reader = quick_protobuf::BytesReader::from_bytes(rest);
    match reader.read_varint32(rest) {
        Ok(v) => Ok((v, reader.len())),
        Err(quick_protobuf::errors::Error::Varint) => Err(DecodeError::Varint),
        Err(_) => Err(DecodeError::UnexpectedEndOfBuffer),
    }
}

/// A varint read moves forward, and stays within the buffer.
pub proof fn lemma_varint_at_bounds(bytes: Seq<u8>, pos: int)
    ensures
        varint64_at(bytes, pos) matches Ok((_, q)) ==> pos < q <= bytes.len(),
        varint32_at(bytes, pos) matches Ok((_, q)) ==> pos < q <= bytes.len(),
{
    if 0 <= pos < bytes.len() {
        lemma_lenient_varint_len(bytes.skip(pos));
    }
}

proof fn lemma_lenient_varint_len(s: Seq<u8>)
    ensures
        lenient_varint(s) matches Some(Ok((_, n))) ==> 1 <= n <= s.len(),
{
    crate::varint::lemma_first_last_byte_facts(s);
}

/// Reads the varint at `pos`.
pub fn read_varint64(bytes: &[u8], pos: usize) -> (r: Result<(u64, usize), DecodeError>)
    ensures
        read_is(r, varint64_at(bytes@, pos as int)),
{
    if pos >= bytes.len() {
        return Err(DecodeError::UnexpectedEndOfBuffer);
    }
    proof {
        lemma_lenient_varint_len(bytes@.skip(pos as int));
    }
    match pb_read_varint64(bytes, pos) {
        Ok((v, rest)) => Ok((v, bytes.len() - rest)),
        Err(e) => Err(e),
    }
}

/// Reads the varint at `pos` as a 32-bit number.
pub fn read_varint32(bytes: &[u8], pos: usize) -> (r: Result<(u32, usize), DecodeError>)
    ensures
        read_is(r, varint32_at(bytes@, pos as int)),
{
    if pos >= bytes.len() {
        return Err(DecodeError::UnexpectedEndOfBuffer);
    }
    proof {
        lemma_lenient_varint_len(bytes@.skip(pos as int));
    }
    match pb_read_varint32(bytes, pos) {
        Ok((v, rest)) => Ok((v, bytes.len() - rest)),
        Err(e) => Err(e),
    }
}

/// Reads the length-delimited bytes at `pos`.
pub fn read_bytes(bytes: &[u8], pos: usize) -> (r: Result<(Vec<u8>, usize), DecodeError>)
    ensures
        match r {
            Ok((b, q)) => bytes_at(bytes@, pos as int) == Ok::<(Seq<u8>, int), DecodeError>((b@, q as int)),
            Err(e) => bytes_at(bytes@, pos as int) == Err::<(Seq<u8>, int), DecodeError>(e),
        },
{
    let (len, p) = match read_varint32(bytes, pos) {
        Ok(x) => x,
        Err(e) => return Err(e),
    };
    if p > bytes.len() || (len as usize) > bytes.len() - p {
        return Err(DecodeError::UnexpectedEndOfBuffer);
    }
    let q = p + len as usize;
    let b = slice_to_vec(slice_subrange(bytes, p, q));
    Ok((b, q))
}

/// Reads the length-delimited string at `pos`.
pub fn read_string(bytes: &[u8], pos: usize) -> (r: Result<(String, usize), DecodeError>)
    ensures
        match r {
            Ok((s, q)) => string_at(bytes@, pos as int) == Ok::<(Seq<char>, int), DecodeError>((s@, q as int)),
            Err(e) => string_at(bytes@, pos as int) == Err::<(Seq<char>, int), DecodeError>(e),
        },
{
    let (b, q) = match read_bytes(bytes, pos) {
        Ok(x) => x,
        Err(e) => return Err(e),
    };
    match string_from_utf8(b) {
        Some(s) => Ok((s, q)),
        None => Err(DecodeError::Utf8),
    }
}

/// Skips the value of a field with an unknown tag at `pos`, in a message
/// that ends at `end`; returns the position after it.
pub fn skip_field(bytes: &[u8], pos: usize, end: usize, tag: u32) -> (r: Result<usize, DecodeError>)
    ensures
        match r {
            Ok(q) => skip_at(bytes@, pos as int, end as int, tag) == Ok::<int, DecodeError>(q as int),
            Err(e) => skip_at(bytes@, pos as int, end as int, tag) == Err::<int, DecodeError>(e),
        },
{
    let wire_type = tag % 8;
    if wire_type == 0 {
        match read_varint64(bytes, pos) {
            Ok((_, q)) => Ok(q),
            Err(e) => Err(e),
        }
    } else if wire_type == 1 {
        skip_n(pos, end, 8)
    } else if wire_type == 2 {
        match read_varint64(bytes, pos) {
            Ok((len, q)) => skip_n(q, end, len),
            Err(e) => Err(e),
        }
    } else if wire_type == 5 {
        skip_n(pos, end, 4)
    } else if wire_type == 3 || wire_type == 4 {
        Err(DecodeError::Deprecated)
    } else {
        Err(DecodeError::UnknownWireType(wire_type as u8))
    }
}

fn skip_n(pos: usize, end: usize, n: u64) -> (r: Result<usize, DecodeError>)
    ensures
        match r {
            Ok(q) => skip_within(pos as int, end as int, n as int) == Ok::<int, DecodeError>(q as int),
            Err(e) => skip_within(pos as int, end as int, n as int) == Err::<int, DecodeError>(e),
        },
{
    if pos <= end && n <= (end - pos) as u64 {
        Ok(pos + n as usize)
    } else {
        Err(DecodeError::Varint)
    }
}

/// A record that can be read back from its encoding.
pub trait WireRead: Sized + View + WireMessage {
    /// What reading the window `[start, end)` of `bytes` as this record
    /// gives: its fields, each read as its tag says, the last of a repeated
    /// tag winning, unknown tags skipped, absent fields at their defaults.
    spec fn parse(bytes: Seq<u8>, start: int, end: int) -> Result<Self::V, DecodeError>;

    /// Reads the window `[start, end)` of `bytes` as this record.
    fn from_reader(bytes: &[u8], start: usize, end: usize) -> (r: Result<Self, DecodeError>)
        ensures
            match r {
                Ok(m) => Self::parse(bytes@, start as int, end as int) == Ok::<Self::V, DecodeError>(m@),
                Err(e) => Self::parse(bytes@, start as int, end as int) == Err::<Self::V, DecodeError>(e),
            },
    ;

    /// No length in the record's encoding reaches 2^32: each
    /// length-delimited field (a byte string, a string's UTF-8 bytes, a
    /// nested record) is shorter. Lengths are read as 32-bit numbers.
    spec fn lengths_fit(&self) -> bool;

    /// A record whose whole encoding is shorter than 2^32 has every length
    /// below it.
    proof fn lemma_short_lengths_fit(&self)
        requires
            self.wire().len() < two_to_32(),
        ensures
            self.lengths_fit(),
    ;

    /// A record's encoding, wherever it stands in a buffer, reads back as
    /// the record, provided no length in it reaches 2^32.
    proof fn lemma_read_back(&self, bytes: Seq<u8>, start: int)
        requires
            0 <= start,
            start + self.wire().len() <= bytes.len(),
            bytes.len() <= usize::MAX,
            bytes.subrange(start, start + self.wire().len()) == self.wire(),
            self.lengths_fit(),
        ensures
            Self::parse(bytes, start, start + self.wire().len()) == Ok::<Self::V, DecodeError>(self@),
    ;
}

/// Reads a whole buffer as one record.
pub fn decode_message<M: WireRead>(data: &[u8]) -> (r: Result<M, DecodeError>)
    ensures
        match r {
            Ok(m) => M::parse(data@, 0, data@.len() as int) == Ok::<M::V, DecodeError>(m@),
            Err(e) => M::parse(data@, 0, data@.len() as int) == Err::<M::V, DecodeError>(e),
        },
{
    M::from_reader(data, 0, data.len())
}

/// What reading gives back of writing: a record's encoding reads back as
/// the record (when no length in it reaches 2^32).
pub proof fn lemma_decode_roundtrip<M: WireRead>(m: &M)
    requires
        m.lengths_fit(),
        m.wire().len() <= usize::MAX,
    ensures
        M::parse(m.wire(), 0, m.wire().len() as int) == Ok::<M::V, DecodeError>(m@),
{
    assert(m.wire().subrange(0, m.wire().len() as int) =~= m.wire());
    m.lemma_read_back(m.wire(), 0);
}

/// What a reader of the ingest connection gives back of a frame written by
/// [`crate::wire::encode_typed`]: the header, read byte by byte, wants more
/// until it is whole and then announces the body's length, and the body
/// that follows reads back as the record.
pub proof fn lemma_frame_roundtrip<M: WireRead>(t: u8, m: &M)
    requires
        m.wire().len() <= MAX_MESSAGE_SIZE,
    ensures
        ({
            let body = m.wire();
            let f = frame_bytes(t, body);
            let h: int = 1int + varint_encoding(body.len()).len();
            &&& frame_header_status(f.take(h), t) == HeaderStatus::Complete {
                header_len: h as nat,
                body_len: body.len() as u64,
            }
            &&& forall|k: int| 0 <= k < h ==> frame_header_status(#[trigger] f.take(k), t) is Incomplete
            &&& f.skip(h) == body
            &&& M::parse(f.skip(h), 0, body.len() as int) == Ok::<M::V, DecodeError>(m@)
        }),
{
    lemma_frame_header_roundtrip(t, m.wire());
    assert((4u64 << 20u64) == 0x40_0000u64) by (bit_vector);
    m.lemma_short_lengths_fit();
    lemma_decode_roundtrip(m);
}

/// The varint encoding of `n` read back at `pos`, whatever surrounds it.
pub proof fn lemma_varint_at(bytes: Seq<u8>, pos: int, n: u64)
    requires
        0 <= pos,
        pos + varint_encoding(n as nat).len() <= bytes.len(),
        bytes.subrange(pos, pos + varint_encoding(n as nat).len()) == varint_encoding(n as nat),
    ensures
        varint64_at(bytes, pos) == Ok::<(u64, int), DecodeError>((n, pos + varint_encoding(n as nat).len())),
        varint32_at(bytes, pos) == Ok::<(u32, int), DecodeError>(
            ((n as nat % two_to_32()) as u32, pos + varint_encoding(n as nat).len()),
        ),
{
    let e = varint_encoding(n as nat);
    let rest = bytes.skip(pos + e.len());
    assert(bytes.skip(pos) =~= e + rest);
    lemma_varint_roundtrip(n, rest);
    crate::varint::lemma_varint_encoding_len(n as nat);
}

/// A varint field read back at `pos`: its tag, then its value.
pub proof fn lemma_varint_field_at(bytes: Seq<u8>, pos: int, key: u64, v: u64)
    requires
        v != 0,
        key < two_to_32(),
        0 <= pos,
        pos + varint_field(key as nat, v).len() <= bytes.len(),
        bytes.subrange(pos, pos + varint_field(key as nat, v).len()) == varint_field(key as nat, v),
    ensures
        ({
            let k = varint_encoding(key as nat).len() as int;
            let q = pos + varint_field(key as nat, v).len();
            &&& varint32_at(bytes, pos) == Ok::<(u32, int), DecodeError>((key as u32, pos + k))
            &&& varint64_at(bytes, pos + k) == Ok::<(u64, int), DecodeError>((v, q))
            &&& varint32_at(bytes, pos + k) == Ok::<(u32, int), DecodeError>(((v as nat % two_to_32()) as u32, q))
            &&& q > pos
        }),
{
    reveal(varint_field);
    let ek = varint_encoding(key as nat);
    let ev = varint_encoding(v as nat);
    let k = ek.len() as int;
    assert(varint_field(key as nat, v) == ek + ev);
    assert(bytes.subrange(pos, pos + k) =~= ek) by {
        assert forall|i: int| 0 <= i < k implies bytes.subrange(pos, pos + k)[i] == ek[i] by {
            assert(bytes.subrange(pos, pos + k)[i] == bytes.subrange(pos, pos + (ek + ev).len())[i]);
        }
    }
    assert(bytes.subrange(pos + k, pos + k + ev.len()) =~= ev) by {
        assert forall|i: int| 0 <= i < ev.len() implies bytes.subrange(pos + k, pos + k + ev.len())[i] == ev[i] by {
            assert(bytes.subrange(pos + k, pos + k + ev.len())[i] == bytes.subrange(pos, pos + (ek + ev).len())[k + i]);
        }
    }
    lemma_varint_at(bytes, pos, key);
    lemma_varint_at(bytes, pos + k, v);
}

/// A length-delimited field read back at `pos`: its tag, its length, and
/// the body after them.
pub proof fn lemma_message_field_at(bytes: Seq<u8>, pos: int, key: u64, body: Seq<u8>)
    requires
        key < two_to_32(),
        body.len() < two_to_32(),
        0 <= pos,
        pos + message_field(key as nat, body).len() <= bytes.len(),
        bytes.subrange(pos, pos + message_field(key as nat, body).len()) == message_field(key as nat, body),
    ensures
        ({
            let k = varint_encoding(key as nat).len() as int;
            let l = varint_encoding(body.len()).len() as int;
            let q = pos + message_field(key as nat, body).len();
            &&& varint32_at(bytes, pos) == Ok::<(u32, int), DecodeError>((key as u32, pos + k))
            &&& varint32_at(bytes, pos + k) == Ok::<(u32, int), DecodeError>((body.len() as u32, pos + k + l))
            &&& q == pos + k + l + body.len()
            &&& bytes.subrange(pos + k + l, q) == body
            &&& bytes_at(bytes, pos + k) == Ok::<(Seq<u8>, int), DecodeError>((body, q))
            &&& q > pos
        }),
{
    reveal(message_field);
    let ek = varint_encoding(key as nat);
    let el = varint_encoding(body.len());
    let k = ek.len() as int;
    let l = el.len() as int;
    let f = message_field(key as nat, body);
    let s = bytes.subrange(pos, pos + f.len());
    assert(f == ek + el + body);
    assert(bytes.subrange(pos, pos + k) =~= ek) by {
        assert forall|i: int| 0 <= i < k implies bytes.subrange(pos, pos + k)[i] == ek[i] by {
            assert(bytes.subrange(pos, pos + k)[i] == s[i]);
        }
    }
    assert(bytes.subrange(pos + k, pos + k + l) =~= el) by {
        assert forall|i: int| 0 <= i < l implies bytes.subrange(pos + k, pos + k + l)[i] == el[i] by {
            assert(bytes.subrange(pos + k, pos + k + l)[i] == s[k + i]);
        }
    }
    assert(bytes.subrange(pos + k + l, pos + f.len()) =~= body) by {
        assert forall|i: int| 0 <= i < body.len() implies bytes.subrange(pos + k + l, pos + f.len())[i] == body[i] by {
            assert(bytes.subrange(pos + k + l, pos + f.len())[i] == s[k + l + i]);
        }
    }
    lemma_varint_at(bytes, pos, key);
    lemma_varint_at(bytes, pos + k, body.len() as u64);
}

/// The encodings of absent fields: a zero varint or empty bytes write
/// nothing; non-empty bytes are written as a length-delimited field.
pub proof fn lemma_field_encodings(key: nat, v: u64, b: Seq<u8>)
    ensures
        v == 0 ==> varint_field(key, v) == Seq::<u8>::empty(),
        b.len() == 0 ==> bytes_field(key, b) == Seq::<u8>::empty(),
        b.len() != 0 ==> bytes_field(key, b) == message_field(key, b),
        bytes_field(key, b).len() >= b.len(),
        message_field(key, b).len() >= b.len(),
{
    reveal(varint_field);
    reveal(bytes_field);
    reveal(message_field);
}

} // verus!
