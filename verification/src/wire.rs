//! Framing of the ingest protocol: one type byte, the body length as a
//! varint, then the body. Trace files hold bodies behind a bare varint length.
use vstd::prelude::*;

use crate::bytes::append_bytes;
use crate::messages::Envelope;
use crate::proto::WireMessage;
use crate::varint::{
    encode_usize, first_last_byte, lemma_first_last_byte_facts, lemma_varint_encoding_facts,
    lemma_varint_encoding_len, lemma_varint_roundtrip, lenient_varint, varint_encoding,
    VarintReader, VarintStep,
};

verus! {

pub const TYPE_CLIENT_HELLO: u8 = 0x01;

pub const TYPE_SERVER_HELLO: u8 = 0x02;

pub const TYPE_ENVELOPE: u8 = 0x03;

/// The largest body a reader accepts: 4 MiB.
pub const MAX_MESSAGE_SIZE: u64 = 4 << 20;

pub const PROTOCOL_VERSION: u32 = 3;

/// The bytes of a frame: type byte, varint body length, body.
pub open spec fn frame_bytes(type_byte: u8, body: Seq<u8>) -> Seq<u8> {
    seq![type_byte] + varint_encoding(body.len()) + body
}

/// A body behind its varint length, as trace files store envelopes.
pub open spec fn length_delimited_bytes(body: Seq<u8>) -> Seq<u8> {
    varint_encoding(body.len()) + body
}

/// Why a frame header was refused.
#[derive(PartialEq, Eq, Structural, Debug, Clone, Copy)]
pub enum FrameError {
    /// The type byte was not the one expected.
    UnexpectedType { got: u8, want: u8 },
    /// The length varint ran past ten bytes.
    VarintOverflow,
    /// The announced body is longer than [`MAX_MESSAGE_SIZE`].
    TooLarge(u64),
}

/// Where a reader expecting frame type `want` stands after the bytes `s`.
pub enum HeaderStatus {
    /// More bytes are needed to finish the header.
    Incomplete,
    /// The header is `header_len` bytes long and announces `body_len` bytes.
    Complete { header_len: nat, body_len: u64 },
    /// The header is refused.
    Failed(FrameError),
}

pub open spec fn frame_header_status(s: Seq<u8>, want: u8) -> HeaderStatus {
    if s.len() == 0 {
        HeaderStatus::Incomplete
    } else if s[0] != want {
        HeaderStatus::Failed(FrameError::UnexpectedType { got: s[0], want })
    } else {
        match lenient_varint(s.drop_first()) {
            None => HeaderStatus::Incomplete,
            Some(Err(())) => HeaderStatus::Failed(FrameError::VarintOverflow),
            Some(Ok((len, n))) => {
                if len > MAX_MESSAGE_SIZE {
                    HeaderStatus::Failed(FrameError::TooLarge(len))
                } else {
                    HeaderStatus::Complete { header_len: n + 1, body_len: len }
                }
            },
        }
    }
}

/// Frames a message for the ingest connection: its type byte, the length
/// of its encoding, then the encoding.
pub fn encode_typed<M: WireMessage>(type_byte: u8, msg: &M) -> (frame: Vec<u8>)
    ensures
        frame@ == frame_bytes(type_byte, msg.wire()),
{
    let mut body: Vec<u8> = Vec::new();
    msg.write_message(&mut body);
    proof {
        assert(body@ =~= msg.wire());
    }
    encode_frame(type_byte, body.as_slice())
}

/// Frames an already encoded body.
pub fn encode_frame(type_byte: u8, body: &[u8]) -> (frame: Vec<u8>)
    ensures
        frame@ == frame_bytes(type_byte, body@),
{
    let len = encode_usize(body.len());
    let mut buf: Vec<u8> = Vec::new();
    buf.push(type_byte);
    append_bytes(&mut buf, len.as_slice());
    append_bytes(&mut buf, body);
    proof {
        assert(buf@ =~= frame_bytes(type_byte, body@));
    }
    buf
}

/// Frames an envelope.
pub fn encode_envelope_frame(env: &Envelope) -> (frame: Vec<u8>)
    ensures
        frame@ == frame_bytes(TYPE_ENVELOPE, env.wire()),
{
    encode_typed(TYPE_ENVELOPE, env)
}

/// A message's encoding behind its varint length, as a trace file stores
/// an envelope.
pub fn length_delimited<M: WireMessage>(msg: &M) -> (out: Vec<u8>)
    ensures
        out@ == length_delimited_bytes(msg.wire()),
{
    let mut body: Vec<u8> = Vec::new();
    msg.write_message(&mut body);
    proof {
        assert(body@ =~= msg.wire());
    }
    let len = encode_usize(body.len());
    let mut buf: Vec<u8> = Vec::new();
    append_bytes(&mut buf, len.as_slice());
    append_bytes(&mut buf, body.as_slice());
    buf
}

/// Reads a frame header one byte at a time, as bytes arrive from a stream.
pub struct FrameReader {
    want: u8,
    got_type: bool,
    len: VarintReader,
}

impl FrameReader {
    /// The frame type this reader accepts.
    pub closed spec fn want(&self) -> u8 {
        self.want
    }

    /// The header bytes taken so far.
    pub closed spec fn fed(&self) -> Seq<u8> {
        if self.got_type {
            seq![self.want] + self.len.fed()
        } else {
            Seq::empty()
        }
    }

    #[verifier::type_invariant]
    spec fn inv(&self) -> bool {
        &&& !self.got_type ==> self.len.fed() == Seq::<u8>::empty()
        &&& lenient_varint(self.len.fed()) is None
    }

    pub fn new(want: u8) -> (r: Self)
        ensures
            r.want() == want,
            r.fed() == Seq::<u8>::empty(),
    {
        let len = VarintReader::new();
        proof {
            assert(first_last_byte(Seq::<u8>::empty()) is None);
        }
        FrameReader { want, got_type: false, len }
    }

    /// Takes the next header byte: `Ok(None)` while the header goes on,
    /// `Ok(Some(n))` once it announces an `n`-byte body, `Err` when refused.
    pub fn feed(&mut self, b: u8) -> (r: Result<Option<usize>, FrameError>)
        ensures
            final(self).want() == old(self).want(),
            frame_header_status(final(self).fed(), final(self).want()) is Incomplete,
            match frame_header_status(old(self).fed().push(b), old(self).want()) {
                HeaderStatus::Incomplete => r == Ok::<Option<usize>, FrameError>(None)
                    && final(self).fed() == old(self).fed().push(b),
                HeaderStatus::Complete { header_len, body_len } => r == Ok::<
                    Option<usize>,
                    FrameError,
                >(Some(body_len as usize)),
                HeaderStatus::Failed(e) => r == Err::<Option<usize>, FrameError>(e),
            },
    {
        proof {
            use_type_invariant(&*self);
            if self.got_type {
                assert(self.fed().drop_first() =~= self.len.fed());
                assert(self.fed()[0] == self.want);
            }
        }
        let ghost s2 = self.fed().push(b);
        if !self.got_type {
            proof {
                assert(s2[0] == b);
                assert(s2.drop_first() =~= Seq::<u8>::empty());
            }
            if b != self.want {
                return Err(FrameError::UnexpectedType { got: b, want: self.want });
            }
            self.got_type = true;
            proof {
                assert(self.fed() =~= s2);
                assert(self.fed().drop_first() =~= self.len.fed());
            }
            return Ok(None);
        }
        proof {
            assert(s2[0] == self.want);
            assert(s2.drop_first() =~= self.len.fed().push(b));
        }
        let ghost old_len = self.len.fed();
        let step = self.len.push(b);
        match step {
            VarintStep::More => {
                proof {
                    assert(self.fed() =~= s2);
                    assert(self.fed().drop_first() =~= self.len.fed());
                    assert(self.fed()[0] == self.want);
                }
                Ok(None)
            },
            VarintStep::Done(n) => {
                if n > MAX_MESSAGE_SIZE {
                    Err(FrameError::TooLarge(n))
                } else {
                    Ok(Some(n as usize))
                }
            },
            VarintStep::Overflow => Err(FrameError::VarintOverflow),
        }
    }
}

proof fn lemma_first_last_byte_none(s: Seq<u8>)
    requires
        forall|j: int| 0 <= j < s.len() ==> s[j] >= 128,
    ensures
        first_last_byte(s) is None,
    decreases s.len(),
{
    if s.len() > 0 {
        assert forall|j: int| 0 <= j < s.drop_first().len() implies s.drop_first()[j] >= 128 by {
            assert(s.drop_first()[j] == s[j + 1]);
        }
        lemma_first_last_byte_none(s.drop_first());
    }
}

/// A reader expecting type `t` reads the header of a `t` frame with a body
/// of at most [`MAX_MESSAGE_SIZE`] bytes back: every proper prefix of the
/// header leaves it wanting more, the whole header announces the body's
/// length, and the body follows the header.
pub proof fn lemma_frame_header_roundtrip(t: u8, body: Seq<u8>)
    requires
        body.len() <= MAX_MESSAGE_SIZE,
    ensures
        ({
            let f = frame_bytes(t, body);
            let h: int = 1int + varint_encoding(body.len()).len();
            &&& h <= f.len()
            &&& frame_header_status(f.take(h), t) == HeaderStatus::Complete {
                header_len: h as nat,
                body_len: body.len() as u64,
            }
            &&& forall|k: int| 0 <= k < h ==> frame_header_status(#[trigger] f.take(k), t) is Incomplete
            &&& f.skip(h) == body
        }),
{
    let e = varint_encoding(body.len());
    let f = frame_bytes(t, body);
    let h: int = 1int + e.len();
    lemma_varint_encoding_facts(body.len());
    lemma_varint_encoding_len(body.len());
    let n = body.len() as u64;
    assert(f.take(h).drop_first() =~= e + Seq::<u8>::empty());
    lemma_varint_roundtrip(n, Seq::<u8>::empty());
    assert(f.take(h)[0] == t);
    assert forall|k: int| 0 <= k < h implies frame_header_status(#[trigger] f.take(k), t) is Incomplete by {
        if k > 0 {
            let p = f.take(k).drop_first();
            assert(p =~= e.take(k - 1));
            lemma_first_last_byte_facts(e);
            assert forall|j: int| 0 <= j < p.len() implies p[j] >= 128 by {
                assert(p[j] == e[j]);
            }
            lemma_first_last_byte_none(p);
            assert(f.take(k)[0] == t);
        }
    }
    assert(f.skip(h) =~= body);
}

/// A reader expecting another type refuses a frame at its first byte.
pub proof fn lemma_frame_wrong_type(t: u8, want: u8, body: Seq<u8>)
    requires
        t != want,
    ensures
        frame_header_status(frame_bytes(t, body).take(1), want) == HeaderStatus::Failed(
            FrameError::UnexpectedType { got: t, want },
        ),
{
    assert(frame_bytes(t, body).take(1)[0] == t);
}

} // verus!
