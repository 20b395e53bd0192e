//! Unsigned LEB128 varints: the length prefix of every frame on the wire
//! and of every multistream-select message.
use vstd::prelude::*;

verus! {

/// 2^64, the modulus of `u64` arithmetic.
pub open spec fn two_to_64() -> nat {
    0x1_0000_0000_0000_0000nat
}

/// 128 to the power `k`.
pub open spec fn pow128(k: nat) -> nat
    decreases k,
{
    if k == 0 {
        1
    } else {
        128 * pow128((k - 1) as nat)
    }
}

/// The base-128 digit that a varint byte carries (its low seven bits).
pub open spec fn digit(b: u8) -> nat {
    (b % 128) as nat
}

/// The number that a little-endian string of base-128 digits denotes.
pub open spec fn digits_value(s: Seq<u8>) -> nat
    decreases s.len(),
{
    if s.len() == 0 {
        0
    } else {
        digit(s[0]) + 128 * digits_value(s.drop_first())
    }
}

/// The minimal LEB128 encoding of `n`: seven bits per byte, least
/// significant group first, the high bit set on every byte but the last.
pub open spec fn varint_encoding(n: nat) -> Seq<u8>
    decreases n,
{
    if n < 128 {
        seq![n as u8]
    } else {
        seq![(n % 128 + 128) as u8] + varint_encoding(n / 128)
    }
}

/// Index of the first byte of `s` whose high bit is clear.
pub open spec fn first_last_byte(s: Seq<u8>) -> Option<nat>
    decreases s.len(),
{
    if s.len() == 0 {
        None
    } else if s[0] < 128 {
        Some(0)
    } else {
        match first_last_byte(s.drop_first()) {
            Some(i) => Some(i + 1),
            None => None,
        }
    }
}

/// Why a strict varint decoder refused its input.
#[derive(PartialEq, Eq, Structural, Debug, Clone, Copy)]
pub enum VarintError {
    /// The input ended before the varint did.
    Insufficient,
    /// More than ten bytes, too many for a `u64`.
    Overflow,
    /// A multi-byte varint whose last byte is zero.
    NotMinimal,
}

/// What a strict `u64` varint decoder gives for the start of `s`: the value
/// (bits beyond 64 dropped) and the number of bytes it took, or an error.
pub open spec fn strict_varint(s: Seq<u8>) -> Result<(u64, nat), VarintError> {
    match first_last_byte(s) {
        Some(i) if i <= 9 => {
            if s[i as int] == 0 && i > 0 {
                Err(VarintError::NotMinimal)
            } else {
                Ok(((digits_value(s.take((i + 1) as int)) % two_to_64()) as u64, i + 1))
            }
        },
        _ => {
            if s.len() >= 10 {
                Err(VarintError::Overflow)
            } else {
                Err(VarintError::Insufficient)
            }
        },
    }
}

/// Where a lenient reader (one that accepts trailing zero groups) stands on
/// the bytes `s` read so far: `None` while it wants more, otherwise the
/// value and its length, or `Err(())` when ten bytes pass with no end.
pub open spec fn lenient_varint(s: Seq<u8>) -> Option<Result<(u64, nat), ()>> {
    match first_last_byte(s) {
        Some(i) if i <= 9 => Some(Ok(((digits_value(s.take((i + 1) as int)) % two_to_64()) as u64, i + 1))),
        _ => {
            if s.len() >= 10 {
                Some(Err(()))
            } else {
                None
            }
        },
    }
}

pub proof fn lemma_pow128_pos(k: nat)
    ensures
        pow128(k) >= 1,
    decreases k,
{
    if k > 0 {
        lemma_pow128_pos((k - 1) as nat);
    }
}

/// Appending a digit adds it at the weight of its position.
pub proof fn lemma_digits_value_push(s: Seq<u8>, b: u8)
    ensures
        digits_value(s.push(b)) == digits_value(s) + digit(b) * pow128(s.len()),
    decreases s.len(),
{
    if s.len() == 0 {
        assert(s.push(b).drop_first() =~= Seq::<u8>::empty());
        assert(digits_value(Seq::<u8>::empty()) == 0);
        assert(s.push(b)[0] == b);
        assert(pow128(0) == 1);
    } else {
        assert(s.push(b).drop_first() =~= s.drop_first().push(b));
        assert(s.push(b)[0] == s[0]);
        lemma_digits_value_push(s.drop_first(), b);
        assert(pow128(s.len()) == 128 * pow128((s.len() - 1) as nat));
        let r = digits_value(s.drop_first());
        let p = pow128((s.len() - 1) as nat);
        assert(128 * (r + digit(b) * p) == 128 * r + digit(b) * (128 * p)) by (nonlinear_arith);
    }
}

/// A digit string of length `k` denotes a number below `128^k`.
pub proof fn lemma_digits_value_bound(s: Seq<u8>)
    ensures
        digits_value(s) < pow128(s.len()),
    decreases s.len(),
{
    if s.len() > 0 {
        lemma_digits_value_bound(s.drop_first());
        let r = digits_value(s.drop_first());
        let p = pow128((s.len() - 1) as nat);
        assert(digit(s[0]) < 128);
        assert(digit(s[0]) + 128 * r < 128 * p) by (nonlinear_arith)
            requires
                digit(s[0]) < 128,
                r < p,
                r >= 0,
        ;
    }
}

pub proof fn lemma_first_last_byte_push(s: Seq<u8>, b: u8)
    requires
        first_last_byte(s) is None,
    ensures
        first_last_byte(s.push(b)) == (if b < 128 {
            Some(s.len())
        } else {
            None::<nat>
        }),
    decreases s.len(),
{
    if s.len() == 0 {
        assert(s.push(b)[0] == b);
        assert(s.push(b).drop_first() =~= Seq::<u8>::empty());
        assert(first_last_byte(Seq::<u8>::empty()) is None);
        assert(s.push(b).len() == 1);
    } else {
        assert(s[0] >= 128);
        assert(s.push(b)[0] == s[0]);
        assert(first_last_byte(s.drop_first()) is None);
        assert(s.push(b).drop_first() =~= s.drop_first().push(b));
        lemma_first_last_byte_push(s.drop_first(), b);
        assert(s.push(b).len() > 0);
    }
}

/// A byte string with a clear high bit somewhere ends its varint no later
/// than there, and the prefix before the first clear bit has none.
pub proof fn lemma_first_last_byte_facts(s: Seq<u8>)
    ensures
        first_last_byte(s) matches Some(i) ==> i < s.len() && s[i as int] < 128 && (forall|j: int|
            0 <= j < i ==> s[j] >= 128),
        first_last_byte(s) is None ==> forall|j: int| 0 <= j < s.len() ==> s[j] >= 128,
    decreases s.len(),
{
    if s.len() > 0 && s[0] >= 128 {
        lemma_first_last_byte_facts(s.drop_first());
        assert forall|j: int| 1 <= j < s.len() implies s[j] == s.drop_first()[j - 1] by {}
    }
}

/// `first_last_byte` only looks at bytes up to and including its answer.
pub proof fn lemma_first_last_byte_extend(s: Seq<u8>, t: Seq<u8>)
    requires
        first_last_byte(s) is Some,
    ensures
        first_last_byte(s + t) == first_last_byte(s),
    decreases s.len(),
{
    if s[0] >= 128 {
        assert((s + t).drop_first() =~= s.drop_first() + t);
        lemma_first_last_byte_extend(s.drop_first(), t);
    } else {
        assert((s + t)[0] == s[0]);
    }
}

/// A strict varint that is complete in `s` reads the same whatever follows.
pub proof fn lemma_strict_varint_extend(s: Seq<u8>, t: Seq<u8>)
    requires
        strict_varint(s) is Ok,
    ensures
        strict_varint(s + t) == strict_varint(s),
        strict_varint(s)->Ok_0.1 <= s.len(),
{
    lemma_first_last_byte_extend(s, t);
    let i = first_last_byte(s)->0;
    lemma_first_last_byte_facts(s);
    assert((s + t)[i as int] == s[i as int]);
    assert((s + t).take((i + 1) as int) =~= s.take((i + 1) as int));
}

/// The facts about a minimal encoding that every decoder needs: its value,
/// where its last byte is, and that it is minimal.
pub proof fn lemma_varint_encoding_facts(n: nat)
    ensures
        ({
            let e = varint_encoding(n);
            &&& e.len() >= 1
            &&& digits_value(e) == n
            &&& first_last_byte(e) == Some((e.len() - 1) as nat)
            &&& (e.len() > 1 ==> e[e.len() - 1] != 0)
            &&& (e.len() > 1 ==> n >= pow128((e.len() - 1) as nat))
        }),
    decreases n,
{
    let e = varint_encoding(n);
    if n < 128 {
        assert(e.drop_first() =~= Seq::<u8>::empty());
        assert(e[0] == n as u8);
        assert(digits_value(Seq::<u8>::empty()) == 0);
    } else {
        let r = varint_encoding(n / 128);
        lemma_varint_encoding_facts(n / 128);
        assert(e.drop_first() =~= r);
        assert(e[0] >= 128);
        assert(digit(e[0]) == n % 128);
        assert(first_last_byte(e) == Some((e.len() - 1) as nat));
        assert(e[e.len() - 1] == r[r.len() - 1]);
        if r.len() == 1 {
            assert(r[0] == (n / 128) as u8);
        }
        assert(pow128((e.len() - 1) as nat) == 128 * pow128((r.len() - 1) as nat));
        let p = pow128((r.len() - 1) as nat);
        assert(r.len() == 1 ==> p == 1);
        let q = n / 128;
        assert(128 * q <= n);
        if r.len() > 1 {
            assert(q >= p);
            assert(128 * q >= 128 * p) by (nonlinear_arith)
                requires
                    q >= p,
            ;
        }
    }
}

/// The minimal encoding of a number below 2^64 takes at most ten bytes.
pub proof fn lemma_varint_encoding_len(n: nat)
    requires
        n < two_to_64(),
    ensures
        varint_encoding(n).len() <= 10,
{
    let e = varint_encoding(n);
    lemma_varint_encoding_facts(n);
    if e.len() > 10 {
        lemma_pow128_mono(10, (e.len() - 1) as nat);
        assert(pow128(10) >= two_to_64()) by {
            reveal_with_fuel(pow128, 11);
        }
    }
}

pub proof fn lemma_pow128_mono(a: nat, b: nat)
    requires
        a <= b,
    ensures
        pow128(a) <= pow128(b),
    decreases b,
{
    if a < b {
        lemma_pow128_mono(a, (b - 1) as nat);
        lemma_pow128_pos((b - 1) as nat);
    }
}

/// Both decoders give back what the minimal encoder wrote, whatever follows.
pub proof fn lemma_varint_roundtrip(n: u64, rest: Seq<u8>)
    ensures
        strict_varint(varint_encoding(n as nat) + rest) == Ok::<(u64, nat), VarintError>(
            (n, varint_encoding(n as nat).len()),
        ),
        lenient_varint(varint_encoding(n as nat) + rest) == Some(
            Ok::<(u64, nat), ()>((n, varint_encoding(n as nat).len())),
        ),
{
    let e = varint_encoding(n as nat);
    let s = e + rest;
    lemma_varint_encoding_facts(n as nat);
    lemma_varint_encoding_len(n as nat);
    lemma_first_last_byte_extend(e, rest);
    assert(s.take(e.len() as int) =~= e);
    assert(s[e.len() - 1] == e[e.len() - 1]);
    assert(first_last_byte(s) == Some((e.len() - 1) as nat));
    assert((e.len() - 1) as nat + 1 == e.len());
    assert(digits_value(s.take(e.len() as int)) == n);
    assert(n as nat % two_to_64() == n as nat);
}


/// `unsigned_varint::encode::usize`: writes the minimal LEB128 encoding of
/// `n` into a buffer and hands back the bytes written.
#[verifier::external_body]
pub(crate) fn encode_usize(n: usize) -> (bytes: Vec<u8>)
    ensures
        bytes@ == varint_encoding(n as nat),
{
    let mut buf = unsigned_varint::encode::usize_buffer();
    unsigned_varint::encode::usize(n, &mut buf).to_vec()
}

/// `unsigned_varint::decode::u64`: decodes the varint at the start of `buf`
/// and returns its value with the bytes after it. It reads at most ten
/// bytes, drops bits beyond 64, and refuses a multi-byte varint whose last
/// byte is zero; the three errors are mapped one for one.
#[verifier::external_body]
pub(crate) fn decode_u64(buf: &[u8]) -> (res: Result<(u64, &[u8]), VarintError>)
    ensures
        match strict_varint(buf@) {
            Ok((v, n)) => res matches Ok((w, rest)) && w == v && rest@ == buf@.skip(n as int),
            Err(e) => res == Err::<(u64, &[u8]), VarintError>(e),
        },
{
    match unsigned_varint::decode::u64(buf) {
        Ok((v, rest)) => Ok((v, rest)),
        Err(unsigned_varint::decode::Error::Insufficient) => Err(VarintError::Insufficient),
        Err(unsigned_varint::decode::Error::Overflow) => Err(VarintError::Overflow),
        Err(_) => Err(VarintError::NotMinimal),
    }
}

/// One step of reading a varint byte by byte.
#[derive(PartialEq, Eq, Structural, Debug, Clone, Copy)]
pub enum VarintStep {
    /// The byte had its high bit set: another byte is needed.
    More,
    /// The byte ended the varint, which has this value.
    Done(u64),
    /// Ten bytes went by and the varint has not ended.
    Overflow,
}

/// Reads a varint one byte at a time, as bytes arrive from a stream. Unlike
/// [`decode_u64`] it accepts trailing zero groups.
pub struct VarintReader {
    value: u64,
    scale: u64,
    count: u32,
    fed: Ghost<Seq<u8>>,
}

impl VarintReader {
    /// The bytes taken so far, every one of them with its high bit set.
    pub closed spec fn fed(&self) -> Seq<u8> {
        self.fed@
    }

    #[verifier::type_invariant]
    spec fn inv(&self) -> bool {
        &&& self.count as nat == self.fed@.len()
        &&& self.count <= 9
        &&& first_last_byte(self.fed@) is None
        &&& self.value as nat == digits_value(self.fed@)
        &&& self.scale as nat == pow128(self.fed@.len())
    }

    pub fn new() -> (r: Self)
        ensures
            r.fed() == Seq::<u8>::empty(),
            lenient_varint(r.fed()) is None,
    {
        proof {
            reveal_with_fuel(pow128, 1);
        }
        VarintReader { value: 0, scale: 1, count: 0, fed: Ghost(Seq::empty()) }
    }

    /// Takes the next byte. While the varint goes on the byte is kept;
    /// once it ends (or overflows) the reader is left as it was.
    pub fn push(&mut self, b: u8) -> (step: VarintStep)
        ensures
            match lenient_varint(old(self).fed().push(b)) {
                None => step == VarintStep::More && final(self).fed() == old(self).fed().push(b),
                Some(Ok((v, _))) => step == VarintStep::Done(v) && final(self).fed() == old(self).fed(),
                Some(Err(())) => step == VarintStep::Overflow && final(self).fed() == old(self).fed(),
            },
            lenient_varint(final(self).fed()) is None,
        no_unwind
    {
        proof {
            use_type_invariant(&*self);
            lemma_first_last_byte_push(self.fed@, b);
            lemma_digits_value_push(self.fed@, b);
            lemma_digits_value_bound(self.fed@);
            reveal_with_fuel(pow128, 10);
            if self.count < 9 {
                lemma_pow128_mono(self.fed@.len(), 8);
            }
        }
        let ghost fed2 = self.fed@.push(b);
        let d: u64 = (b % 128) as u64;
        if b < 128 {
            proof {
                assert(fed2.take(fed2.len() as int) =~= fed2);
            }
            let term: u64;
            if self.count == 9 {
                proof {
                    let dd = d as nat;
                    let v = self.value as nat;
                    assert(self.scale == 0x8000_0000_0000_0000u64);
                    assert((v + dd * 0x8000_0000_0000_0000nat) % two_to_64() == v + (dd % 2)
                        * 0x8000_0000_0000_0000nat) by (nonlinear_arith)
                        requires
                            v < 0x8000_0000_0000_0000nat,
                            dd < 128,
                    ;
                }
                term = (d % 2) * self.scale;
            } else {
                proof {
                    assert(self.scale <= 0x100_0000_0000_0000u64);
                    assert(d * self.scale <= 127 * 0x100_0000_0000_0000nat) by (nonlinear_arith)
                        requires
                            d < 128,
                            self.scale <= 0x100_0000_0000_0000u64,
                    ;
                }
                term = d * self.scale;
            }
            VarintStep::Done(self.value + term)
        } else if self.count == 9 {
            VarintStep::Overflow
        } else {
            proof {
                assert(self.scale <= 0x100_0000_0000_0000u64);
                assert(d * self.scale <= 127 * 0x100_0000_0000_0000nat) by (nonlinear_arith)
                    requires
                        d < 128,
                        self.scale <= 0x100_0000_0000_0000u64,
                ;
                assert(pow128(fed2.len()) == 128 * pow128(self.fed@.len()));
            }
            *self = VarintReader {
                value: self.value + d * self.scale,
                scale: self.scale * 128,
                count: self.count + 1,
                fed: Ghost(fed2),
            };
            VarintStep::More
        }
    }
}

} // verus!
