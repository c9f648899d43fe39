//! Wire-format primitives.
//!
//! All integers are written as little-endian base-128 varints: seven value
//! bits per byte, high bit set on every byte but the last. Byte strings and
//! UTF-8 strings are length-prefixed. Decoding distinguishes an input that
//! ends in the middle of an element, which a reader of a file still being
//! written tolerates, from one that is malformed.

use vstd::prelude::*;

verus! {

/// The result of decoding one element from the front of a byte sequence:
/// the value and the number of bytes consumed, or the reason nothing could
/// be decoded.
pub enum SpecDec<T> {
    /// The element decoded and the count of bytes it occupied.
    Val(T, int),
    /// The bytes end before the element is complete.
    More,
    /// The bytes do not hold a well-formed element.
    Bad,
}

/// Why a decode attempt failed.
#[derive(Debug, Clone, Copy, PartialEq, Eq, Structural)]
pub enum DecodeFailure {
    /// The bytes end before the element is complete.
    Incomplete,
    /// The bytes do not hold a well-formed element.
    Malformed,
}

/// The varint encoding of a number: seven bits per byte, least significant
/// group first, high bit set on all bytes but the last.
pub open spec fn varint_enc(n: nat) -> Seq<u8>
    decreases n,
{
    if n < 128 {
        seq![n as u8]
    } else {
        seq![(128 + n % 128) as u8] + varint_enc(n / 128)
    }
}

/// Decode a varint from the front of `s`: at most `fuel` bytes, value at
/// most `cap`.
pub open spec fn varint_dec(s: Seq<u8>, fuel: nat, cap: nat) -> SpecDec<nat>
    decreases fuel,
{
    if s.len() == 0 {
        SpecDec::More
    } else {
        let b = s[0];
        if b < 128 {
            if b as nat <= cap {
                SpecDec::Val(b as nat, 1)
            } else {
                SpecDec::Bad
            }
        } else if fuel <= 1 {
            SpecDec::Bad
        } else {
            match varint_dec(s.drop_first(), (fuel - 1) as nat, cap) {
                SpecDec::Val(v, l) => {
                    let total = (b - 128) + 128 * v;
                    if total > cap {
                        SpecDec::Bad
                    } else {
                        SpecDec::Val(total as nat, 1 + l)
                    }
                },
                SpecDec::More => SpecDec::More,
                SpecDec::Bad => SpecDec::Bad,
            }
        }
    }
}

/// One seventh-power of two per possible varint byte.
pub open spec fn pow128(k: nat) -> nat
    decreases k,
{
    if k == 0 {
        1
    } else {
        128 * pow128((k - 1) as nat)
    }
}

/// A number below `pow128(k)` encodes in at most `k` bytes.
pub proof fn lemma_varint_enc_len(n: nat, k: nat)
    requires
        k >= 1,
        n < pow128(k),
    ensures
        1 <= varint_enc(n).len() <= k,
    decreases n,
{
    if n < 128 {
    } else {
        assert(k >= 2) by {
            assert(pow128(0) == 1);
            assert(pow128(1) == 128);
        }
        assert(n / 128 < pow128((k - 1) as nat)) by {
            assert(pow128(k) == 128 * pow128((k - 1) as nat));
            vstd::arithmetic::div_mod::lemma_multiply_divide_lt(n as int, 128,
                pow128((k - 1) as nat) as int);
        }
        lemma_varint_enc_len(n / 128, (k - 1) as nat);
    }
}

/// Every byte of a varint encoding except the last has its high bit set.
pub proof fn lemma_varint_enc_shape(n: nat)
    ensures
        varint_enc(n).len() >= 1,
        forall|i: int|
            0 <= i < varint_enc(n).len() - 1 ==> #[trigger] varint_enc(n)[i] >= 128,
        varint_enc(n).last() < 128,
    decreases n,
{
    if n >= 128 {
        lemma_varint_enc_shape(n / 128);
        let e = varint_enc(n);
        let inner = varint_enc(n / 128);
        assert(e == seq![(128 + n % 128) as u8] + inner);
        assert(forall|i: int| 1 <= i < e.len() ==> e[i] == inner[i - 1]);
        assert(e.last() == inner.last());
    }
}

/// Decoding the varint encoding of a number, followed by anything, yields
/// the number and consumes exactly the encoding.
pub proof fn lemma_varint_round_trip(n: nat, rest: Seq<u8>, fuel: nat, cap: nat)
    requires
        n <= cap,
        varint_enc(n).len() <= fuel,
    ensures
        varint_dec(varint_enc(n) + rest, fuel, cap) == SpecDec::<nat>::Val(
            n,
            varint_enc(n).len() as int,
        ),
    decreases n,
{
    let s = varint_enc(n) + rest;
    if n < 128 {
        assert(s[0] == n as u8);
    } else {
        let b = (128 + n % 128) as u8;
        assert(s[0] == b);
        assert(s.drop_first() =~= varint_enc(n / 128) + rest);
        assert(n / 128 <= cap) by {
            vstd::arithmetic::div_mod::lemma_div_is_ordered(n as int, cap as int, 128);
            vstd::arithmetic::div_mod::lemma_div_nonincreasing(cap as int, 128);
        }
        lemma_varint_round_trip(n / 128, rest, (fuel - 1) as nat, cap);
        vstd::arithmetic::div_mod::lemma_fundamental_div_mod(n as int, 128);
        assert((b - 128) + 128 * (n / 128) == n);
    }
}

/// Decoding a strict prefix of a varint encoding reports that more bytes
/// are needed.
pub proof fn lemma_varint_prefix(n: nat, k: int, fuel: nat, cap: nat)
    requires
        0 <= k < varint_enc(n).len(),
        varint_enc(n).len() <= fuel,
    ensures
        varint_dec(varint_enc(n).take(k), fuel, cap) == SpecDec::<nat>::More,
    decreases n,
{
    if k == 0 {
        assert(varint_enc(n).take(0) =~= Seq::<u8>::empty());
    } else {
        // k >= 1 means the encoding has at least two bytes, so n >= 128
        assert(n >= 128);
        let e = varint_enc(n);
        let inner = varint_enc(n / 128);
        assert(e == seq![(128 + n % 128) as u8] + inner);
        assert(e.take(k)[0] == (128 + n % 128) as u8);
        assert(e.take(k).drop_first() =~= inner.take(k - 1));
        lemma_varint_prefix(n / 128, k - 1, (fuel - 1) as nat, cap);
    }
}

/// The varint encodings used by this format: `u64` values in at most ten
/// bytes.
pub open spec fn enc_u64(n: u64) -> Seq<u8> {
    varint_enc(n as nat)
}

/// Decode a `u64` varint from the front of `s`.
pub open spec fn dec_u64(s: Seq<u8>) -> SpecDec<nat> {
    varint_dec(s, 10, u64::MAX as nat)
}

/// Any value up to `u64::MAX` fits in ten varint bytes.
pub proof fn lemma_varint_enc_len_u64(n: nat)
    requires
        n <= u64::MAX,
    ensures
        1 <= varint_enc(n).len() <= 10,
{
    assert(pow128(0) == 1);
    assert(pow128(1) == 128);
    assert(pow128(2) == 16384);
    assert(pow128(3) == 2097152);
    assert(pow128(4) == 268435456);
    assert(pow128(5) == 34359738368);
    assert(pow128(6) == 4398046511104);
    assert(pow128(7) == 562949953421312);
    assert(pow128(8) == 72057594037927936);
    assert(pow128(9) == 9223372036854775808);
    assert(pow128(10) == 1180591620717411303424);
    lemma_varint_enc_len(n, 10);
}

/// Every `u64` fits in ten varint bytes.
pub proof fn lemma_u64_enc_len(n: u64)
    ensures
        1 <= varint_enc(n as nat).len() <= 10,
{
    lemma_varint_enc_len_u64(n as nat);
}

/// Append the varint encoding of a `u64` to the output.
pub fn encode_u64(out: &mut Vec<u8>, n: u64)
    ensures
        final(out)@ == old(out)@ + enc_u64(n),
    decreases n,
{
    if n < 128 {
        out.push(n as u8);
        proof {
            assert(out@ =~= old(out)@ + enc_u64(n));
        }
    } else {
        out.push((n % 128) as u8 + 128);
        encode_u64(out, n / 128);
        proof {
            assert((n % 128) as u8 + 128 == (128 + (n as nat) % 128) as u8);
            assert(out@ =~= old(out)@ + enc_u64(n));
        }
    }
}

/// Decode a varint from `bytes` at `pos`, reading at most `fuel` more
/// bytes.
fn decode_u64_at(bytes: &Vec<u8>, pos: usize, fuel: u32) -> (r: Result<(u64, usize), DecodeFailure>)
    requires
        pos <= bytes@.len(),
    ensures
        match r {
            Ok((v, next)) => varint_dec(bytes@.skip(pos as int), fuel as nat, u64::MAX as nat)
                == SpecDec::<nat>::Val(v as nat, next - pos) && pos < next <= bytes@.len(),
            Err(DecodeFailure::Incomplete) => varint_dec(bytes@.skip(pos as int), fuel as nat,
                u64::MAX as nat) == SpecDec::<nat>::More,
            Err(DecodeFailure::Malformed) => varint_dec(bytes@.skip(pos as int), fuel as nat,
                u64::MAX as nat) == SpecDec::<nat>::Bad,
        },
    decreases fuel,
{
    let ghost s = bytes@.skip(pos as int);
    if pos == bytes.len() {
        proof {
            assert(s.len() == 0);
        }
        return Err(DecodeFailure::Incomplete);
    }
    let b = bytes[pos];
    proof {
        assert(s[0] == b);
    }
    if b < 128 {
        Ok((b as u64, pos + 1))
    } else if fuel <= 1 {
        Err(DecodeFailure::Malformed)
    } else {
        proof {
            assert(s.drop_first() =~= bytes@.skip(pos + 1));
        }
        match decode_u64_at(bytes, pos + 1, fuel - 1) {
            Ok((v, next)) => {
                let low = (b - 128) as u64;
                if v <= (u64::MAX - low) / 128 {
                    proof {
                        vstd::arithmetic::div_mod::lemma_fundamental_div_mod(
                            u64::MAX - low,
                            128,
                        );
                    }
                    Ok((low + 128 * v, next))
                } else {
                    proof {
                        vstd::arithmetic::div_mod::lemma_fundamental_div_mod(
                            u64::MAX - low,
                            128,
                        );
                        assert(128 * v >= 128 * ((u64::MAX - low) / 128 + 1)) by (nonlinear_arith)
                            requires
                                v >= (u64::MAX - low) / 128 + 1,
                        ;
                        assert((b - 128) + 128 * (v as nat) > u64::MAX);
                    }
                    Err(DecodeFailure::Malformed)
                }
            },
            Err(e) => Err(e),
        }
    }
}

/// Decode a `u64` varint from `bytes` at `pos`.
pub fn decode_u64(bytes: &Vec<u8>, pos: usize) -> (r: Result<(u64, usize), DecodeFailure>)
    requires
        pos <= bytes@.len(),
    ensures
        match r {
            Ok((v, next)) => dec_u64(bytes@.skip(pos as int)) == SpecDec::<nat>::Val(
                v as nat,
                next - pos,
            ) && pos < next <= bytes@.len(),
            Err(DecodeFailure::Incomplete) => dec_u64(bytes@.skip(pos as int))
                == SpecDec::<nat>::More,
            Err(DecodeFailure::Malformed) => dec_u64(bytes@.skip(pos as int))
                == SpecDec::<nat>::Bad,
        },
{
    decode_u64_at(bytes, pos, 10)
}

/// The round-trip law for `u64` varints.
pub proof fn lemma_u64_round_trip(n: u64, rest: Seq<u8>)
    ensures
        dec_u64(enc_u64(n) + rest) == SpecDec::<nat>::Val(n as nat, enc_u64(n).len() as int),
{
    lemma_u64_enc_len(n);
    lemma_varint_round_trip(n as nat, rest, 10, u64::MAX as nat);
}

/// The truncation law for `u64` varints: a strict prefix asks for more.
pub proof fn lemma_u64_prefix(n: u64, k: int)
    requires
        0 <= k < enc_u64(n).len(),
    ensures
        dec_u64(enc_u64(n).take(k)) == SpecDec::<nat>::More,
{
    lemma_u64_enc_len(n);
    lemma_varint_prefix(n as nat, k, 10, u64::MAX as nat);
}

/// Decode a `u64` varint whose value must fit a `u32`.
pub open spec fn dec_u32(s: Seq<u8>) -> SpecDec<nat> {
    match dec_u64(s) {
        SpecDec::Val(v, n) => if v <= u32::MAX as nat {
            SpecDec::Val(v, n)
        } else {
            SpecDec::Bad
        },
        SpecDec::More => SpecDec::More,
        SpecDec::Bad => SpecDec::Bad,
    }
}

/// Decode a `u32` varint from `bytes` at `pos`.
pub fn decode_u32(bytes: &Vec<u8>, pos: usize) -> (r: Result<(u32, usize), DecodeFailure>)
    requires
        pos <= bytes@.len(),
    ensures
        match r {
            Ok((v, next)) => dec_u32(bytes@.skip(pos as int)) == SpecDec::<nat>::Val(
                v as nat,
                next - pos,
            ) && pos < next <= bytes@.len(),
            Err(DecodeFailure::Incomplete) => dec_u32(bytes@.skip(pos as int))
                == SpecDec::<nat>::More,
            Err(DecodeFailure::Malformed) => dec_u32(bytes@.skip(pos as int))
                == SpecDec::<nat>::Bad,
        },
{
    match decode_u64(bytes, pos) {
        Ok((v, next)) => {
            if v <= u32::MAX as u64 {
                Ok((v as u32, next))
            } else {
                Err(DecodeFailure::Malformed)
            }
        },
        Err(e) => Err(e),
    }
}

/// Decode a `u64` varint whose value must fit a `usize`.
pub open spec fn dec_usize(s: Seq<u8>) -> SpecDec<nat> {
    match dec_u64(s) {
        SpecDec::Val(v, n) => if v <= usize::MAX as nat {
            SpecDec::Val(v, n)
        } else {
            SpecDec::Bad
        },
        SpecDec::More => SpecDec::More,
        SpecDec::Bad => SpecDec::Bad,
    }
}

/// Decode a length or count from `bytes` at `pos`.
pub fn decode_usize(bytes: &Vec<u8>, pos: usize) -> (r: Result<(usize, usize), DecodeFailure>)
    requires
        pos <= bytes@.len(),
    ensures
        match r {
            Ok((v, next)) => dec_usize(bytes@.skip(pos as int)) == SpecDec::<nat>::Val(
                v as nat,
                next - pos,
            ) && pos < next <= bytes@.len(),
            Err(DecodeFailure::Incomplete) => dec_usize(bytes@.skip(pos as int))
                == SpecDec::<nat>::More,
            Err(DecodeFailure::Malformed) => dec_usize(bytes@.skip(pos as int))
                == SpecDec::<nat>::Bad,
        },
{
    match decode_u64(bytes, pos) {
        Ok((v, next)) => {
            if v <= usize::MAX as u64 {
                Ok((v as usize, next))
            } else {
                Err(DecodeFailure::Malformed)
            }
        },
        Err(e) => Err(e),
    }
}

/// The encoding of a single raw byte.
pub open spec fn enc_u8(b: u8) -> Seq<u8> {
    seq![b]
}

/// Decode a single raw byte.
pub open spec fn dec_u8(s: Seq<u8>) -> SpecDec<u8> {
    if s.len() == 0 {
        SpecDec::More
    } else {
        SpecDec::Val(s[0], 1)
    }
}

/// Decode a single raw byte from `bytes` at `pos`.
pub fn decode_u8(bytes: &Vec<u8>, pos: usize) -> (r: Result<(u8, usize), DecodeFailure>)
    requires
        pos <= bytes@.len(),
    ensures
        match r {
            Ok((v, next)) => dec_u8(bytes@.skip(pos as int)) == SpecDec::<u8>::Val(
                v,
                next - pos,
            ) && pos < next <= bytes@.len(),
            Err(DecodeFailure::Incomplete) => dec_u8(bytes@.skip(pos as int))
                == SpecDec::<u8>::More,
            Err(DecodeFailure::Malformed) => false,
        },
{
    if pos == bytes.len() {
        proof {
            assert(bytes@.skip(pos as int).len() == 0);
        }
        return Err(DecodeFailure::Incomplete);
    }
    proof {
        assert(bytes@.skip(pos as int)[0] == bytes@[pos as int]);
    }
    Ok((bytes[pos], pos + 1))
}

/// The encoding of a boolean: one byte, zero or one.
pub open spec fn enc_bool(b: bool) -> Seq<u8> {
    if b {
        seq![1u8]
    } else {
        seq![0u8]
    }
}

/// Decode a boolean.
pub open spec fn dec_bool(s: Seq<u8>) -> SpecDec<bool> {
    if s.len() == 0 {
        SpecDec::More
    } else if s[0] == 0 {
        SpecDec::Val(false, 1)
    } else if s[0] == 1 {
        SpecDec::Val(true, 1)
    } else {
        SpecDec::Bad
    }
}

/// Decode a boolean from `bytes` at `pos`.
pub fn decode_bool(bytes: &Vec<u8>, pos: usize) -> (r: Result<(bool, usize), DecodeFailure>)
    requires
        pos <= bytes@.len(),
    ensures
        match r {
            Ok((v, next)) => dec_bool(bytes@.skip(pos as int)) == SpecDec::<bool>::Val(
                v,
                next - pos,
            ) && pos < next <= bytes@.len(),
            Err(DecodeFailure::Incomplete) => dec_bool(bytes@.skip(pos as int))
                == SpecDec::<bool>::More,
            Err(DecodeFailure::Malformed) => dec_bool(bytes@.skip(pos as int))
                == SpecDec::<bool>::Bad,
        },
{
    if pos == bytes.len() {
        proof {
            assert(bytes@.skip(pos as int).len() == 0);
        }
        return Err(DecodeFailure::Incomplete);
    }
    proof {
        assert(bytes@.skip(pos as int)[0] == bytes@[pos as int]);
    }
    let b = bytes[pos];
    if b == 0 {
        Ok((false, pos + 1))
    } else if b == 1 {
        Ok((true, pos + 1))
    } else {
        Err(DecodeFailure::Malformed)
    }
}

/// The encoding of a byte string: its length, then its bytes.
pub open spec fn enc_bytes(b: Seq<u8>) -> Seq<u8> {
    varint_enc(b.len()) + b
}

/// Decode a length-prefixed byte string.
pub open spec fn dec_bytes(s: Seq<u8>) -> SpecDec<Seq<u8>> {
    match dec_usize(s) {
        SpecDec::Val(l, n) => if s.len() - n < l {
            SpecDec::More
        } else {
            SpecDec::Val(s.subrange(n, n + l), n + l)
        },
        SpecDec::More => SpecDec::More,
        SpecDec::Bad => SpecDec::Bad,
    }
}

/// Append the encoding of a byte string to the output.
pub fn encode_bytes(out: &mut Vec<u8>, b: &Vec<u8>)
    ensures
        final(out)@ == old(out)@ + enc_bytes(b@),
{
    encode_u64(out, b.len() as u64);
    let mut i: usize = 0;
    while i < b.len()
        invariant
            i <= b@.len(),
            out@ == old(out)@ + varint_enc(b@.len()) + b@.take(i as int),
        decreases b@.len() - i,
    {
        out.push(b[i]);
        proof {
            assert(b@.take(i + 1) =~= b@.take(i as int).push(b@[i as int]));
            assert(out@ =~= old(out)@ + varint_enc(b@.len()) + b@.take(i + 1));
        }
        i = i + 1;
    }
    proof {
        assert(b@.take(b@.len() as int) =~= b@);
        assert(out@ =~= old(out)@ + enc_bytes(b@));
    }
}

/// Decode a length-prefixed byte string from `bytes` at `pos`.
pub fn decode_bytes(bytes: &Vec<u8>, pos: usize) -> (r: Result<(Vec<u8>, usize), DecodeFailure>)
    requires
        pos <= bytes@.len(),
    ensures
        match r {
            Ok((v, next)) => dec_bytes(bytes@.skip(pos as int)) == SpecDec::<Seq<u8>>::Val(
                v@,
                next - pos,
            ) && pos <= next <= bytes@.len(),
            Err(DecodeFailure::Incomplete) => dec_bytes(bytes@.skip(pos as int))
                == SpecDec::<Seq<u8>>::More,
            Err(DecodeFailure::Malformed) => dec_bytes(bytes@.skip(pos as int))
                == SpecDec::<Seq<u8>>::Bad,
        },
{
    let ghost s = bytes@.skip(pos as int);
    match decode_usize(bytes, pos) {
        Ok((l, mid)) => {
            if bytes.len() - mid < l {
                proof {
                    assert(s.len() - (mid - pos) < l);
                }
                Err(DecodeFailure::Incomplete)
            } else {
                let mut v: Vec<u8> = Vec::new();
                let mut i: usize = mid;
                while i < mid + l
                    invariant
                        pos <= mid <= i <= mid + l <= bytes@.len(),
                        bytes@.len() <= usize::MAX,
                        v@ == bytes@.subrange(mid as int, i as int),
                    decreases mid + l - i,
                {
                    v.push(bytes[i]);
                    proof {
                        assert(v@ =~= bytes@.subrange(mid as int, i + 1));
                    }
                    i = i + 1;
                }
                proof {
                    assert(s.subrange(mid - pos, mid - pos + l) =~= bytes@.subrange(
                        mid as int, mid + l));
                }
                Ok((v, mid + l))
            }
        },
        Err(e) => Err(e),
    }
}

/// The round-trip law for byte strings.
pub proof fn lemma_bytes_round_trip(b: Seq<u8>, rest: Seq<u8>)
    requires
        b.len() <= usize::MAX,
    ensures
        dec_bytes(enc_bytes(b) + rest) == SpecDec::<Seq<u8>>::Val(b, enc_bytes(b).len() as int),
{
    let s = enc_bytes(b) + rest;
    let lenc = varint_enc(b.len());
    assert(s =~= lenc + (b + rest));
    lemma_varint_enc_len_u64(b.len());
    lemma_varint_round_trip(b.len(), b + rest, 10, u64::MAX as nat);
    let n = lenc.len() as int;
    assert(dec_usize(s) == SpecDec::<nat>::Val(b.len(), n));
    assert(s.subrange(n, n + b.len()) =~= b);
}

/// The encoding of a string: the length of its UTF-8 form, then its bytes.
pub open spec fn enc_string(t: Seq<char>) -> Seq<u8> {
    enc_bytes(vstd::utf8::encode_utf8(t))
}

/// Decode a length-prefixed UTF-8 string.
pub open spec fn dec_string(s: Seq<u8>) -> SpecDec<Seq<char>> {
    match dec_bytes(s) {
        SpecDec::Val(b, n) => if vstd::utf8::valid_utf8(b) {
            SpecDec::Val(vstd::utf8::decode_utf8(b), n)
        } else {
            SpecDec::Bad
        },
        SpecDec::More => SpecDec::More,
        SpecDec::Bad => SpecDec::Bad,
    }
}

/// Relies on `String::from_utf8`: returns the string those bytes spell in
/// UTF-8, and fails exactly on byte strings that are not valid UTF-8.
#[verifier::external_body]
fn string_from_utf8(bytes: Vec<u8>) -> (r: Option<String>)
    ensures
        match r {
            Some(t) => vstd::utf8::valid_utf8(bytes@) && t@ == vstd::utf8::decode_utf8(bytes@),
            None => !vstd::utf8::valid_utf8(bytes@),
        },
{
    match String::from_utf8(bytes) {
        Ok(t) => Some(t),
        Err(_) => None,
    }
}

/// Append the encoding of a string to the output.
pub fn encode_str(out: &mut Vec<u8>, t: &str)
    ensures
        final(out)@ == old(out)@ + enc_string(t@),
{
    let bytes = t.as_bytes_vec();
    encode_bytes(out, &bytes);
}

/// Decode a length-prefixed UTF-8 string from `bytes` at `pos`.
pub fn decode_string(bytes: &Vec<u8>, pos: usize) -> (r: Result<(String, usize), DecodeFailure>)
    requires
        pos <= bytes@.len(),
    ensures
        match r {
            Ok((v, next)) => dec_string(bytes@.skip(pos as int)) == SpecDec::<Seq<char>>::Val(
                v@,
                next - pos,
            ) && pos <= next <= bytes@.len(),
            Err(DecodeFailure::Incomplete) => dec_string(bytes@.skip(pos as int))
                == SpecDec::<Seq<char>>::More,
            Err(DecodeFailure::Malformed) => dec_string(bytes@.skip(pos as int))
                == SpecDec::<Seq<char>>::Bad,
        },
{
    match decode_bytes(bytes, pos) {
        Ok((b, next)) => match string_from_utf8(b) {
            Some(t) => Ok((t, next)),
            None => Err(DecodeFailure::Malformed),
        },
        Err(e) => Err(e),
    }
}

/// The round-trip law for strings.
pub proof fn lemma_string_round_trip(t: Seq<char>, rest: Seq<u8>)
    requires
        vstd::utf8::encode_utf8(t).len() <= usize::MAX,
    ensures
        dec_string(enc_string(t) + rest) == SpecDec::<Seq<char>>::Val(
            t,
            enc_string(t).len() as int,
        ),
{
    lemma_bytes_round_trip(vstd::utf8::encode_utf8(t), rest);
    vstd::utf8::encode_utf8_valid_utf8(t);
    vstd::utf8::encode_utf8_decode_utf8(t);
}

/// The zigzag mapping from signed to unsigned values.
pub open spec fn zigzag(i: int) -> nat {
    if i >= 0 {
        (2 * i) as nat
    } else {
        (-2 * i - 1) as nat
    }
}

/// The inverse zigzag mapping.
pub open spec fn unzigzag(n: nat) -> int {
    if n % 2 == 0 {
        (n / 2) as int
    } else {
        -((n as int + 1) / 2)
    }
}

/// Zigzag and its inverse cancel.
pub proof fn lemma_zigzag_inverse(i: int)
    ensures
        unzigzag(zigzag(i)) == i,
{
    if i >= 0 {
        assert((2 * i) % 2 == 0 && (2 * i) / 2 == i) by (nonlinear_arith);
    } else {
        let n = -2 * i - 1;
        assert(n % 2 == 1 && (n + 1) / 2 == -i) by (nonlinear_arith)
            requires
                n == -2 * i - 1,
                i < 0,
        ;
    }
}

/// The encoding of a signed 64-bit integer: its zigzag value as a varint.
pub open spec fn enc_i64(x: i64) -> Seq<u8> {
    varint_enc(zigzag(x as int))
}

/// Decode a signed 64-bit integer.
pub open spec fn dec_i64(s: Seq<u8>) -> SpecDec<int> {
    match dec_u64(s) {
        SpecDec::Val(v, n) => SpecDec::Val(unzigzag(v), n),
        SpecDec::More => SpecDec::More,
        SpecDec::Bad => SpecDec::Bad,
    }
}

/// Append the encoding of a signed 64-bit integer to the output.
pub fn encode_i64(out: &mut Vec<u8>, x: i64)
    ensures
        final(out)@ == old(out)@ + enc_i64(x),
{
    let z: u64 = if x >= 0 {
        (x as u64) * 2
    } else {
        (-(x + 1)) as u64 * 2 + 1
    };
    proof {
        assert(z == zigzag(x as int));
    }
    encode_u64(out, z);
}

/// Decode a signed 64-bit integer from `bytes` at `pos`.
pub fn decode_i64(bytes: &Vec<u8>, pos: usize) -> (r: Result<(i64, usize), DecodeFailure>)
    requires
        pos <= bytes@.len(),
    ensures
        match r {
            Ok((v, next)) => dec_i64(bytes@.skip(pos as int)) == SpecDec::<int>::Val(
                v as int,
                next - pos,
            ) && pos < next <= bytes@.len(),
            Err(DecodeFailure::Incomplete) => dec_i64(bytes@.skip(pos as int))
                == SpecDec::<int>::More,
            Err(DecodeFailure::Malformed) => dec_i64(bytes@.skip(pos as int))
                == SpecDec::<int>::Bad,
        },
{
    match decode_u64(bytes, pos) {
        Ok((v, next)) => {
            let x: i64 = if v % 2 == 0 {
                (v / 2) as i64
            } else {
                -(((v - 1) / 2) as i64) - 1
            };
            proof {
                if v % 2 != 0 {
                    assert((v as int + 1) / 2 == (v as int - 1) / 2 + 1) by (nonlinear_arith)
                        requires
                            v % 2 == 1,
                    ;
                }
                assert(x as int == unzigzag(v as nat));
            }
            Ok((x, next))
        },
        Err(e) => Err(e),
    }
}

/// The round-trip law for signed 64-bit integers.
pub proof fn lemma_i64_round_trip(x: i64, rest: Seq<u8>)
    ensures
        dec_i64(enc_i64(x) + rest) == SpecDec::<int>::Val(x as int, enc_i64(x).len() as int),
{
    assert(zigzag(x as int) <= u64::MAX);
    lemma_varint_enc_len_u64(zigzag(x as int));
    lemma_varint_round_trip(zigzag(x as int), rest, 10, u64::MAX as nat);
    lemma_zigzag_inverse(x as int);
}

/// Any value up to `u128::MAX` fits in nineteen varint bytes.
pub proof fn lemma_varint_enc_len_u128(n: nat)
    requires
        n <= u128::MAX,
    ensures
        1 <= varint_enc(n).len() <= 19,
{
    assert(pow128(0) == 1);
    assert(pow128(1) == 128);
    assert(pow128(2) == 16384);
    assert(pow128(3) == 2097152);
    assert(pow128(4) == 268435456);
    assert(pow128(5) == 34359738368);
    assert(pow128(6) == 4398046511104);
    assert(pow128(7) == 562949953421312);
    assert(pow128(8) == 72057594037927936);
    assert(pow128(9) == 9223372036854775808);
    assert(pow128(10) == 1180591620717411303424);
    assert(pow128(11) == 151115727451828646838272);
    assert(pow128(12) == 19342813113834066795298816);
    assert(pow128(13) == 2475880078570760549798248448);
    assert(pow128(14) == 316912650057057350374175801344);
    assert(pow128(15) == 40564819207303340847894502572032);
    assert(pow128(16) == 5192296858534827628530496329220096);
    assert(pow128(17) == 664613997892457936451903530140172288);
    assert(pow128(18) == 85070591730234615865843651857942052864);
    assert(pow128(19) == 10889035741470030830827987437816582766592);
    lemma_varint_enc_len(n, 19);
}

/// The encoding of a `u128`: a varint of up to nineteen bytes.
pub open spec fn enc_u128(n: u128) -> Seq<u8> {
    varint_enc(n as nat)
}

/// Decode a `u128` varint.
pub open spec fn dec_u128(s: Seq<u8>) -> SpecDec<nat> {
    varint_dec(s, 19, u128::MAX as nat)
}

/// Append the varint encoding of a `u128` to the output.
pub fn encode_u128(out: &mut Vec<u8>, n: u128)
    ensures
        final(out)@ == old(out)@ + enc_u128(n),
    decreases n,
{
    if n < 128 {
        out.push(n as u8);
        proof {
            assert(out@ =~= old(out)@ + enc_u128(n));
        }
    } else {
        out.push((n % 128) as u8 + 128);
        encode_u128(out, n / 128);
        proof {
            assert((n % 128) as u8 + 128 == (128 + (n as nat) % 128) as u8);
            assert(out@ =~= old(out)@ + enc_u128(n));
        }
    }
}

/// Decode a varint from `bytes` at `pos` into a `u128`, reading at most
/// `fuel` more bytes.
fn decode_u128_at(bytes: &Vec<u8>, pos: usize, fuel: u32) -> (r: Result<
    (u128, usize),
    DecodeFailure,
>)
    requires
        pos <= bytes@.len(),
    ensures
        match r {
            Ok((v, next)) => varint_dec(bytes@.skip(pos as int), fuel as nat, u128::MAX as nat)
                == SpecDec::<nat>::Val(v as nat, next - pos) && pos < next <= bytes@.len(),
            Err(DecodeFailure::Incomplete) => varint_dec(bytes@.skip(pos as int), fuel as nat,
                u128::MAX as nat) == SpecDec::<nat>::More,
            Err(DecodeFailure::Malformed) => varint_dec(bytes@.skip(pos as int), fuel as nat,
                u128::MAX as nat) == SpecDec::<nat>::Bad,
        },
    decreases fuel,
{
    let ghost s = bytes@.skip(pos as int);
    if pos == bytes.len() {
        proof {
            assert(s.len() == 0);
        }
        return Err(DecodeFailure::Incomplete);
    }
    let b = bytes[pos];
    proof {
        assert(s[0] == b);
    }
    if b < 128 {
        Ok((b as u128, pos + 1))
    } else if fuel <= 1 {
        Err(DecodeFailure::Malformed)
    } else {
        proof {
            assert(s.drop_first() =~= bytes@.skip(pos + 1));
        }
        match decode_u128_at(bytes, pos + 1, fuel - 1) {
            Ok((v, next)) => {
                let low = (b - 128) as u128;
                if v <= (u128::MAX - low) / 128 {
                    proof {
                        vstd::arithmetic::div_mod::lemma_fundamental_div_mod(
                            u128::MAX - low,
                            128,
                        );
                    }
                    Ok((low + 128 * v, next))
                } else {
                    proof {
                        vstd::arithmetic::div_mod::lemma_fundamental_div_mod(
                            u128::MAX - low,
                            128,
                        );
                        assert(128 * v >= 128 * ((u128::MAX - low) / 128 + 1)) by (
                        nonlinear_arith)
                            requires
                                v >= (u128::MAX - low) / 128 + 1,
                        ;
                        assert((b - 128) + 128 * (v as nat) > u128::MAX);
                    }
                    Err(DecodeFailure::Malformed)
                }
            },
            Err(e) => Err(e),
        }
    }
}

/// Decode a `u128` varint from `bytes` at `pos`.
pub fn decode_u128(bytes: &Vec<u8>, pos: usize) -> (r: Result<(u128, usize), DecodeFailure>)
    requires
        pos <= bytes@.len(),
    ensures
        match r {
            Ok((v, next)) => dec_u128(bytes@.skip(pos as int)) == SpecDec::<nat>::Val(
                v as nat,
                next - pos,
            ) && pos < next <= bytes@.len(),
            Err(DecodeFailure::Incomplete) => dec_u128(bytes@.skip(pos as int))
                == SpecDec::<nat>::More,
            Err(DecodeFailure::Malformed) => dec_u128(bytes@.skip(pos as int))
                == SpecDec::<nat>::Bad,
        },
{
    decode_u128_at(bytes, pos, 19)
}

/// The encoding of a signed 128-bit integer: its zigzag value as a varint.
pub open spec fn enc_i128(x: i128) -> Seq<u8> {
    varint_enc(zigzag(x as int))
}

/// Decode a signed 128-bit integer.
pub open spec fn dec_i128(s: Seq<u8>) -> SpecDec<int> {
    match dec_u128(s) {
        SpecDec::Val(v, n) => SpecDec::Val(unzigzag(v), n),
        SpecDec::More => SpecDec::More,
        SpecDec::Bad => SpecDec::Bad,
    }
}

/// Append the encoding of a signed 128-bit integer to the output.
pub fn encode_i128(out: &mut Vec<u8>, x: i128)
    ensures
        final(out)@ == old(out)@ + enc_i128(x),
{
    let z: u128 = if x >= 0 {
        (x as u128) * 2
    } else {
        (-(x + 1)) as u128 * 2 + 1
    };
    proof {
        assert(z == zigzag(x as int));
    }
    encode_u128(out, z);
}

/// Decode a signed 128-bit integer from `bytes` at `pos`.
pub fn decode_i128(bytes: &Vec<u8>, pos: usize) -> (r: Result<(i128, usize), DecodeFailure>)
    requires
        pos <= bytes@.len(),
    ensures
        match r {
            Ok((v, next)) => dec_i128(bytes@.skip(pos as int)) == SpecDec::<int>::Val(
                v as int,
                next - pos,
            ) && pos < next <= bytes@.len(),
            Err(DecodeFailure::Incomplete) => dec_i128(bytes@.skip(pos as int))
                == SpecDec::<int>::More,
            Err(DecodeFailure::Malformed) => dec_i128(bytes@.skip(pos as int))
                == SpecDec::<int>::Bad,
        },
{
    match decode_u128(bytes, pos) {
        Ok((v, next)) => {
            let x: i128 = if v % 2 == 0 {
                (v / 2) as i128
            } else {
                -(((v - 1) / 2) as i128) - 1
            };
            proof {
                if v % 2 != 0 {
                    assert((v as int + 1) / 2 == (v as int - 1) / 2 + 1) by (nonlinear_arith)
                        requires
                            v % 2 == 1,
                    ;
                }
                assert(x as int == unzigzag(v as nat));
            }
            Ok((x, next))
        },
        Err(e) => Err(e),
    }
}

/// The little-endian byte rendering of a value in `k` bytes.
pub open spec fn le_bytes(v: nat, k: nat) -> Seq<u8>
    decreases k,
{
    if k == 0 {
        Seq::<u8>::empty()
    } else {
        seq![(v % 256) as u8] + le_bytes(v / 256, (k - 1) as nat)
    }
}

/// The value spelled by little-endian bytes.
pub open spec fn le_val(s: Seq<u8>) -> nat
    decreases s.len(),
{
    if s.len() == 0 {
        0
    } else {
        (s[0] + 256 * le_val(s.drop_first())) as nat
    }
}

/// Reading back the little-endian rendering of a small enough value
/// recovers it.
pub proof fn lemma_le_round_trip(v: nat, k: nat)
    requires
        v < pow256(k),
    ensures
        le_bytes(v, k).len() == k,
        le_val(le_bytes(v, k)) == v,
    decreases k,
{
    if k == 0 {
    } else {
        assert(v / 256 < pow256((k - 1) as nat)) by {
            assert(pow256(k) == 256 * pow256((k - 1) as nat));
            vstd::arithmetic::div_mod::lemma_multiply_divide_lt(v as int, 256,
                pow256((k - 1) as nat) as int);
        }
        lemma_le_round_trip(v / 256, (k - 1) as nat);
        let s = le_bytes(v, k);
        assert(s.drop_first() =~= le_bytes(v / 256, (k - 1) as nat));
        vstd::arithmetic::div_mod::lemma_fundamental_div_mod(v as int, 256);
    }
}

/// One power of 256 per byte.
pub open spec fn pow256(k: nat) -> nat
    decreases k,
{
    if k == 0 {
        1
    } else {
        256 * pow256((k - 1) as nat)
    }
}

/// The encoding of a 64-bit value in eight fixed bytes, little endian; used
/// for the bit pattern of a 64-bit float.
pub open spec fn enc_fixed8(v: u64) -> Seq<u8> {
    le_bytes(v as nat, 8)
}

/// Decode eight fixed little-endian bytes.
pub open spec fn dec_fixed8(s: Seq<u8>) -> SpecDec<nat> {
    if s.len() < 8 {
        SpecDec::More
    } else {
        SpecDec::Val(le_val(s.take(8)), 8)
    }
}

/// A little-endian rendering has exactly the requested length.
pub proof fn lemma_le_bytes_len(v: nat, k: nat)
    ensures
        le_bytes(v, k).len() == k,
    decreases k,
{
    if k > 0 {
        lemma_le_bytes_len(v / 256, (k - 1) as nat);
    }
}

/// Append eight fixed little-endian bytes to the output.
pub fn encode_fixed8(out: &mut Vec<u8>, v: u64)
    ensures
        final(out)@ == old(out)@ + enc_fixed8(v),
{
    let ghost prefix = out@;
    let ghost full = le_bytes(v as nat, 8);
    proof {
        lemma_le_bytes_len(v as nat, 8);
    }
    let mut rem: u64 = v;
    let mut k: usize = 0;
    while k < 8
        invariant
            k <= 8,
            full == le_bytes(v as nat, 8),
            full.len() == 8,
            full.skip(k as int) =~= le_bytes(rem as nat, (8 - k) as nat),
            out@ == prefix + full.take(k as int),
        decreases 8 - k,
    {
        out.push((rem % 256) as u8);
        proof {
            lemma_le_bytes_len(rem as nat, (8 - k) as nat);
            assert(le_bytes(rem as nat, (8 - k) as nat)[0] == (rem as nat % 256) as u8);
            assert(full.skip(k as int)[0] == full[k as int]);
            assert(full.take(k + 1) =~= full.take(k as int).push(full[k as int]));
            assert(out@ =~= prefix + full.take(k + 1));
            assert(le_bytes(rem as nat, (8 - k) as nat).drop_first() =~= le_bytes(
                (rem / 256) as nat, (8 - (k + 1)) as nat));
            assert(full.skip(k + 1) =~= full.skip(k as int).drop_first());
        }
        rem = rem / 256;
        k = k + 1;
    }
    proof {
        lemma_le_bytes_len(v as nat, 8);
        assert(full.take(8) =~= full);
    }
}

/// Decode eight fixed little-endian bytes from `bytes` at `pos`.
pub fn decode_fixed8(bytes: &Vec<u8>, pos: usize) -> (r: Result<(u64, usize), DecodeFailure>)
    requires
        pos <= bytes@.len(),
    ensures
        match r {
            Ok((v, next)) => dec_fixed8(bytes@.skip(pos as int)) == SpecDec::<nat>::Val(
                v as nat,
                next - pos,
            ) && pos < next <= bytes@.len(),
            Err(DecodeFailure::Incomplete) => dec_fixed8(bytes@.skip(pos as int))
                == SpecDec::<nat>::More,
            Err(DecodeFailure::Malformed) => false,
        },
{
    let ghost s = bytes@.skip(pos as int);
    if bytes.len() - pos < 8 {
        return Err(DecodeFailure::Incomplete);
    }
    let mut v: u64 = 0;
    let mut k: usize = 8;
    while k > 0
        invariant
            0 <= k <= 8,
            pos + 8 <= bytes@.len(),
            bytes@.len() <= usize::MAX,
            s == bytes@.skip(pos as int),
            v as nat == le_val(s.subrange(k as int, 8)),
            v < pow256((8 - k) as nat),
        decreases k,
    {
        proof {
            assert(pow256((8 - k) as nat + 1) == 256 * pow256((8 - k) as nat));
            assert(v as nat * 256 + 255 < 256 * pow256((8 - k) as nat)) by (nonlinear_arith)
                requires
                    v < pow256((8 - k) as nat),
            ;
            assert(pow256(8) == 18446744073709551616) by {
                assert(pow256(0) == 1);
                assert(pow256(1) == 256);
                assert(pow256(2) == 65536);
                assert(pow256(3) == 16777216);
                assert(pow256(4) == 4294967296);
                assert(pow256(5) == 1099511627776);
                assert(pow256(6) == 281474976710656);
                assert(pow256(7) == 72057594037927936);
            }
            assert(pow256((8 - k) as nat + 1) <= pow256(8)) by {
                lemma_pow256_increases((8 - k) as nat + 1, 8);
            }
        }
        k = k - 1;
        v = v * 256 + bytes[pos + k] as u64;
        proof {
            assert(s.subrange(k as int, 8).drop_first() =~= s.subrange(k + 1, 8));
            assert(s.subrange(k as int, 8)[0] == bytes@[pos + k]);
            assert(v as nat == bytes@[pos + k] + 256 * le_val(s.subrange(k + 1, 8)));
        }
    }
    proof {
        assert(s.subrange(0, 8) =~= s.take(8));
    }
    Ok((v, pos + 8))
}

/// Larger byte counts give at least as large a range.
pub proof fn lemma_pow256_increases(a: nat, b: nat)
    requires
        a <= b,
    ensures
        pow256(a) <= pow256(b),
    decreases b,
{
    if a < b {
        lemma_pow256_increases(a, (b - 1) as nat);
        assert(pow256(b) == 256 * pow256((b - 1) as nat));
        assert(pow256((b - 1) as nat) <= 256 * pow256((b - 1) as nat)) by (nonlinear_arith)
            requires
                pow256((b - 1) as nat) >= 0,
        ;
    }
}

/// The round-trip law for eight fixed bytes.
pub proof fn lemma_fixed8_round_trip(v: u64, rest: Seq<u8>)
    ensures
        dec_fixed8(enc_fixed8(v) + rest) == SpecDec::<nat>::Val(v as nat, 8),
{
    assert(pow256(8) == 18446744073709551616) by {
        assert(pow256(0) == 1);
        assert(pow256(1) == 256);
        assert(pow256(2) == 65536);
        assert(pow256(3) == 16777216);
        assert(pow256(4) == 4294967296);
        assert(pow256(5) == 1099511627776);
        assert(pow256(6) == 281474976710656);
        assert(pow256(7) == 72057594037927936);
    }
    lemma_le_round_trip(v as nat, 8);
    assert((enc_fixed8(v) + rest).take(8) =~= enc_fixed8(v));
}

/// The truncation law for byte strings: a strict prefix asks for more.
pub proof fn lemma_bytes_prefix(b: Seq<u8>, rest: Seq<u8>, k: int)
    requires
        b.len() <= usize::MAX,
        0 <= k < enc_bytes(b).len(),
    ensures
        dec_bytes((enc_bytes(b) + rest).take(k)) == SpecDec::<Seq<u8>>::More,
{
    let s = enc_bytes(b) + rest;
    let lenc = varint_enc(b.len());
    let n = lenc.len() as int;
    lemma_varint_enc_len_u64(b.len());
    if k < n {
        assert(s.take(k) =~= lenc.take(k));
        lemma_varint_prefix(b.len(), k, 10, u64::MAX as nat);
    } else {
        assert(s.take(k) =~= lenc + (b + rest).take(k - n));
        lemma_varint_round_trip(b.len(), (b + rest).take(k - n), 10, u64::MAX as nat);
        assert(dec_usize(s.take(k)) == SpecDec::<nat>::Val(b.len(), n));
        assert(s.take(k).len() - n < b.len());
    }
}

} // verus!
