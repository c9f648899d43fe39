//! Wire encodings of the data model.
//!
//! Every persisted type has a byte encoding built from the primitives in
//! [`crate::wire`]: integers as varints, strings length-prefixed, an enum
//! as its variant index followed by the payload, a struct as its fields in
//! order, and a vector as its length followed by its elements. Encodings
//! are specified over the mathematical views of the types; each decoder is
//! exact against its specification, and a round-trip law per type shows
//! that decoding an encoding recovers the value.

use vstd::prelude::*;

use crate::callsite::{Callsite, CallsiteId, CallsiteView};
use crate::common::{
    Event, EventView, Field, FieldName, FieldValue, FieldValueView, FieldView, InstrumentationId,
    Kind, Level, Parent, Span, SpanView, Task, TaskId, TaskKind, TaskKindView, TaskView, Waker,
};
use crate::wire::{
    dec_bool, dec_fixed8, dec_i128, dec_i64, dec_string, dec_u128, dec_u32, dec_u64, dec_usize,
    decode_bool, decode_fixed8, decode_i128, decode_i64, decode_string, decode_u128, decode_u32,
    decode_u64, decode_usize, enc_bool, enc_fixed8, enc_i128, enc_i64, enc_string, enc_u128,
    encode_fixed8, encode_i128, encode_i64, encode_str, encode_u128, encode_u64,
    lemma_fixed8_round_trip, lemma_i64_round_trip, lemma_string_round_trip, lemma_u64_round_trip,
    lemma_varint_enc_len_u128, lemma_varint_enc_len_u64, lemma_varint_round_trip,
    lemma_zigzag_inverse, varint_enc, zigzag, DecodeFailure, SpecDec,
};

verus! {

/// The concatenation of the encodings of a sequence of elements.
pub open spec fn concat_encs<T>(elems: Seq<T>, enc: spec_fn(T) -> Seq<u8>) -> Seq<u8>
    decreases elems.len(),
{
    if elems.len() == 0 {
        Seq::<u8>::empty()
    } else {
        enc(elems[0]) + concat_encs(elems.drop_first(), enc)
    }
}

/// The encoding of a vector: its length, then its elements.
pub open spec fn enc_vec<T>(elems: Seq<T>, enc: spec_fn(T) -> Seq<u8>) -> Seq<u8> {
    varint_enc(elems.len()) + concat_encs(elems, enc)
}

/// Decode exactly `n` elements from the front of `s`.
pub open spec fn dec_elems<T>(s: Seq<u8>, dec: spec_fn(Seq<u8>) -> SpecDec<T>, n: nat) -> SpecDec<
    Seq<T>,
>
    decreases n,
{
    if n == 0 {
        SpecDec::Val(Seq::<T>::empty(), 0)
    } else {
        match dec(s) {
            SpecDec::Val(v, used) => match dec_elems(s.skip(used), dec, (n - 1) as nat) {
                SpecDec::Val(vs, used2) => SpecDec::Val(seq![v] + vs, used + used2),
                SpecDec::More => SpecDec::More,
                SpecDec::Bad => SpecDec::Bad,
            },
            SpecDec::More => SpecDec::More,
            SpecDec::Bad => SpecDec::Bad,
        }
    }
}

/// Decode a length-prefixed vector from the front of `s`.
pub open spec fn dec_vec<T>(s: Seq<u8>, dec: spec_fn(Seq<u8>) -> SpecDec<T>) -> SpecDec<Seq<T>> {
    match dec_usize(s) {
        SpecDec::Val(n, used) => match dec_elems(s.skip(used), dec, n) {
            SpecDec::Val(vs, used2) => SpecDec::Val(vs, used + used2),
            SpecDec::More => SpecDec::More,
            SpecDec::Bad => SpecDec::Bad,
        },
        SpecDec::More => SpecDec::More,
        SpecDec::Bad => SpecDec::Bad,
    }
}

/// Appending an element appends its encoding.
pub proof fn lemma_concat_encs_push<T>(elems: Seq<T>, enc: spec_fn(T) -> Seq<u8>, x: T)
    ensures
        concat_encs(elems.push(x), enc) == concat_encs(elems, enc) + enc(x),
    decreases elems.len(),
{
    let p = elems.push(x);
    if elems.len() == 0 {
        assert(p[0] == x);
        assert(p.drop_first() =~= Seq::<T>::empty());
        assert(concat_encs(p.drop_first(), enc) == Seq::<u8>::empty());
        assert(concat_encs(p, enc) == enc(x) + concat_encs(p.drop_first(), enc));
        assert(concat_encs(elems, enc) == Seq::<u8>::empty());
        assert(concat_encs(p, enc) =~= concat_encs(elems, enc) + enc(x));
    } else {
        assert(p[0] == elems[0]);
        assert(p.drop_first() =~= elems.drop_first().push(x));
        lemma_concat_encs_push(elems.drop_first(), enc, x);
        assert(concat_encs(p, enc) == enc(elems[0]) + concat_encs(p.drop_first(), enc));
        assert(concat_encs(elems, enc) == enc(elems[0]) + concat_encs(elems.drop_first(), enc));
        assert(concat_encs(p, enc) =~= concat_encs(elems, enc) + enc(x));
    }
}

/// Decoding `n` encoded elements, followed by anything, yields exactly
/// those elements, provided each element's encoding decodes to it in front
/// of any continuation.
pub proof fn lemma_dec_elems_round_trip<T>(
    elems: Seq<T>,
    enc: spec_fn(T) -> Seq<u8>,
    dec: spec_fn(Seq<u8>) -> SpecDec<T>,
    rest: Seq<u8>,
)
    requires
        forall|i: int, r: Seq<u8>|
            0 <= i < elems.len() ==> #[trigger] dec(enc(elems[i]) + r) == SpecDec::Val(
                elems[i],
                enc(elems[i]).len() as int,
            ),
    ensures
        dec_elems(concat_encs(elems, enc) + rest, dec, elems.len()) == SpecDec::Val(
            elems,
            concat_encs(elems, enc).len() as int,
        ),
    decreases elems.len(),
{
    if elems.len() == 0 {
        assert(concat_encs(elems, enc) + rest =~= rest);
        assert(elems =~= Seq::<T>::empty());
    } else {
        let head = elems[0];
        let tail = elems.drop_first();
        let s = concat_encs(elems, enc) + rest;
        assert(s =~= enc(head) + (concat_encs(tail, enc) + rest));
        assert(dec(s) == SpecDec::Val(head, enc(head).len() as int));
        assert(s.skip(enc(head).len() as int) =~= concat_encs(tail, enc) + rest);
        assert(forall|i: int, r: Seq<u8>|
            0 <= i < tail.len() ==> #[trigger] dec(enc(tail[i]) + r) == SpecDec::Val(
                tail[i],
                enc(tail[i]).len() as int,
            )) by {
            assert(forall|i: int| 0 <= i < tail.len() ==> tail[i] == elems[i + 1]);
        }
        lemma_dec_elems_round_trip(tail, enc, dec, rest);
        assert(seq![head] + tail =~= elems);
    }
}

/// The round-trip law for vectors: decoding an encoded vector, followed by
/// anything, yields the vector.
pub proof fn lemma_dec_vec_round_trip<T>(
    elems: Seq<T>,
    enc: spec_fn(T) -> Seq<u8>,
    dec: spec_fn(Seq<u8>) -> SpecDec<T>,
    rest: Seq<u8>,
)
    requires
        elems.len() <= usize::MAX,
        forall|i: int, r: Seq<u8>|
            0 <= i < elems.len() ==> #[trigger] dec(enc(elems[i]) + r) == SpecDec::Val(
                elems[i],
                enc(elems[i]).len() as int,
            ),
    ensures
        dec_vec(enc_vec(elems, enc) + rest, dec) == SpecDec::Val(
            elems,
            enc_vec(elems, enc).len() as int,
        ),
{
    let lenc = varint_enc(elems.len());
    let s = enc_vec(elems, enc) + rest;
    assert(s =~= lenc + (concat_encs(elems, enc) + rest));
    lemma_varint_enc_len_u64(elems.len());
    lemma_varint_round_trip(elems.len(), concat_encs(elems, enc) + rest, 10, u64::MAX as nat);
    assert(s.skip(lenc.len() as int) =~= concat_encs(elems, enc) + rest);
    lemma_dec_elems_round_trip(elems, enc, dec, rest);
}

/// Skipping a leading part of a concatenation leaves the rest.
pub proof fn lemma_concat_skip<A>(a: Seq<A>, b: Seq<A>)
    ensures
        (a + b).skip(a.len() as int) == b,
{
    assert((a + b).skip(a.len() as int) =~= b);
}

/// Skipping twice skips the sum.
pub proof fn lemma_skip_add<A>(s: Seq<A>, a: int, b: int)
    requires
        0 <= a,
        0 <= b,
        a + b <= s.len(),
    ensures
        s.skip(a).skip(b) == s.skip(a + b),
{
    assert(s.skip(a).skip(b) =~= s.skip(a + b));
}

/// Whether a field value can be encoded: its string form must fit in
/// memory.
pub open spec fn wf_field_value(v: FieldValueView) -> bool {
    match v {
        FieldValueView::Str(t) => vstd::utf8::encode_utf8(t).len() <= usize::MAX,
        _ => true,
    }
}

/// The encoding of a field value: the variant index, then the payload.
pub open spec fn enc_field_value(v: FieldValueView) -> Seq<u8> {
    match v {
        FieldValueView::F64Bits(b) => varint_enc(0) + enc_fixed8(b),
        FieldValueView::I64(x) => varint_enc(1) + enc_i64(x),
        FieldValueView::U64(x) => varint_enc(2) + varint_enc(x as nat),
        FieldValueView::I128(x) => varint_enc(3) + enc_i128(x),
        FieldValueView::U128(x) => varint_enc(4) + enc_u128(x),
        FieldValueView::Bool(b) => varint_enc(5) + enc_bool(b),
        FieldValueView::Str(t) => varint_enc(6) + enc_string(t),
    }
}

/// Decode a field value.
pub open spec fn dec_field_value(s: Seq<u8>) -> SpecDec<FieldValueView> {
    match dec_u32(s) {
        SpecDec::Val(d, n) => {
            let t = s.skip(n);
            if d == 0 {
                match dec_fixed8(t) {
                    SpecDec::Val(b, m) => SpecDec::Val(FieldValueView::F64Bits(b as u64), n + m),
                    SpecDec::More => SpecDec::More,
                    SpecDec::Bad => SpecDec::Bad,
                }
            } else if d == 1 {
                match dec_i64(t) {
                    SpecDec::Val(x, m) => SpecDec::Val(FieldValueView::I64(x as i64), n + m),
                    SpecDec::More => SpecDec::More,
                    SpecDec::Bad => SpecDec::Bad,
                }
            } else if d == 2 {
                match dec_u64(t) {
                    SpecDec::Val(x, m) => SpecDec::Val(FieldValueView::U64(x as u64), n + m),
                    SpecDec::More => SpecDec::More,
                    SpecDec::Bad => SpecDec::Bad,
                }
            } else if d == 3 {
                match dec_i128(t) {
                    SpecDec::Val(x, m) => SpecDec::Val(FieldValueView::I128(x as i128), n + m),
                    SpecDec::More => SpecDec::More,
                    SpecDec::Bad => SpecDec::Bad,
                }
            } else if d == 4 {
                match dec_u128(t) {
                    SpecDec::Val(x, m) => SpecDec::Val(FieldValueView::U128(x as u128), n + m),
                    SpecDec::More => SpecDec::More,
                    SpecDec::Bad => SpecDec::Bad,
                }
            } else if d == 5 {
                match dec_bool(t) {
                    SpecDec::Val(b, m) => SpecDec::Val(FieldValueView::Bool(b), n + m),
                    SpecDec::More => SpecDec::More,
                    SpecDec::Bad => SpecDec::Bad,
                }
            } else if d == 6 {
                match dec_string(t) {
                    SpecDec::Val(cs, m) => SpecDec::Val(FieldValueView::Str(cs), n + m),
                    SpecDec::More => SpecDec::More,
                    SpecDec::Bad => SpecDec::Bad,
                }
            } else {
                SpecDec::Bad
            }
        },
        SpecDec::More => SpecDec::More,
        SpecDec::Bad => SpecDec::Bad,
    }
}

/// Append the encoding of a field value to the output.
pub fn encode_field_value(out: &mut Vec<u8>, v: &FieldValue)
    ensures
        final(out)@ == old(out)@ + enc_field_value(v@),
{
    match v {
        FieldValue::F64Bits(b) => {
            encode_u64(out, 0);
            encode_fixed8(out, *b);
        },
        FieldValue::I64(x) => {
            encode_u64(out, 1);
            encode_i64(out, *x);
        },
        FieldValue::U64(x) => {
            encode_u64(out, 2);
            encode_u64(out, *x);
        },
        FieldValue::I128(x) => {
            encode_u64(out, 3);
            encode_i128(out, *x);
        },
        FieldValue::U128(x) => {
            encode_u64(out, 4);
            encode_u128(out, *x);
        },
        FieldValue::Bool(b) => {
            encode_u64(out, 5);
            encode_bool_byte(out, *b);
        },
        FieldValue::Str(t) => {
            encode_u64(out, 6);
            encode_str(out, t.as_str());
        },
    }
    proof {
        assert(out@ =~= old(out)@ + enc_field_value(v@));
    }
}

/// Append the single-byte encoding of a boolean to the output.
pub fn encode_bool_byte(out: &mut Vec<u8>, b: bool)
    ensures
        final(out)@ == old(out)@ + enc_bool(b),
{
    if b {
        out.push(1);
    } else {
        out.push(0);
    }
    proof {
        assert(out@ =~= old(out)@ + enc_bool(b));
    }
}

/// Decode a field value from `bytes` at `pos`.
pub fn decode_field_value(bytes: &Vec<u8>, pos: usize) -> (r: Result<
    (FieldValue, usize),
    DecodeFailure,
>)
    requires
        pos <= bytes@.len(),
    ensures
        match r {
            Ok((v, next)) => dec_field_value(bytes@.skip(pos as int)) == SpecDec::Val(
                v@,
                next - pos,
            ) && pos <= next <= bytes@.len(),
            Err(DecodeFailure::Incomplete) => dec_field_value(bytes@.skip(pos as int))
                == SpecDec::<FieldValueView>::More,
            Err(DecodeFailure::Malformed) => dec_field_value(bytes@.skip(pos as int))
                == SpecDec::<FieldValueView>::Bad,
        },
{
    let ghost s = bytes@.skip(pos as int);
    let (d, mid) = match decode_u32(bytes, pos) {
        Ok(v) => v,
        Err(e) => {
            return Err(e);
        },
    };
    proof {
        assert(s.skip(mid - pos) =~= bytes@.skip(mid as int));
    }
    if d == 0 {
        match decode_fixed8(bytes, mid) {
            Ok((b, next)) => Ok((FieldValue::F64Bits(b), next)),
            Err(e) => Err(e),
        }
    } else if d == 1 {
        match decode_i64(bytes, mid) {
            Ok((x, next)) => Ok((FieldValue::I64(x), next)),
            Err(e) => Err(e),
        }
    } else if d == 2 {
        match decode_u64(bytes, mid) {
            Ok((x, next)) => Ok((FieldValue::U64(x), next)),
            Err(e) => Err(e),
        }
    } else if d == 3 {
        match decode_i128(bytes, mid) {
            Ok((x, next)) => Ok((FieldValue::I128(x), next)),
            Err(e) => Err(e),
        }
    } else if d == 4 {
        match decode_u128(bytes, mid) {
            Ok((x, next)) => Ok((FieldValue::U128(x), next)),
            Err(e) => Err(e),
        }
    } else if d == 5 {
        match decode_bool(bytes, mid) {
            Ok((b, next)) => Ok((FieldValue::Bool(b), next)),
            Err(e) => Err(e),
        }
    } else if d == 6 {
        match decode_string(bytes, mid) {
            Ok((t, next)) => Ok((FieldValue::Str(t), next)),
            Err(e) => Err(e),
        }
    } else {
        Err(DecodeFailure::Malformed)
    }
}

/// The round-trip law for field values.
pub proof fn lemma_field_value_round_trip(v: FieldValueView, rest: Seq<u8>)
    requires
        wf_field_value(v),
    ensures
        dec_field_value(enc_field_value(v) + rest) == SpecDec::Val(
            v,
            enc_field_value(v).len() as int,
        ),
{
    let s = enc_field_value(v) + rest;
    match v {
        FieldValueView::F64Bits(b) => {
            assert(s =~= varint_enc(0) + (enc_fixed8(b) + rest));
            lemma_varint_round_trip(0, enc_fixed8(b) + rest, 10, u64::MAX as nat);
            assert(s.skip(1) =~= enc_fixed8(b) + rest);
            lemma_fixed8_round_trip(b, rest);
            crate::wire::lemma_le_bytes_len(b as nat, 8);
        },
        FieldValueView::I64(x) => {
            assert(s =~= varint_enc(1) + (enc_i64(x) + rest));
            lemma_varint_round_trip(1, enc_i64(x) + rest, 10, u64::MAX as nat);
            assert(s.skip(1) =~= enc_i64(x) + rest);
            lemma_i64_round_trip(x, rest);
        },
        FieldValueView::U64(x) => {
            assert(s =~= varint_enc(2) + (varint_enc(x as nat) + rest));
            lemma_varint_round_trip(2, varint_enc(x as nat) + rest, 10, u64::MAX as nat);
            assert(s.skip(1) =~= varint_enc(x as nat) + rest);
            lemma_u64_round_trip(x, rest);
        },
        FieldValueView::I128(x) => {
            assert(s =~= varint_enc(3) + (enc_i128(x) + rest));
            lemma_varint_round_trip(3, enc_i128(x) + rest, 10, u64::MAX as nat);
            assert(s.skip(1) =~= enc_i128(x) + rest);
            assert(zigzag(x as int) <= u128::MAX);
            lemma_varint_enc_len_u128(zigzag(x as int));
            lemma_varint_round_trip(zigzag(x as int), rest, 19, u128::MAX as nat);
            lemma_zigzag_inverse(x as int);
        },
        FieldValueView::U128(x) => {
            assert(s =~= varint_enc(4) + (enc_u128(x) + rest));
            lemma_varint_round_trip(4, enc_u128(x) + rest, 10, u64::MAX as nat);
            assert(s.skip(1) =~= enc_u128(x) + rest);
            lemma_varint_enc_len_u128(x as nat);
            lemma_varint_round_trip(x as nat, rest, 19, u128::MAX as nat);
        },
        FieldValueView::Bool(b) => {
            assert(s =~= varint_enc(5) + (enc_bool(b) + rest));
            lemma_varint_round_trip(5, enc_bool(b) + rest, 10, u64::MAX as nat);
            assert(s.skip(1) =~= enc_bool(b) + rest);
            assert((enc_bool(b) + rest)[0] == enc_bool(b)[0]);
        },
        FieldValueView::Str(t) => {
            assert(s =~= varint_enc(6) + (enc_string(t) + rest));
            lemma_varint_round_trip(6, enc_string(t) + rest, 10, u64::MAX as nat);
            assert(s.skip(1) =~= enc_string(t) + rest);
            lemma_string_round_trip(t, rest);
        },
    }
}

/// Whether a field can be encoded.
pub open spec fn wf_field(f: FieldView) -> bool {
    vstd::utf8::encode_utf8(f.name).len() <= usize::MAX && wf_field_value(f.value)
}

/// The encoding of a complete field: its name, then its value.
pub open spec fn enc_field(f: FieldView) -> Seq<u8> {
    enc_string(f.name) + enc_field_value(f.value)
}

/// Decode a complete field.
pub open spec fn dec_field(s: Seq<u8>) -> SpecDec<FieldView> {
    match dec_string(s) {
        SpecDec::Val(name, n) => match dec_field_value(s.skip(n)) {
            SpecDec::Val(value, m) => SpecDec::Val(FieldView { name, value }, n + m),
            SpecDec::More => SpecDec::More,
            SpecDec::Bad => SpecDec::Bad,
        },
        SpecDec::More => SpecDec::More,
        SpecDec::Bad => SpecDec::Bad,
    }
}

/// Append the encoding of a complete field to the output.
pub fn encode_field(out: &mut Vec<u8>, f: &Field)
    ensures
        final(out)@ == old(out)@ + enc_field(f@),
{
    encode_str(out, f.name.0.as_str());
    encode_field_value(out, &f.value);
    proof {
        assert(out@ =~= old(out)@ + enc_field(f@));
    }
}

/// Decode a complete field from `bytes` at `pos`.
pub fn decode_field(bytes: &Vec<u8>, pos: usize) -> (r: Result<(Field, usize), DecodeFailure>)
    requires
        pos <= bytes@.len(),
    ensures
        match r {
            Ok((v, next)) => dec_field(bytes@.skip(pos as int)) == SpecDec::Val(v@, next - pos)
                && pos <= next <= bytes@.len(),
            Err(DecodeFailure::Incomplete) => dec_field(bytes@.skip(pos as int))
                == SpecDec::<FieldView>::More,
            Err(DecodeFailure::Malformed) => dec_field(bytes@.skip(pos as int))
                == SpecDec::<FieldView>::Bad,
        },
{
    let ghost s = bytes@.skip(pos as int);
    let (name, mid) = match decode_string(bytes, pos) {
        Ok(v) => v,
        Err(e) => {
            return Err(e);
        },
    };
    proof {
        assert(s.skip(mid - pos) =~= bytes@.skip(mid as int));
    }
    match decode_field_value(bytes, mid) {
        Ok((value, next)) => Ok((Field { name: FieldName(name), value }, next)),
        Err(e) => Err(e),
    }
}

/// The round-trip law for complete fields.
pub proof fn lemma_field_round_trip(f: FieldView, rest: Seq<u8>)
    requires
        wf_field(f),
    ensures
        dec_field(enc_field(f) + rest) == SpecDec::Val(f, enc_field(f).len() as int),
{
    let s = enc_field(f) + rest;
    assert(s =~= enc_string(f.name) + (enc_field_value(f.value) + rest));
    lemma_string_round_trip(f.name, enc_field_value(f.value) + rest);
    assert(s.skip(enc_string(f.name).len() as int) =~= enc_field_value(f.value) + rest);
    lemma_field_value_round_trip(f.value, rest);
}

/// Whether a list of fields can be encoded.
pub open spec fn wf_fields(fs: Seq<FieldView>) -> bool {
    fs.len() <= usize::MAX && forall|i: int| 0 <= i < fs.len() ==> wf_field(#[trigger] fs[i])
}

/// The encoding of a list of complete fields.
pub open spec fn enc_fields(fs: Seq<FieldView>) -> Seq<u8> {
    enc_vec(fs, |f: FieldView| enc_field(f))
}

/// Decode a list of complete fields.
pub open spec fn dec_fields(s: Seq<u8>) -> SpecDec<Seq<FieldView>> {
    dec_vec(s, |t: Seq<u8>| dec_field(t))
}

/// Append the encoding of a list of complete fields to the output.
#[verifier::loop_isolation(false)]
pub fn encode_fields(out: &mut Vec<u8>, fs: &Vec<Field>)
    ensures
        final(out)@ == old(out)@ + enc_fields(fs@.map_values(|f: Field| f@)),
{
    let ghost enc = |f: FieldView| enc_field(f);
    let ghost views = fs@.map_values(|f: Field| f@);
    encode_u64(out, fs.len() as u64);
    let ghost mid = out@;
    let mut i: usize = 0;
    while i < fs.len()
        invariant
            i <= fs@.len(),
            views == fs@.map_values(|f: Field| f@),
            mid == old(out)@ + varint_enc(views.len()),
            out@ == mid + concat_encs(views.take(i as int), enc),
        decreases fs@.len() - i,
    {
        encode_field(out, &fs[i]);
        proof {
            assert(views[i as int] == fs@[i as int]@);
            assert(views.take(i + 1) =~= views.take(i as int).push(views[i as int]));
            lemma_concat_encs_push(views.take(i as int), enc, views[i as int]);
            assert(out@ =~= mid + concat_encs(views.take(i + 1), enc));
        }
        i = i + 1;
    }
    proof {
        assert(views.take(views.len() as int) =~= views);
        assert(out@ =~= old(out)@ + enc_fields(views));
    }
}

/// Decode a list of complete fields from `bytes` at `pos`.
#[verifier::rlimit(50)]
#[verifier::loop_isolation(false)]
pub fn decode_fields(bytes: &Vec<u8>, pos: usize) -> (r: Result<(Vec<Field>, usize), DecodeFailure>)
    requires
        pos <= bytes@.len(),
    ensures
        match r {
            Ok((v, next)) => dec_fields(bytes@.skip(pos as int)) == SpecDec::Val(
                v@.map_values(|f: Field| f@),
                next - pos,
            ) && pos <= next <= bytes@.len(),
            Err(DecodeFailure::Incomplete) => dec_fields(bytes@.skip(pos as int))
                == SpecDec::<Seq<FieldView>>::More,
            Err(DecodeFailure::Malformed) => dec_fields(bytes@.skip(pos as int))
                == SpecDec::<Seq<FieldView>>::Bad,
        },
{
    let ghost dec = |t: Seq<u8>| dec_field(t);
    let ghost s = bytes@.skip(pos as int);
    let (n, mid) = match decode_usize(bytes, pos) {
        Ok(v) => v,
        Err(e) => {
            return Err(e);
        },
    };
    proof {
        assert(s.skip(mid - pos) =~= bytes@.skip(mid as int));
    }
    let mut v: Vec<Field> = Vec::new();
    let mut cur: usize = mid;
    let mut i: usize = 0;
    while i < n
        invariant
            i <= n,
            pos <= mid <= cur <= bytes@.len(),
            v@.len() == i,
            dec_usize(s) == SpecDec::<nat>::Val(n as nat, mid - pos),
            s == bytes@.skip(pos as int),
            dec_elems(bytes@.skip(mid as int), dec, n as nat) == (match dec_elems(
                bytes@.skip(cur as int),
                dec,
                (n - i) as nat,
            ) {
                SpecDec::Val(vs, used) => SpecDec::Val(
                    v@.map_values(|f: Field| f@) + vs,
                    (cur - mid) + used,
                ),
                SpecDec::More => SpecDec::<Seq<FieldView>>::More,
                SpecDec::Bad => SpecDec::<Seq<FieldView>>::Bad,
            }),
        decreases n - i,
    {
        let ghost pre = v@.map_values(|f: Field| f@);
        match decode_field(bytes, cur) {
            Ok((f, next)) => {
                proof {
                    assert(bytes@.skip(cur as int).skip(next - cur) =~= bytes@.skip(
                        next as int));
                    assert(dec_elems(bytes@.skip(cur as int), dec, (n - i) as nat) == (
                    match dec_elems(bytes@.skip(next as int), dec, (n - i - 1) as nat) {
                        SpecDec::Val(vs, used) => SpecDec::Val(
                            seq![f@] + vs,
                            (next - cur) + used,
                        ),
                        SpecDec::More => SpecDec::<Seq<FieldView>>::More,
                        SpecDec::Bad => SpecDec::<Seq<FieldView>>::Bad,
                    }));
                }
                v.push(f);
                proof {
                    assert(v@.map_values(|f2: Field| f2@) =~= pre.push(f@));
                    match dec_elems(bytes@.skip(next as int), dec, (n - i - 1) as nat) {
                        SpecDec::Val(vs, used) => {
                            assert(pre.push(f@) + vs =~= pre + (seq![f@] + vs));
                        },
                        SpecDec::More => {},
                        SpecDec::Bad => {},
                    }
                }
                cur = next;
            },
            Err(e) => {
                proof {
                    assert(bytes@.skip(mid as int) =~= s.skip(mid - pos));
                }
                return Err(e);
            },
        }
        i = i + 1;
    }
    proof {
        assert(dec_elems(bytes@.skip(cur as int), dec, 0) == SpecDec::<Seq<FieldView>>::Val(
            Seq::<FieldView>::empty(), 0));
        assert(v@.map_values(|f: Field| f@) + Seq::<FieldView>::empty() =~= v@.map_values(
            |f: Field| f@));
        assert(bytes@.skip(mid as int) =~= s.skip(mid - pos));
    }
    Ok((v, cur))
}

/// Whether a list of field names can be encoded.
pub open spec fn wf_field_names(ns: Seq<Seq<char>>) -> bool {
    ns.len() <= usize::MAX && forall|i: int|
        0 <= i < ns.len() ==> vstd::utf8::encode_utf8(#[trigger] ns[i]).len() <= usize::MAX
}

/// The encoding of a list of field names.
pub open spec fn enc_field_names(ns: Seq<Seq<char>>) -> Seq<u8> {
    enc_vec(ns, |n: Seq<char>| enc_string(n))
}

/// Decode a list of field names.
pub open spec fn dec_field_names(s: Seq<u8>) -> SpecDec<Seq<Seq<char>>> {
    dec_vec(s, |t: Seq<u8>| dec_string(t))
}

/// Append the encoding of a list of field names to the output.
#[verifier::loop_isolation(false)]
pub fn encode_field_names(out: &mut Vec<u8>, ns: &Vec<FieldName>)
    ensures
        final(out)@ == old(out)@ + enc_field_names(ns@.map_values(|n: FieldName| n@)),
{
    let ghost enc = |n: Seq<char>| enc_string(n);
    let ghost views = ns@.map_values(|n: FieldName| n@);
    encode_u64(out, ns.len() as u64);
    let ghost mid = out@;
    let mut i: usize = 0;
    while i < ns.len()
        invariant
            i <= ns@.len(),
            out@ == mid + concat_encs(views.take(i as int), enc),
        decreases ns@.len() - i,
    {
        encode_str(out, ns[i].0.as_str());
        proof {
            assert(views[i as int] == ns@[i as int]@);
            assert(views.take(i + 1) =~= views.take(i as int).push(views[i as int]));
            lemma_concat_encs_push(views.take(i as int), enc, views[i as int]);
            assert(out@ =~= mid + concat_encs(views.take(i + 1), enc));
        }
        i = i + 1;
    }
    proof {
        assert(views.take(views.len() as int) =~= views);
        assert(out@ =~= old(out)@ + enc_field_names(views));
    }
}

/// Decode a list of field names from `bytes` at `pos`.
#[verifier::rlimit(50)]
#[verifier::loop_isolation(false)]
pub fn decode_field_names(bytes: &Vec<u8>, pos: usize) -> (r: Result<
    (Vec<FieldName>, usize),
    DecodeFailure,
>)
    requires
        pos <= bytes@.len(),
    ensures
        match r {
            Ok((v, next)) => dec_field_names(bytes@.skip(pos as int)) == SpecDec::Val(
                v@.map_values(|n: FieldName| n@),
                next - pos,
            ) && pos <= next <= bytes@.len(),
            Err(DecodeFailure::Incomplete) => dec_field_names(bytes@.skip(pos as int))
                == SpecDec::<Seq<Seq<char>>>::More,
            Err(DecodeFailure::Malformed) => dec_field_names(bytes@.skip(pos as int))
                == SpecDec::<Seq<Seq<char>>>::Bad,
        },
{
    let ghost dec = |t: Seq<u8>| dec_string(t);
    let ghost s = bytes@.skip(pos as int);
    let (n, mid) = match decode_usize(bytes, pos) {
        Ok(v) => v,
        Err(e) => {
            return Err(e);
        },
    };
    proof {
        assert(s.skip(mid - pos) =~= bytes@.skip(mid as int));
    }
    let mut v: Vec<FieldName> = Vec::new();
    let mut cur: usize = mid;
    let mut i: usize = 0;
    while i < n
        invariant
            i <= n,
            pos <= mid <= cur <= bytes@.len(),
            v@.len() == i,
            dec_elems(bytes@.skip(mid as int), dec, n as nat) == (match dec_elems(
                bytes@.skip(cur as int),
                dec,
                (n - i) as nat,
            ) {
                SpecDec::Val(vs, used) => SpecDec::Val(
                    v@.map_values(|f: FieldName| f@) + vs,
                    (cur - mid) + used,
                ),
                SpecDec::More => SpecDec::<Seq<Seq<char>>>::More,
                SpecDec::Bad => SpecDec::<Seq<Seq<char>>>::Bad,
            }),
        decreases n - i,
    {
        let ghost pre = v@.map_values(|f: FieldName| f@);
        match decode_string(bytes, cur) {
            Ok((name, next)) => {
                proof {
                    assert(bytes@.skip(cur as int).skip(next - cur) =~= bytes@.skip(
                        next as int));
                    assert(dec_elems(bytes@.skip(cur as int), dec, (n - i) as nat) == (
                    match dec_elems(bytes@.skip(next as int), dec, (n - i - 1) as nat) {
                        SpecDec::Val(vs, used) => SpecDec::Val(
                            seq![name@] + vs,
                            (next - cur) + used,
                        ),
                        SpecDec::More => SpecDec::<Seq<Seq<char>>>::More,
                        SpecDec::Bad => SpecDec::<Seq<Seq<char>>>::Bad,
                    }));
                }
                v.push(FieldName(name));
                proof {
                    assert(v@.map_values(|f: FieldName| f@) =~= pre.push(v@.last()@));
                    match dec_elems(bytes@.skip(next as int), dec, (n - i - 1) as nat) {
                        SpecDec::Val(vs, used) => {
                            assert(pre.push(v@.last()@) + vs =~= pre + (seq![v@.last()@] + vs));
                        },
                        SpecDec::More => {},
                        SpecDec::Bad => {},
                    }
                }
                cur = next;
            },
            Err(e) => {
                return Err(e);
            },
        }
        i = i + 1;
    }
    proof {
        assert(dec_elems(bytes@.skip(cur as int), dec, 0) == SpecDec::<Seq<Seq<char>>>::Val(
            Seq::<Seq<char>>::empty(), 0));
        assert(v@.map_values(|f: FieldName| f@) + Seq::<Seq<char>>::empty() =~= v@.map_values(
            |f: FieldName| f@));
    }
    Ok((v, cur))
}

/// The round-trip law for lists of field names.
pub proof fn lemma_field_names_round_trip(ns: Seq<Seq<char>>, rest: Seq<u8>)
    requires
        wf_field_names(ns),
    ensures
        dec_field_names(enc_field_names(ns) + rest) == SpecDec::Val(
            ns,
            enc_field_names(ns).len() as int,
        ),
{
    let enc = |n: Seq<char>| enc_string(n);
    let dec = |t: Seq<u8>| dec_string(t);
    assert forall|i: int, r: Seq<u8>| 0 <= i < ns.len() implies #[trigger] dec(enc(ns[i]) + r)
        == SpecDec::Val(ns[i], enc(ns[i]).len() as int) by {
        lemma_string_round_trip(ns[i], r);
    }
    lemma_dec_vec_round_trip(ns, enc, dec, rest);
}

/// The round-trip law for lists of complete fields.
pub proof fn lemma_fields_round_trip(fs: Seq<FieldView>, rest: Seq<u8>)
    requires
        wf_fields(fs),
    ensures
        dec_fields(enc_fields(fs) + rest) == SpecDec::Val(fs, enc_fields(fs).len() as int),
{
    let enc = |f: FieldView| enc_field(f);
    let dec = |t: Seq<u8>| dec_field(t);
    assert(forall|i: int, r: Seq<u8>|
        0 <= i < fs.len() ==> #[trigger] dec(enc(fs[i]) + r) == SpecDec::Val(
            fs[i],
            enc(fs[i]).len() as int,
        )) by {
        assert forall|i: int, r: Seq<u8>| 0 <= i < fs.len() implies #[trigger] dec(enc(fs[i]) + r)
            == SpecDec::Val(fs[i], enc(fs[i]).len() as int) by {
            lemma_field_round_trip(fs[i], r);
        }
    }
    lemma_dec_vec_round_trip(fs, enc, dec, rest);
}

/// The encoding of an instrumentation id: its value as a varint.
pub open spec fn enc_iid(iid: InstrumentationId) -> Seq<u8> {
    varint_enc(iid.0 as nat)
}

/// Decode an instrumentation id.
pub open spec fn dec_iid(s: Seq<u8>) -> SpecDec<InstrumentationId> {
    match dec_u64(s) {
        SpecDec::Val(v, n) => SpecDec::Val(InstrumentationId(v as u64), n),
        SpecDec::More => SpecDec::More,
        SpecDec::Bad => SpecDec::Bad,
    }
}

/// Decode an instrumentation id from `bytes` at `pos`.
pub fn decode_iid(bytes: &Vec<u8>, pos: usize) -> (r: Result<
    (InstrumentationId, usize),
    DecodeFailure,
>)
    requires
        pos <= bytes@.len(),
    ensures
        match r {
            Ok((v, next)) => dec_iid(bytes@.skip(pos as int)) == SpecDec::Val(v, next - pos)
                && pos < next <= bytes@.len(),
            Err(DecodeFailure::Incomplete) => dec_iid(bytes@.skip(pos as int))
                == SpecDec::<InstrumentationId>::More,
            Err(DecodeFailure::Malformed) => dec_iid(bytes@.skip(pos as int))
                == SpecDec::<InstrumentationId>::Bad,
        },
{
    match decode_u64(bytes, pos) {
        Ok((v, next)) => Ok((InstrumentationId(v), next)),
        Err(e) => Err(e),
    }
}

/// The round-trip law for instrumentation ids.
pub proof fn lemma_iid_round_trip(iid: InstrumentationId, rest: Seq<u8>)
    ensures
        dec_iid(enc_iid(iid) + rest) == SpecDec::Val(iid, enc_iid(iid).len() as int),
{
    lemma_u64_round_trip(iid.0, rest);
}

/// The encoding of an optional instrumentation id: absent or present, then
/// the id.
pub open spec fn enc_opt_iid(o: Option<InstrumentationId>) -> Seq<u8> {
    match o {
        None => seq![0u8],
        Some(iid) => seq![1u8] + enc_iid(iid),
    }
}

/// Decode an optional instrumentation id.
pub open spec fn dec_opt_iid(s: Seq<u8>) -> SpecDec<Option<InstrumentationId>> {
    if s.len() == 0 {
        SpecDec::More
    } else if s[0] == 0 {
        SpecDec::Val(None, 1)
    } else if s[0] == 1 {
        match dec_iid(s.skip(1)) {
            SpecDec::Val(iid, n) => SpecDec::Val(Some(iid), 1 + n),
            SpecDec::More => SpecDec::More,
            SpecDec::Bad => SpecDec::Bad,
        }
    } else {
        SpecDec::Bad
    }
}

/// Append the encoding of an optional instrumentation id to the output.
pub fn encode_opt_iid(out: &mut Vec<u8>, o: &Option<InstrumentationId>)
    ensures
        final(out)@ == old(out)@ + enc_opt_iid(*o),
{
    match o {
        None => {
            out.push(0);
        },
        Some(iid) => {
            out.push(1);
            encode_u64(out, iid.0);
        },
    }
    proof {
        assert(out@ =~= old(out)@ + enc_opt_iid(*o));
    }
}

/// Decode an optional instrumentation id from `bytes` at `pos`.
pub fn decode_opt_iid(bytes: &Vec<u8>, pos: usize) -> (r: Result<
    (Option<InstrumentationId>, usize),
    DecodeFailure,
>)
    requires
        pos <= bytes@.len(),
    ensures
        match r {
            Ok((v, next)) => dec_opt_iid(bytes@.skip(pos as int)) == SpecDec::Val(v, next - pos)
                && pos < next <= bytes@.len(),
            Err(DecodeFailure::Incomplete) => dec_opt_iid(bytes@.skip(pos as int)) == SpecDec::<
                Option<InstrumentationId>,
            >::More,
            Err(DecodeFailure::Malformed) => dec_opt_iid(bytes@.skip(pos as int)) == SpecDec::<
                Option<InstrumentationId>,
            >::Bad,
        },
{
    let ghost s = bytes@.skip(pos as int);
    if pos == bytes.len() {
        proof {
            assert(s.len() == 0);
        }
        return Err(DecodeFailure::Incomplete);
    }
    let tag = bytes[pos];
    proof {
        assert(s[0] == tag);
        assert(s.skip(1) =~= bytes@.skip(pos + 1));
    }
    if tag == 0 {
        Ok((None, pos + 1))
    } else if tag == 1 {
        match decode_iid(bytes, pos + 1) {
            Ok((iid, next)) => Ok((Some(iid), next)),
            Err(e) => Err(e),
        }
    } else {
        Err(DecodeFailure::Malformed)
    }
}

/// The round-trip law for optional instrumentation ids.
pub proof fn lemma_opt_iid_round_trip(o: Option<InstrumentationId>, rest: Seq<u8>)
    ensures
        dec_opt_iid(enc_opt_iid(o) + rest) == SpecDec::Val(o, enc_opt_iid(o).len() as int),
{
    let s = enc_opt_iid(o) + rest;
    match o {
        None => {
            assert(s[0] == 0);
        },
        Some(iid) => {
            assert(s[0] == 1);
            assert(s.skip(1) =~= enc_iid(iid) + rest);
            lemma_iid_round_trip(iid, rest);
        },
    }
}

/// The encoding of a parent: the variant index, then the explicit id when
/// present.
pub open spec fn enc_parent(p: Parent) -> Seq<u8> {
    match p {
        Parent::Current => varint_enc(0),
        Parent::Root => varint_enc(1),
        Parent::Explicit { iid } => varint_enc(2) + enc_iid(iid),
    }
}

/// Decode a parent.
pub open spec fn dec_parent(s: Seq<u8>) -> SpecDec<Parent> {
    match dec_u32(s) {
        SpecDec::Val(d, n) => if d == 0 {
            SpecDec::Val(Parent::Current, n)
        } else if d == 1 {
            SpecDec::Val(Parent::Root, n)
        } else if d == 2 {
            match dec_iid(s.skip(n)) {
                SpecDec::Val(iid, m) => SpecDec::Val(Parent::Explicit { iid }, n + m),
                SpecDec::More => SpecDec::More,
                SpecDec::Bad => SpecDec::Bad,
            }
        } else {
            SpecDec::Bad
        },
        SpecDec::More => SpecDec::More,
        SpecDec::Bad => SpecDec::Bad,
    }
}

/// Append the encoding of a parent to the output.
pub fn encode_parent(out: &mut Vec<u8>, p: &Parent)
    ensures
        final(out)@ == old(out)@ + enc_parent(*p),
{
    match p {
        Parent::Current => {
            encode_u64(out, 0);
        },
        Parent::Root => {
            encode_u64(out, 1);
        },
        Parent::Explicit { iid } => {
            encode_u64(out, 2);
            encode_u64(out, iid.0);
        },
    }
    proof {
        assert(out@ =~= old(out)@ + enc_parent(*p));
    }
}

/// Decode a parent from `bytes` at `pos`.
pub fn decode_parent(bytes: &Vec<u8>, pos: usize) -> (r: Result<(Parent, usize), DecodeFailure>)
    requires
        pos <= bytes@.len(),
    ensures
        match r {
            Ok((v, next)) => dec_parent(bytes@.skip(pos as int)) == SpecDec::Val(v, next - pos)
                && pos < next <= bytes@.len(),
            Err(DecodeFailure::Incomplete) => dec_parent(bytes@.skip(pos as int))
                == SpecDec::<Parent>::More,
            Err(DecodeFailure::Malformed) => dec_parent(bytes@.skip(pos as int))
                == SpecDec::<Parent>::Bad,
        },
{
    let ghost s = bytes@.skip(pos as int);
    let (d, mid) = match decode_u32(bytes, pos) {
        Ok(v) => v,
        Err(e) => {
            return Err(e);
        },
    };
    proof {
        assert(s.skip(mid - pos) =~= bytes@.skip(mid as int));
    }
    if d == 0 {
        Ok((Parent::Current, mid))
    } else if d == 1 {
        Ok((Parent::Root, mid))
    } else if d == 2 {
        match decode_iid(bytes, mid) {
            Ok((iid, next)) => Ok((Parent::Explicit { iid }, next)),
            Err(e) => Err(e),
        }
    } else {
        Err(DecodeFailure::Malformed)
    }
}

/// The round-trip law for parents.
pub proof fn lemma_parent_round_trip(p: Parent, rest: Seq<u8>)
    ensures
        dec_parent(enc_parent(p) + rest) == SpecDec::Val(p, enc_parent(p).len() as int),
{
    let s = enc_parent(p) + rest;
    match p {
        Parent::Current => {
            assert(s =~= varint_enc(0) + rest);
            lemma_varint_round_trip(0, rest, 10, u64::MAX as nat);
        },
        Parent::Root => {
            assert(s =~= varint_enc(1) + rest);
            lemma_varint_round_trip(1, rest, 10, u64::MAX as nat);
        },
        Parent::Explicit { iid } => {
            assert(s =~= varint_enc(2) + (enc_iid(iid) + rest));
            lemma_varint_round_trip(2, enc_iid(iid) + rest, 10, u64::MAX as nat);
            assert(s.skip(1) =~= enc_iid(iid) + rest);
            lemma_iid_round_trip(iid, rest);
        },
    }
}

/// The encoding of a callsite kind: its variant index.
pub open spec fn enc_kind(k: Kind) -> Seq<u8> {
    match k {
        Kind::Unknown => varint_enc(0),
        Kind::Event => varint_enc(1),
        Kind::Span => varint_enc(2),
    }
}

/// Decode a callsite kind.
pub open spec fn dec_kind(s: Seq<u8>) -> SpecDec<Kind> {
    match dec_u32(s) {
        SpecDec::Val(d, n) => if d == 0 {
            SpecDec::Val(Kind::Unknown, n)
        } else if d == 1 {
            SpecDec::Val(Kind::Event, n)
        } else if d == 2 {
            SpecDec::Val(Kind::Span, n)
        } else {
            SpecDec::Bad
        },
        SpecDec::More => SpecDec::More,
        SpecDec::Bad => SpecDec::Bad,
    }
}

/// Append the encoding of a callsite kind to the output.
pub fn encode_kind(out: &mut Vec<u8>, k: &Kind)
    ensures
        final(out)@ == old(out)@ + enc_kind(*k),
{
    match k {
        Kind::Unknown => encode_u64(out, 0),
        Kind::Event => encode_u64(out, 1),
        Kind::Span => encode_u64(out, 2),
    }
}

/// Decode a callsite kind from `bytes` at `pos`.
pub fn decode_kind(bytes: &Vec<u8>, pos: usize) -> (r: Result<(Kind, usize), DecodeFailure>)
    requires
        pos <= bytes@.len(),
    ensures
        match r {
            Ok((v, next)) => dec_kind(bytes@.skip(pos as int)) == SpecDec::Val(v, next - pos)
                && pos < next <= bytes@.len(),
            Err(DecodeFailure::Incomplete) => dec_kind(bytes@.skip(pos as int))
                == SpecDec::<Kind>::More,
            Err(DecodeFailure::Malformed) => dec_kind(bytes@.skip(pos as int))
                == SpecDec::<Kind>::Bad,
        },
{
    let (d, next) = match decode_u32(bytes, pos) {
        Ok(v) => v,
        Err(e) => {
            return Err(e);
        },
    };
    if d == 0 {
        Ok((Kind::Unknown, next))
    } else if d == 1 {
        Ok((Kind::Event, next))
    } else if d == 2 {
        Ok((Kind::Span, next))
    } else {
        Err(DecodeFailure::Malformed)
    }
}

/// The round-trip law for callsite kinds.
pub proof fn lemma_kind_round_trip(k: Kind, rest: Seq<u8>)
    ensures
        dec_kind(enc_kind(k) + rest) == SpecDec::Val(k, enc_kind(k).len() as int),
{
    match k {
        Kind::Unknown => {
            lemma_varint_round_trip(0, rest, 10, u64::MAX as nat);
        },
        Kind::Event => {
            lemma_varint_round_trip(1, rest, 10, u64::MAX as nat);
        },
        Kind::Span => {
            lemma_varint_round_trip(2, rest, 10, u64::MAX as nat);
        },
    }
}

/// The encoding of a level: its single byte.
pub open spec fn enc_level(l: Level) -> Seq<u8> {
    seq![l.0]
}

/// Decode a level.
pub open spec fn dec_level(s: Seq<u8>) -> SpecDec<Level> {
    if s.len() == 0 {
        SpecDec::More
    } else {
        SpecDec::Val(Level(s[0]), 1)
    }
}

/// Decode a level from `bytes` at `pos`.
pub fn decode_level(bytes: &Vec<u8>, pos: usize) -> (r: Result<(Level, usize), DecodeFailure>)
    requires
        pos <= bytes@.len(),
    ensures
        match r {
            Ok((v, next)) => dec_level(bytes@.skip(pos as int)) == SpecDec::Val(v, next - pos)
                && pos < next <= bytes@.len(),
            Err(DecodeFailure::Incomplete) => dec_level(bytes@.skip(pos as int))
                == SpecDec::<Level>::More,
            Err(DecodeFailure::Malformed) => false,
        },
{
    if pos == bytes.len() {
        proof {
            assert(bytes@.skip(pos as int).len() == 0);
        }
        return Err(DecodeFailure::Incomplete);
    }
    proof {
        assert(bytes@.skip(pos as int)[0] == bytes@[pos as int]);
    }
    Ok((Level(bytes[pos]), pos + 1))
}

/// The round-trip law for levels.
pub proof fn lemma_level_round_trip(l: Level, rest: Seq<u8>)
    ensures
        dec_level(enc_level(l) + rest) == SpecDec::Val(l, 1),
{
    assert((enc_level(l) + rest)[0] == l.0);
}

/// The encoding of a waker: the woken task's id, then the operating task's
/// id when known.
pub open spec fn enc_waker(w: Waker) -> Seq<u8> {
    enc_iid(w.task_iid) + enc_opt_iid(w.context)
}

/// Decode a waker.
pub open spec fn dec_waker(s: Seq<u8>) -> SpecDec<Waker> {
    match dec_iid(s) {
        SpecDec::Val(task_iid, n) => match dec_opt_iid(s.skip(n)) {
            SpecDec::Val(context, m) => SpecDec::Val(Waker { task_iid, context }, n + m),
            SpecDec::More => SpecDec::More,
            SpecDec::Bad => SpecDec::Bad,
        },
        SpecDec::More => SpecDec::More,
        SpecDec::Bad => SpecDec::Bad,
    }
}

/// Append the encoding of a waker to the output.
pub fn encode_waker(out: &mut Vec<u8>, w: &Waker)
    ensures
        final(out)@ == old(out)@ + enc_waker(*w),
{
    encode_u64(out, w.task_iid.0);
    encode_opt_iid(out, &w.context);
    proof {
        assert(out@ =~= old(out)@ + enc_waker(*w));
    }
}

/// Decode a waker from `bytes` at `pos`.
pub fn decode_waker(bytes: &Vec<u8>, pos: usize) -> (r: Result<(Waker, usize), DecodeFailure>)
    requires
        pos <= bytes@.len(),
    ensures
        match r {
            Ok((v, next)) => dec_waker(bytes@.skip(pos as int)) == SpecDec::Val(v, next - pos)
                && pos < next <= bytes@.len(),
            Err(DecodeFailure::Incomplete) => dec_waker(bytes@.skip(pos as int))
                == SpecDec::<Waker>::More,
            Err(DecodeFailure::Malformed) => dec_waker(bytes@.skip(pos as int))
                == SpecDec::<Waker>::Bad,
        },
{
    let ghost s = bytes@.skip(pos as int);
    let (task_iid, mid) = match decode_iid(bytes, pos) {
        Ok(v) => v,
        Err(e) => {
            return Err(e);
        },
    };
    proof {
        assert(s.skip(mid - pos) =~= bytes@.skip(mid as int));
    }
    match decode_opt_iid(bytes, mid) {
        Ok((context, next)) => Ok((Waker { task_iid, context }, next)),
        Err(e) => Err(e),
    }
}

/// The round-trip law for wakers.
pub proof fn lemma_waker_round_trip(w: Waker, rest: Seq<u8>)
    ensures
        dec_waker(enc_waker(w) + rest) == SpecDec::Val(w, enc_waker(w).len() as int),
{
    let s = enc_waker(w) + rest;
    assert(s =~= enc_iid(w.task_iid) + (enc_opt_iid(w.context) + rest));
    lemma_iid_round_trip(w.task_iid, enc_opt_iid(w.context) + rest);
    assert(s.skip(enc_iid(w.task_iid).len() as int) =~= enc_opt_iid(w.context) + rest);
    lemma_opt_iid_round_trip(w.context, rest);
}

/// Whether a task kind can be encoded.
pub open spec fn wf_task_kind(k: TaskKindView) -> bool {
    match k {
        TaskKindView::Other(t) => vstd::utf8::encode_utf8(t).len() <= usize::MAX,
        _ => true,
    }
}

/// The encoding of a task kind: the variant index, then the name for other
/// kinds.
pub open spec fn enc_task_kind(k: TaskKindView) -> Seq<u8> {
    match k {
        TaskKindView::Task => varint_enc(0),
        TaskKindView::Local => varint_enc(1),
        TaskKindView::Blocking => varint_enc(2),
        TaskKindView::BlockOn => varint_enc(3),
        TaskKindView::Other(t) => varint_enc(4) + enc_string(t),
    }
}

/// Decode a task kind.
pub open spec fn dec_task_kind(s: Seq<u8>) -> SpecDec<TaskKindView> {
    match dec_u32(s) {
        SpecDec::Val(d, n) => if d == 0 {
            SpecDec::Val(TaskKindView::Task, n)
        } else if d == 1 {
            SpecDec::Val(TaskKindView::Local, n)
        } else if d == 2 {
            SpecDec::Val(TaskKindView::Blocking, n)
        } else if d == 3 {
            SpecDec::Val(TaskKindView::BlockOn, n)
        } else if d == 4 {
            match dec_string(s.skip(n)) {
                SpecDec::Val(t, m) => SpecDec::Val(TaskKindView::Other(t), n + m),
                SpecDec::More => SpecDec::More,
                SpecDec::Bad => SpecDec::Bad,
            }
        } else {
            SpecDec::Bad
        },
        SpecDec::More => SpecDec::More,
        SpecDec::Bad => SpecDec::Bad,
    }
}

/// Append the encoding of a task kind to the output.
pub fn encode_task_kind(out: &mut Vec<u8>, k: &TaskKind)
    ensures
        final(out)@ == old(out)@ + enc_task_kind(k@),
{
    match k {
        TaskKind::Task => encode_u64(out, 0),
        TaskKind::Local => encode_u64(out, 1),
        TaskKind::Blocking => encode_u64(out, 2),
        TaskKind::BlockOn => encode_u64(out, 3),
        TaskKind::Other(t) => {
            encode_u64(out, 4);
            encode_str(out, t.as_str());
        },
    }
    proof {
        assert(out@ =~= old(out)@ + enc_task_kind(k@));
    }
}

/// Decode a task kind from `bytes` at `pos`.
#[verifier::rlimit(80)]
pub fn decode_task_kind(bytes: &Vec<u8>, pos: usize) -> (r: Result<(TaskKind, usize), DecodeFailure>)
    requires
        pos <= bytes@.len(),
    ensures
        match r {
            Ok((v, next)) => dec_task_kind(bytes@.skip(pos as int)) == SpecDec::Val(
                v@,
                next - pos,
            ) && pos < next <= bytes@.len(),
            Err(DecodeFailure::Incomplete) => dec_task_kind(bytes@.skip(pos as int))
                == SpecDec::<TaskKindView>::More,
            Err(DecodeFailure::Malformed) => dec_task_kind(bytes@.skip(pos as int))
                == SpecDec::<TaskKindView>::Bad,
        },
{
    let ghost s = bytes@.skip(pos as int);
    let (d, mid) = match decode_u32(bytes, pos) {
        Ok(v) => v,
        Err(e) => {
            return Err(e);
        },
    };
    proof {
        assert(s.skip(mid - pos) =~= bytes@.skip(mid as int));
    }
    if d == 0 {
        Ok((TaskKind::Task, mid))
    } else if d == 1 {
        Ok((TaskKind::Local, mid))
    } else if d == 2 {
        Ok((TaskKind::Blocking, mid))
    } else if d == 3 {
        Ok((TaskKind::BlockOn, mid))
    } else if d == 4 {
        match decode_string(bytes, mid) {
            Ok((t, next)) => Ok((TaskKind::Other(t), next)),
            Err(e) => Err(e),
        }
    } else {
        Err(DecodeFailure::Malformed)
    }
}

/// Whether a list of field values can be encoded.
pub open spec fn wf_field_values(vs: Seq<FieldValueView>) -> bool {
    vs.len() <= usize::MAX && forall|i: int|
        0 <= i < vs.len() ==> wf_field_value(#[trigger] vs[i])
}

/// The encoding of a list of field values.
pub open spec fn enc_field_values(vs: Seq<FieldValueView>) -> Seq<u8> {
    enc_vec(vs, |v: FieldValueView| enc_field_value(v))
}

/// Decode a list of field values.
pub open spec fn dec_field_values(s: Seq<u8>) -> SpecDec<Seq<FieldValueView>> {
    dec_vec(s, |t: Seq<u8>| dec_field_value(t))
}

/// Append the encoding of a list of field values to the output.
#[verifier::loop_isolation(false)]
pub fn encode_field_values(out: &mut Vec<u8>, vs: &Vec<FieldValue>)
    ensures
        final(out)@ == old(out)@ + enc_field_values(vs@.map_values(|v: FieldValue| v@)),
{
    let ghost enc = |v: FieldValueView| enc_field_value(v);
    let ghost views = vs@.map_values(|v: FieldValue| v@);
    encode_u64(out, vs.len() as u64);
    let ghost mid = out@;
    let mut i: usize = 0;
    while i < vs.len()
        invariant
            i <= vs@.len(),
            out@ == mid + concat_encs(views.take(i as int), enc),
        decreases vs@.len() - i,
    {
        encode_field_value(out, &vs[i]);
        proof {
            assert(views[i as int] == vs@[i as int]@);
            assert(views.take(i + 1) =~= views.take(i as int).push(views[i as int]));
            lemma_concat_encs_push(views.take(i as int), enc, views[i as int]);
            assert(out@ =~= mid + concat_encs(views.take(i + 1), enc));
        }
        i = i + 1;
    }
    proof {
        assert(views.take(views.len() as int) =~= views);
        assert(out@ =~= old(out)@ + enc_field_values(views));
    }
}

/// Decode a list of field values from `bytes` at `pos`.
#[verifier::rlimit(50)]
#[verifier::loop_isolation(false)]
pub fn decode_field_values(bytes: &Vec<u8>, pos: usize) -> (r: Result<
    (Vec<FieldValue>, usize),
    DecodeFailure,
>)
    requires
        pos <= bytes@.len(),
    ensures
        match r {
            Ok((v, next)) => dec_field_values(bytes@.skip(pos as int)) == SpecDec::Val(
                v@.map_values(|x: FieldValue| x@),
                next - pos,
            ) && pos <= next <= bytes@.len(),
            Err(DecodeFailure::Incomplete) => dec_field_values(bytes@.skip(pos as int))
                == SpecDec::<Seq<FieldValueView>>::More,
            Err(DecodeFailure::Malformed) => dec_field_values(bytes@.skip(pos as int))
                == SpecDec::<Seq<FieldValueView>>::Bad,
        },
{
    let ghost dec = |t: Seq<u8>| dec_field_value(t);
    let ghost s = bytes@.skip(pos as int);
    let (n, mid) = match decode_usize(bytes, pos) {
        Ok(v) => v,
        Err(e) => {
            return Err(e);
        },
    };
    proof {
        assert(s.skip(mid - pos) =~= bytes@.skip(mid as int));
    }
    let mut v: Vec<FieldValue> = Vec::new();
    let mut cur: usize = mid;
    let mut i: usize = 0;
    while i < n
        invariant
            i <= n,
            pos <= mid <= cur <= bytes@.len(),
            v@.len() == i,
            dec_elems(bytes@.skip(mid as int), dec, n as nat) == (match dec_elems(
                bytes@.skip(cur as int),
                dec,
                (n - i) as nat,
            ) {
                SpecDec::Val(vs2, used) => SpecDec::Val(
                    v@.map_values(|x: FieldValue| x@) + vs2,
                    (cur - mid) + used,
                ),
                SpecDec::More => SpecDec::<Seq<FieldValueView>>::More,
                SpecDec::Bad => SpecDec::<Seq<FieldValueView>>::Bad,
            }),
        decreases n - i,
    {
        let ghost pre = v@.map_values(|x: FieldValue| x@);
        match decode_field_value(bytes, cur) {
            Ok((fv, next)) => {
                proof {
                    assert(bytes@.skip(cur as int).skip(next - cur) =~= bytes@.skip(
                        next as int));
                    assert(dec_elems(bytes@.skip(cur as int), dec, (n - i) as nat) == (
                    match dec_elems(bytes@.skip(next as int), dec, (n - i - 1) as nat) {
                        SpecDec::Val(vs2, used) => SpecDec::Val(
                            seq![fv@] + vs2,
                            (next - cur) + used,
                        ),
                        SpecDec::More => SpecDec::<Seq<FieldValueView>>::More,
                        SpecDec::Bad => SpecDec::<Seq<FieldValueView>>::Bad,
                    }));
                }
                v.push(fv);
                proof {
                    assert(v@.map_values(|x: FieldValue| x@) =~= pre.push(v@.last()@));
                    match dec_elems(bytes@.skip(next as int), dec, (n - i - 1) as nat) {
                        SpecDec::Val(vs2, used) => {
                            assert(pre.push(v@.last()@) + vs2 =~= pre + (seq![v@.last()@]
                                + vs2));
                        },
                        SpecDec::More => {},
                        SpecDec::Bad => {},
                    }
                }
                cur = next;
            },
            Err(e) => {
                return Err(e);
            },
        }
        i = i + 1;
    }
    proof {
        assert(dec_elems(bytes@.skip(cur as int), dec, 0)
            == SpecDec::<Seq<FieldValueView>>::Val(Seq::<FieldValueView>::empty(), 0));
        assert(v@.map_values(|x: FieldValue| x@) + Seq::<FieldValueView>::empty()
            =~= v@.map_values(|x: FieldValue| x@));
    }
    Ok((v, cur))
}

/// The round-trip law for lists of field values.
pub proof fn lemma_field_values_round_trip(vs: Seq<FieldValueView>, rest: Seq<u8>)
    requires
        wf_field_values(vs),
    ensures
        dec_field_values(enc_field_values(vs) + rest) == SpecDec::Val(
            vs,
            enc_field_values(vs).len() as int,
        ),
{
    let enc = |v: FieldValueView| enc_field_value(v);
    let dec = |t: Seq<u8>| dec_field_value(t);
    assert forall|i: int, r: Seq<u8>| 0 <= i < vs.len() implies #[trigger] dec(enc(vs[i]) + r)
        == SpecDec::Val(vs[i], enc(vs[i]).len() as int) by {
        lemma_field_value_round_trip(vs[i], r);
    }
    lemma_dec_vec_round_trip(vs, enc, dec, rest);
}

/// The round-trip law for task kinds.
pub proof fn lemma_task_kind_round_trip(k: TaskKindView, rest: Seq<u8>)
    requires
        wf_task_kind(k),
    ensures
        dec_task_kind(enc_task_kind(k) + rest) == SpecDec::Val(k, enc_task_kind(k).len() as int),
{
    let s = enc_task_kind(k) + rest;
    match k {
        TaskKindView::Task => {
            lemma_varint_round_trip(0, rest, 10, u64::MAX as nat);
        },
        TaskKindView::Local => {
            lemma_varint_round_trip(1, rest, 10, u64::MAX as nat);
        },
        TaskKindView::Blocking => {
            lemma_varint_round_trip(2, rest, 10, u64::MAX as nat);
        },
        TaskKindView::BlockOn => {
            lemma_varint_round_trip(3, rest, 10, u64::MAX as nat);
        },
        TaskKindView::Other(t) => {
            assert(s =~= varint_enc(4) + (enc_string(t) + rest));
            lemma_varint_round_trip(4, enc_string(t) + rest, 10, u64::MAX as nat);
            assert(s.skip(1) =~= enc_string(t) + rest);
            lemma_string_round_trip(t, rest);
        },
    }
}

/// Whether a task can be encoded.
pub open spec fn wf_task(t: TaskView) -> bool {
    vstd::utf8::encode_utf8(t.task_name).len() <= usize::MAX && wf_task_kind(t.task_kind)
}

/// The encoding of a task: its fields in order.
pub open spec fn enc_task(t: TaskView) -> Seq<u8> {
    enc_iid(t.iid) + varint_enc(t.callsite_id.0 as nat) + varint_enc(t.task_id.0 as nat)
        + enc_string(t.task_name) + enc_task_kind(t.task_kind) + enc_opt_iid(t.context)
}

/// Decode a task.
pub open spec fn dec_task(s: Seq<u8>) -> SpecDec<TaskView> {
    match dec_iid(s) {
        SpecDec::Val(iid, n1) => match dec_u64(s.skip(n1)) {
            SpecDec::Val(cs, n2) => match dec_u64(s.skip(n1 + n2)) {
                SpecDec::Val(tid, n3) => match dec_string(s.skip(n1 + n2 + n3)) {
                    SpecDec::Val(name, n4) => match dec_task_kind(s.skip(n1 + n2 + n3 + n4)) {
                        SpecDec::Val(kind, n5) => match dec_opt_iid(
                            s.skip(n1 + n2 + n3 + n4 + n5),
                        ) {
                            SpecDec::Val(context, n6) => SpecDec::Val(
                                TaskView {
                                    iid,
                                    callsite_id: CallsiteId(cs as u64),
                                    task_id: TaskId(tid as u64),
                                    task_name: name,
                                    task_kind: kind,
                                    context,
                                },
                                n1 + n2 + n3 + n4 + n5 + n6,
                            ),
                            SpecDec::More => SpecDec::More,
                            SpecDec::Bad => SpecDec::Bad,
                        },
                        SpecDec::More => SpecDec::More,
                        SpecDec::Bad => SpecDec::Bad,
                    },
                    SpecDec::More => SpecDec::More,
                    SpecDec::Bad => SpecDec::Bad,
                },
                SpecDec::More => SpecDec::More,
                SpecDec::Bad => SpecDec::Bad,
            },
            SpecDec::More => SpecDec::More,
            SpecDec::Bad => SpecDec::Bad,
        },
        SpecDec::More => SpecDec::More,
        SpecDec::Bad => SpecDec::Bad,
    }
}

/// Append the encoding of a task to the output.
pub fn encode_task(out: &mut Vec<u8>, t: &Task)
    ensures
        final(out)@ == old(out)@ + enc_task(t@),
{
    encode_u64(out, t.iid.0);
    encode_u64(out, t.callsite_id.0);
    encode_u64(out, t.task_id.0);
    encode_str(out, t.task_name.as_str());
    encode_task_kind(out, &t.task_kind);
    encode_opt_iid(out, &t.context);
    proof {
        assert(out@ =~= old(out)@ + enc_task(t@));
    }
}

/// Decode a task from `bytes` at `pos`.
pub fn decode_task(bytes: &Vec<u8>, pos: usize) -> (r: Result<(Task, usize), DecodeFailure>)
    requires
        pos <= bytes@.len(),
    ensures
        match r {
            Ok((v, next)) => dec_task(bytes@.skip(pos as int)) == SpecDec::Val(v@, next - pos)
                && pos < next <= bytes@.len(),
            Err(DecodeFailure::Incomplete) => dec_task(bytes@.skip(pos as int))
                == SpecDec::<TaskView>::More,
            Err(DecodeFailure::Malformed) => dec_task(bytes@.skip(pos as int))
                == SpecDec::<TaskView>::Bad,
        },
{
    let ghost s = bytes@.skip(pos as int);
    let (iid, p1) = match decode_iid(bytes, pos) {
        Ok(v) => v,
        Err(e) => {
            return Err(e);
        },
    };
    proof {
        assert(s.skip(p1 - pos) =~= bytes@.skip(p1 as int));
    }
    let (cs, p2) = match decode_u64(bytes, p1) {
        Ok(v) => v,
        Err(e) => {
            return Err(e);
        },
    };
    proof {
        assert(s.skip(p2 - pos) =~= bytes@.skip(p2 as int));
    }
    let (tid, p3) = match decode_u64(bytes, p2) {
        Ok(v) => v,
        Err(e) => {
            return Err(e);
        },
    };
    proof {
        assert(s.skip(p3 - pos) =~= bytes@.skip(p3 as int));
    }
    let (name, p4) = match decode_string(bytes, p3) {
        Ok(v) => v,
        Err(e) => {
            return Err(e);
        },
    };
    proof {
        assert(s.skip(p4 - pos) =~= bytes@.skip(p4 as int));
    }
    let (kind, p5) = match decode_task_kind(bytes, p4) {
        Ok(v) => v,
        Err(e) => {
            return Err(e);
        },
    };
    proof {
        assert(s.skip(p5 - pos) =~= bytes@.skip(p5 as int));
    }
    let (context, p6) = match decode_opt_iid(bytes, p5) {
        Ok(v) => v,
        Err(e) => {
            return Err(e);
        },
    };
    Ok(
        (
            Task {
                iid,
                callsite_id: CallsiteId(cs),
                task_id: TaskId(tid),
                task_name: name,
                task_kind: kind,
                context,
            },
            p6,
        ),
    )
}

/// The round-trip law for tasks.
#[verifier::rlimit(80)]
pub proof fn lemma_task_round_trip(t: TaskView, rest: Seq<u8>)
    requires
        wf_task(t),
    ensures
        dec_task(enc_task(t) + rest) == SpecDec::Val(t, enc_task(t).len() as int),
{
    let e1 = enc_iid(t.iid);
    let e2 = varint_enc(t.callsite_id.0 as nat);
    let e3 = varint_enc(t.task_id.0 as nat);
    let e4 = enc_string(t.task_name);
    let e5 = enc_task_kind(t.task_kind);
    let e6 = enc_opt_iid(t.context);
    let s6 = e6 + rest;
    let s5 = e5 + s6;
    let s4 = e4 + s5;
    let s3 = e3 + s4;
    let s2 = e2 + s3;
    let s = enc_task(t) + rest;
    vstd::seq_lib::lemma_concat_associative(e1 + e2 + e3 + e4 + e5, e6, rest);
    vstd::seq_lib::lemma_concat_associative(e1 + e2 + e3 + e4, e5, s6);
    vstd::seq_lib::lemma_concat_associative(e1 + e2 + e3, e4, s5);
    vstd::seq_lib::lemma_concat_associative(e1 + e2, e3, s4);
    vstd::seq_lib::lemma_concat_associative(e1, e2, s3);
    assert(s == e1 + s2);
    lemma_iid_round_trip(t.iid, s2);
    lemma_concat_skip(e1, s2);
    let n1 = e1.len() as int;
    assert(s.skip(n1) == s2);
    lemma_u64_round_trip(t.callsite_id.0, s3);
    lemma_concat_skip(e2, s3);
    lemma_skip_add(s, n1, e2.len() as int);
    let n2 = n1 + e2.len();
    assert(s.skip(n2) == s3);
    lemma_u64_round_trip(t.task_id.0, s4);
    lemma_concat_skip(e3, s4);
    lemma_skip_add(s, n2, e3.len() as int);
    let n3 = n2 + e3.len();
    assert(s.skip(n3) == s4);
    lemma_string_round_trip(t.task_name, s5);
    lemma_concat_skip(e4, s5);
    lemma_skip_add(s, n3, e4.len() as int);
    let n4 = n3 + e4.len();
    assert(s.skip(n4) == s5);
    lemma_task_kind_round_trip(t.task_kind, s6);
    lemma_concat_skip(e5, s6);
    lemma_skip_add(s, n4, e5.len() as int);
    let n5 = n4 + e5.len();
    assert(s.skip(n5) == s6);
    lemma_opt_iid_round_trip(t.context, rest);
}

/// Whether a span can be encoded.
pub open spec fn wf_span(v: SpanView) -> bool {
    wf_field_values(v.split_field_values) && wf_fields(v.dynamic_fields)
}

/// The encoding of a span: its fields in order.
pub open spec fn enc_span(v: SpanView) -> Seq<u8> {
    enc_iid(v.iid) + varint_enc(v.callsite_id.0 as nat) + enc_parent(v.parent) + enc_field_values(
        v.split_field_values) + enc_fields(v.dynamic_fields)
}

/// Decode a span.
pub open spec fn dec_span(s: Seq<u8>) -> SpecDec<SpanView> {
    match dec_iid(s) {
        SpecDec::Val(iid, n1) => match dec_u64(s.skip(n1)) {
            SpecDec::Val(cs, n2) => match dec_parent(s.skip(n1 + n2)) {
                SpecDec::Val(parent, n3) => match dec_field_values(s.skip(n1 + n2 + n3)) {
                    SpecDec::Val(values, n4) => match dec_fields(s.skip(n1 + n2 + n3 + n4)) {
                        SpecDec::Val(fields, n5) => SpecDec::Val(
                            SpanView {
                                iid,
                                callsite_id: CallsiteId(cs as u64),
                                parent,
                                split_field_values: values,
                                dynamic_fields: fields,
                            },
                            n1 + n2 + n3 + n4 + n5,
                        ),
                        SpecDec::More => SpecDec::More,
                        SpecDec::Bad => SpecDec::Bad,
                    },
                    SpecDec::More => SpecDec::More,
                    SpecDec::Bad => SpecDec::Bad,
                },
                SpecDec::More => SpecDec::More,
                SpecDec::Bad => SpecDec::Bad,
            },
            SpecDec::More => SpecDec::More,
            SpecDec::Bad => SpecDec::Bad,
        },
        SpecDec::More => SpecDec::More,
        SpecDec::Bad => SpecDec::Bad,
    }
}

/// Append the encoding of a span to the output.
pub fn encode_span(out: &mut Vec<u8>, v: &Span)
    ensures
        final(out)@ == old(out)@ + enc_span(v@),
{
    encode_u64(out, v.iid.0);
    encode_u64(out, v.callsite_id.0);
    encode_parent(out, &v.parent);
    encode_field_values(out, &v.split_field_values);
    encode_fields(out, &v.dynamic_fields);
    proof {
        assert(out@ =~= old(out)@ + enc_span(v@));
    }
}

/// Decode a span from `bytes` at `pos`.
#[verifier::rlimit(80)]
pub fn decode_span(bytes: &Vec<u8>, pos: usize) -> (r: Result<(Span, usize), DecodeFailure>)
    requires
        pos <= bytes@.len(),
    ensures
        match r {
            Ok((v, next)) => dec_span(bytes@.skip(pos as int)) == SpecDec::Val(v@, next - pos)
                && pos < next <= bytes@.len(),
            Err(DecodeFailure::Incomplete) => dec_span(bytes@.skip(pos as int))
                == SpecDec::<SpanView>::More,
            Err(DecodeFailure::Malformed) => dec_span(bytes@.skip(pos as int))
                == SpecDec::<SpanView>::Bad,
        },
{
    let ghost s = bytes@.skip(pos as int);
    let (iid, p1) = match decode_iid(bytes, pos) {
        Ok(v) => v,
        Err(e) => {
            return Err(e);
        },
    };
    proof {
        assert(s.skip(p1 - pos) =~= bytes@.skip(p1 as int));
    }
    let (cs, p2) = match decode_u64(bytes, p1) {
        Ok(v) => v,
        Err(e) => {
            return Err(e);
        },
    };
    proof {
        assert(s.skip(p2 - pos) =~= bytes@.skip(p2 as int));
    }
    let (parent, p3) = match decode_parent(bytes, p2) {
        Ok(v) => v,
        Err(e) => {
            return Err(e);
        },
    };
    proof {
        assert(s.skip(p3 - pos) =~= bytes@.skip(p3 as int));
    }
    let (values, p4) = match decode_field_values(bytes, p3) {
        Ok(v) => v,
        Err(e) => {
            return Err(e);
        },
    };
    proof {
        assert(s.skip(p4 - pos) =~= bytes@.skip(p4 as int));
    }
    let (fields, p5) = match decode_fields(bytes, p4) {
        Ok(v) => v,
        Err(e) => {
            return Err(e);
        },
    };
    Ok(
        (
            Span {
                iid,
                callsite_id: CallsiteId(cs),
                parent,
                split_field_values: values,
                dynamic_fields: fields,
            },
            p5,
        ),
    )
}

/// The round-trip law for spans.
#[verifier::rlimit(100)]
pub proof fn lemma_span_round_trip(v: SpanView, rest: Seq<u8>)
    requires
        wf_span(v),
    ensures
        dec_span(enc_span(v) + rest) == SpecDec::Val(v, enc_span(v).len() as int),
{
    let e1 = enc_iid(v.iid);
    let e2 = varint_enc(v.callsite_id.0 as nat);
    let e3 = enc_parent(v.parent);
    let e4 = enc_field_values(v.split_field_values);
    let e5 = enc_fields(v.dynamic_fields);
    let s5 = e5 + rest;
    let s4 = e4 + s5;
    let s3 = e3 + s4;
    let s2 = e2 + s3;
    let s = enc_span(v) + rest;
    vstd::seq_lib::lemma_concat_associative(e1 + e2 + e3 + e4, e5, rest);
    vstd::seq_lib::lemma_concat_associative(e1 + e2 + e3, e4, s5);
    vstd::seq_lib::lemma_concat_associative(e1 + e2, e3, s4);
    vstd::seq_lib::lemma_concat_associative(e1, e2, s3);
    assert(s == e1 + s2);
    lemma_iid_round_trip(v.iid, s2);
    lemma_concat_skip(e1, s2);
    let n1 = e1.len() as int;
    assert(s.skip(n1) == s2);
    lemma_u64_round_trip(v.callsite_id.0, s3);
    lemma_concat_skip(e2, s3);
    lemma_skip_add(s, n1, e2.len() as int);
    let n2 = n1 + e2.len();
    assert(s.skip(n2) == s3);
    lemma_parent_round_trip(v.parent, s4);
    lemma_concat_skip(e3, s4);
    lemma_skip_add(s, n2, e3.len() as int);
    let n3 = n2 + e3.len();
    assert(s.skip(n3) == s4);
    lemma_field_values_round_trip(v.split_field_values, s5);
    lemma_concat_skip(e4, s5);
    lemma_skip_add(s, n3, e4.len() as int);
    let n4 = n3 + e4.len();
    assert(s.skip(n4) == s5);
    lemma_fields_round_trip(v.dynamic_fields, rest);
}

/// Whether an event can be encoded.
pub open spec fn wf_event(v: EventView) -> bool {
    wf_field_values(v.split_field_values) && wf_fields(v.dynamic_fields)
}

/// The encoding of an event: its fields in order.
pub open spec fn enc_event(v: EventView) -> Seq<u8> {
    varint_enc(v.callsite_id.0 as nat) + enc_parent(v.parent) + enc_field_values(
        v.split_field_values) + enc_fields(v.dynamic_fields)
}

/// Decode an event.
pub open spec fn dec_event(s: Seq<u8>) -> SpecDec<EventView> {
    match dec_u64(s) {
        SpecDec::Val(cs, n1) => match dec_parent(s.skip(n1)) {
            SpecDec::Val(parent, n2) => match dec_field_values(s.skip(n1 + n2)) {
                SpecDec::Val(values, n3) => match dec_fields(s.skip(n1 + n2 + n3)) {
                    SpecDec::Val(fields, n4) => SpecDec::Val(
                        EventView {
                            callsite_id: CallsiteId(cs as u64),
                            parent,
                            split_field_values: values,
                            dynamic_fields: fields,
                        },
                        n1 + n2 + n3 + n4,
                    ),
                    SpecDec::More => SpecDec::More,
                    SpecDec::Bad => SpecDec::Bad,
                },
                SpecDec::More => SpecDec::More,
                SpecDec::Bad => SpecDec::Bad,
            },
            SpecDec::More => SpecDec::More,
            SpecDec::Bad => SpecDec::Bad,
        },
        SpecDec::More => SpecDec::More,
        SpecDec::Bad => SpecDec::Bad,
    }
}

/// Append the encoding of an event to the output.
pub fn encode_event(out: &mut Vec<u8>, v: &Event)
    ensures
        final(out)@ == old(out)@ + enc_event(v@),
{
    encode_u64(out, v.callsite_id.0);
    encode_parent(out, &v.parent);
    encode_field_values(out, &v.split_field_values);
    encode_fields(out, &v.dynamic_fields);
    proof {
        assert(out@ =~= old(out)@ + enc_event(v@));
    }
}

/// Decode an event from `bytes` at `pos`.
#[verifier::rlimit(80)]
pub fn decode_event(bytes: &Vec<u8>, pos: usize) -> (r: Result<(Event, usize), DecodeFailure>)
    requires
        pos <= bytes@.len(),
    ensures
        match r {
            Ok((v, next)) => dec_event(bytes@.skip(pos as int)) == SpecDec::Val(v@, next - pos)
                && pos < next <= bytes@.len(),
            Err(DecodeFailure::Incomplete) => dec_event(bytes@.skip(pos as int))
                == SpecDec::<EventView>::More,
            Err(DecodeFailure::Malformed) => dec_event(bytes@.skip(pos as int))
                == SpecDec::<EventView>::Bad,
        },
{
    let ghost s = bytes@.skip(pos as int);
    let (cs, p1) = match decode_u64(bytes, pos) {
        Ok(v) => v,
        Err(e) => {
            return Err(e);
        },
    };
    proof {
        assert(s.skip(p1 - pos) =~= bytes@.skip(p1 as int));
    }
    let (parent, p2) = match decode_parent(bytes, p1) {
        Ok(v) => v,
        Err(e) => {
            return Err(e);
        },
    };
    proof {
        assert(s.skip(p2 - pos) =~= bytes@.skip(p2 as int));
    }
    let (values, p3) = match decode_field_values(bytes, p2) {
        Ok(v) => v,
        Err(e) => {
            return Err(e);
        },
    };
    proof {
        assert(s.skip(p3 - pos) =~= bytes@.skip(p3 as int));
    }
    let (fields, p4) = match decode_fields(bytes, p3) {
        Ok(v) => v,
        Err(e) => {
            return Err(e);
        },
    };
    Ok(
        (
            Event {
                callsite_id: CallsiteId(cs),
                parent,
                split_field_values: values,
                dynamic_fields: fields,
            },
            p4,
        ),
    )
}

/// The round-trip law for events.
#[verifier::rlimit(100)]
#[verifier::spinoff_prover]
pub proof fn lemma_event_round_trip(v: EventView, rest: Seq<u8>)
    requires
        wf_event(v),
    ensures
        dec_event(enc_event(v) + rest) == SpecDec::Val(v, enc_event(v).len() as int),
{
    let e1 = varint_enc(v.callsite_id.0 as nat);
    let e2 = enc_parent(v.parent);
    let e3 = enc_field_values(v.split_field_values);
    let e4 = enc_fields(v.dynamic_fields);
    let s = enc_event(v) + rest;
    assert(s =~= e1 + (e2 + (e3 + (e4 + rest))));
    lemma_u64_round_trip(v.callsite_id.0, e2 + (e3 + (e4 + rest)));
    assert(s.skip(e1.len() as int) =~= e2 + (e3 + (e4 + rest)));
    lemma_parent_round_trip(v.parent, e3 + (e4 + rest));
    assert(s.skip((e1.len() + e2.len()) as int) =~= e3 + (e4 + rest));
    lemma_field_values_round_trip(v.split_field_values, e4 + rest);
    assert(s.skip((e1.len() + e2.len() + e3.len()) as int) =~= e4 + rest);
    lemma_fields_round_trip(v.dynamic_fields, rest);
}

/// Whether a callsite can be encoded.
pub open spec fn wf_callsite(c: CallsiteView) -> bool {
    wf_fields(c.const_fields) && wf_field_names(c.split_field_names)
}

/// The encoding of a callsite: its fields in order.
pub open spec fn enc_callsite(c: CallsiteView) -> Seq<u8> {
    varint_enc(c.callsite_id.0 as nat) + enc_level(c.level) + enc_kind(c.kind) + enc_fields(
        c.const_fields) + enc_field_names(c.split_field_names)
}

/// Decode a callsite.
#[verifier::opaque]
pub open spec fn dec_callsite(s: Seq<u8>) -> SpecDec<CallsiteView> {
    match dec_u64(s) {
        SpecDec::Val(cs, n1) => match dec_level(s.skip(n1)) {
            SpecDec::Val(level, n2) => match dec_kind(s.skip(n1 + n2)) {
                SpecDec::Val(kind, n3) => match dec_fields(s.skip(n1 + n2 + n3)) {
                    SpecDec::Val(fields, n4) => match dec_field_names(
                        s.skip(n1 + n2 + n3 + n4),
                    ) {
                        SpecDec::Val(names, n5) => SpecDec::Val(
                            CallsiteView {
                                callsite_id: CallsiteId(cs as u64),
                                level,
                                kind,
                                const_fields: fields,
                                split_field_names: names,
                            },
                            n1 + n2 + n3 + n4 + n5,
                        ),
                        SpecDec::More => SpecDec::More,
                        SpecDec::Bad => SpecDec::Bad,
                    },
                    SpecDec::More => SpecDec::More,
                    SpecDec::Bad => SpecDec::Bad,
                },
                SpecDec::More => SpecDec::More,
                SpecDec::Bad => SpecDec::Bad,
            },
            SpecDec::More => SpecDec::More,
            SpecDec::Bad => SpecDec::Bad,
        },
        SpecDec::More => SpecDec::More,
        SpecDec::Bad => SpecDec::Bad,
    }
}

/// Append the encoding of a callsite to the output.
pub fn encode_callsite(out: &mut Vec<u8>, c: &Callsite)
    ensures
        final(out)@ == old(out)@ + enc_callsite(c@),
{
    encode_u64(out, c.callsite_id.0);
    out.push(c.level.0);
    encode_kind(out, &c.kind);
    encode_fields(out, &c.const_fields);
    encode_field_names(out, &c.split_field_names);
    proof {
        assert(out@ =~= old(out)@ + enc_callsite(c@));
    }
}

/// Decode a callsite from `bytes` at `pos`.
#[verifier::rlimit(80)]
pub fn decode_callsite(bytes: &Vec<u8>, pos: usize) -> (r: Result<(Callsite, usize), DecodeFailure>)
    requires
        pos <= bytes@.len(),
    ensures
        match r {
            Ok((v, next)) => dec_callsite(bytes@.skip(pos as int)) == SpecDec::Val(
                v@,
                next - pos,
            ) && pos < next <= bytes@.len(),
            Err(DecodeFailure::Incomplete) => dec_callsite(bytes@.skip(pos as int))
                == SpecDec::<CallsiteView>::More,
            Err(DecodeFailure::Malformed) => dec_callsite(bytes@.skip(pos as int))
                == SpecDec::<CallsiteView>::Bad,
        },
{
    proof {
        reveal(dec_callsite);
    }
    let ghost s = bytes@.skip(pos as int);
    let (cs, p1) = match decode_u64(bytes, pos) {
        Ok(v) => v,
        Err(e) => {
            return Err(e);
        },
    };
    proof {
        assert(s.skip(p1 - pos) =~= bytes@.skip(p1 as int));
    }
    let (level, p2) = match decode_level(bytes, p1) {
        Ok(v) => v,
        Err(e) => {
            return Err(e);
        },
    };
    proof {
        assert(s.skip(p2 - pos) =~= bytes@.skip(p2 as int));
    }
    let (kind, p3) = match decode_kind(bytes, p2) {
        Ok(v) => v,
        Err(e) => {
            return Err(e);
        },
    };
    proof {
        assert(s.skip(p3 - pos) =~= bytes@.skip(p3 as int));
    }
    let (fields, p4) = match decode_fields(bytes, p3) {
        Ok(v) => v,
        Err(e) => {
            return Err(e);
        },
    };
    proof {
        assert(s.skip(p4 - pos) =~= bytes@.skip(p4 as int));
    }
    let (names, p5) = match decode_field_names(bytes, p4) {
        Ok(v) => v,
        Err(e) => {
            return Err(e);
        },
    };
    Ok(
        (
            Callsite {
                callsite_id: CallsiteId(cs),
                level,
                kind,
                const_fields: fields,
                split_field_names: names,
            },
            p5,
        ),
    )
}

/// The round-trip law for callsites.
#[verifier::rlimit(100)]
#[verifier::spinoff_prover]
pub proof fn lemma_callsite_round_trip(c: CallsiteView, rest: Seq<u8>)
    requires
        wf_callsite(c),
    ensures
        dec_callsite(enc_callsite(c) + rest) == SpecDec::Val(c, enc_callsite(c).len() as int),
{
    reveal(dec_callsite);
    let e1 = varint_enc(c.callsite_id.0 as nat);
    let e2 = enc_level(c.level);
    let e3 = enc_kind(c.kind);
    let e4 = enc_fields(c.const_fields);
    let e5 = enc_field_names(c.split_field_names);
    let s = enc_callsite(c) + rest;
    assert(s =~= e1 + (e2 + (e3 + (e4 + (e5 + rest)))));
    lemma_u64_round_trip(c.callsite_id.0, e2 + (e3 + (e4 + (e5 + rest))));
    assert(s.skip(e1.len() as int) =~= e2 + (e3 + (e4 + (e5 + rest))));
    lemma_level_round_trip(c.level, e3 + (e4 + (e5 + rest)));
    assert(s.skip((e1.len() + e2.len()) as int) =~= e3 + (e4 + (e5 + rest)));
    lemma_kind_round_trip(c.kind, e4 + (e5 + rest));
    assert(s.skip((e1.len() + e2.len() + e3.len()) as int) =~= e4 + (e5 + rest));
    lemma_fields_round_trip(c.const_fields, e5 + rest);
    assert(s.skip((e1.len() + e2.len() + e3.len() + e4.len()) as int) =~= e5 + rest);
    lemma_field_names_round_trip(c.split_field_names, rest);
}

} // verus!
