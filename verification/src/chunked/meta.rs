//! Chunked recording metadata.
//!
//! The meta file holds the recording's creation time and the format
//! identifiers used by the rest of the recording. Software that is going to
//! read a recording checks that it can read all parts before beginning.

use vstd::prelude::*;

use crate::codec::{
    concat_encs, dec_elems, dec_vec, enc_vec, lemma_concat_encs_push, lemma_concat_skip,
    lemma_dec_vec_round_trip, lemma_skip_add,
};
use crate::identifier::{
    can_read_spec, dec_format_identifier, enc_format_identifier, encode_format_identifier,
    lemma_format_identifier_wire_round_trip, FormatIdentifier, FormatVariant,
    ReadFormatIdentifierError,
};
use crate::timestamp::AbsTimestamp;
use crate::wire::{
    dec_u32, dec_u64, decode_u32, decode_u64, encode_u64, lemma_varint_round_trip, varint_enc,
    DecodeFailure, SpecDec,
};

verus! {

/// The format identifier this library writes meta files under.
pub open spec fn version_spec() -> FormatIdentifier {
    FormatIdentifier { variant: FormatVariant::RfrChunkedMeta, major: 0, minor: 0, patch: 1 }
}

/// The format identifier for the meta file.
pub fn version() -> (r: FormatIdentifier)
    ensures
        r == version_spec(),
{
    FormatIdentifier { variant: FormatVariant::RfrChunkedMeta, major: 0, minor: 0, patch: 1 }
}

/// Meta file contents.
///
/// The metadata for a recording includes the time that the recording was
/// created, and the list of format identifiers that may be used in the
/// recording.
#[derive(Debug, Clone, PartialEq)]
pub struct ChunkedMeta {
    /// Format identifier for the meta file itself.
    pub format_identifier: FormatIdentifier,
    /// Meta file header.
    pub header: ChunkedMetaHeader,
}

/// Header for the chunked recording meta file.
#[derive(Debug, Clone, PartialEq)]
pub struct ChunkedMetaHeader {
    /// The time that this recording was created.
    pub created_time: AbsTimestamp,
    /// All the format identifiers used in this chunked recording.
    pub format_identifiers: Vec<FormatIdentifier>,
}

/// The mathematical value of the meta file contents.
pub struct ChunkedMetaView {
    /// Format identifier for the meta file itself.
    pub format_identifier: FormatIdentifier,
    /// The time that this recording was created.
    pub created_time: AbsTimestamp,
    /// All the format identifiers used in this chunked recording.
    pub format_identifiers: Seq<FormatIdentifier>,
}

impl View for ChunkedMeta {
    type V = ChunkedMetaView;

    open spec fn view(&self) -> ChunkedMetaView {
        ChunkedMetaView {
            format_identifier: self.format_identifier,
            created_time: self.header.created_time,
            format_identifiers: self.header.format_identifiers@,
        }
    }
}

impl ChunkedMeta {
    /// Create new meta file contents with the provided creation time and
    /// format identifiers.
    ///
    /// At least the chunk format's identifier must be supplied.
    pub fn new(created_time: AbsTimestamp, format_identifiers: Vec<FormatIdentifier>) -> (r:
        ChunkedMeta)
        requires
            format_identifiers@.len() >= 1,
        ensures
            r@.format_identifier == version_spec(),
            r@.created_time == created_time,
            r@.format_identifiers == format_identifiers@,
    {
        ChunkedMeta {
            format_identifier: version(),
            header: ChunkedMetaHeader { created_time, format_identifiers },
        }
    }
}

/// The encoding of an absolute timestamp: seconds, then sub-second
/// microseconds.
pub open spec fn enc_abs_timestamp(t: AbsTimestamp) -> Seq<u8> {
    varint_enc(t.secs as nat) + varint_enc(t.subsec_micros as nat)
}

/// Decode an absolute timestamp.
pub open spec fn dec_abs_timestamp(s: Seq<u8>) -> SpecDec<AbsTimestamp> {
    match dec_u64(s) {
        SpecDec::Val(secs, n1) => match dec_u32(s.skip(n1)) {
            SpecDec::Val(sub, n2) => SpecDec::Val(
                AbsTimestamp { secs: secs as u64, subsec_micros: sub as u32 },
                n1 + n2,
            ),
            SpecDec::More => SpecDec::More,
            SpecDec::Bad => SpecDec::Bad,
        },
        SpecDec::More => SpecDec::More,
        SpecDec::Bad => SpecDec::Bad,
    }
}

/// Append the encoding of an absolute timestamp to the output.
pub fn encode_abs_timestamp(out: &mut Vec<u8>, t: &AbsTimestamp)
    ensures
        final(out)@ == old(out)@ + enc_abs_timestamp(*t),
{
    encode_u64(out, t.secs);
    encode_u64(out, t.subsec_micros as u64);
    proof {
        assert(out@ =~= old(out)@ + enc_abs_timestamp(*t));
    }
}

/// Decode an absolute timestamp from `bytes` at `pos`.
pub fn decode_abs_timestamp(bytes: &Vec<u8>, pos: usize) -> (r: Result<
    (AbsTimestamp, usize),
    DecodeFailure,
>)
    requires
        pos <= bytes@.len(),
    ensures
        match r {
            Ok((v, next)) => dec_abs_timestamp(bytes@.skip(pos as int)) == SpecDec::Val(
                v,
                next - pos,
            ) && pos < next <= bytes@.len(),
            Err(DecodeFailure::Incomplete) => dec_abs_timestamp(bytes@.skip(pos as int))
                == SpecDec::<AbsTimestamp>::More,
            Err(DecodeFailure::Malformed) => dec_abs_timestamp(bytes@.skip(pos as int))
                == SpecDec::<AbsTimestamp>::Bad,
        },
{
    let ghost s = bytes@.skip(pos as int);
    let (secs, p1) = match decode_u64(bytes, pos) {
        Ok(v) => v,
        Err(e) => {
            return Err(e);
        },
    };
    proof {
        assert(s.skip(p1 - pos) =~= bytes@.skip(p1 as int));
    }
    let (sub, p2) = match decode_u32(bytes, p1) {
        Ok(v) => v,
        Err(e) => {
            return Err(e);
        },
    };
    Ok((AbsTimestamp { secs, subsec_micros: sub }, p2))
}

/// The round-trip law for absolute timestamps.
pub proof fn lemma_abs_timestamp_round_trip(t: AbsTimestamp, rest: Seq<u8>)
    requires
        t.is_valid(),
    ensures
        dec_abs_timestamp(enc_abs_timestamp(t) + rest) == SpecDec::Val(
            t,
            enc_abs_timestamp(t).len() as int,
        ),
{
    let e1 = varint_enc(t.secs as nat);
    let e2 = varint_enc(t.subsec_micros as nat);
    let s = enc_abs_timestamp(t) + rest;
    vstd::seq_lib::lemma_concat_associative(e1, e2, rest);
    assert(s == e1 + (e2 + rest));
    crate::wire::lemma_u64_round_trip(t.secs, e2 + rest);
    lemma_concat_skip(e1, e2 + rest);
    crate::wire::lemma_u64_round_trip(t.subsec_micros as u64, rest);
}

/// The encoding of the meta file: its own identifier, then the creation
/// time and the recording's identifiers.
pub open spec fn enc_chunked_meta(v: ChunkedMetaView) -> Seq<u8> {
    enc_format_identifier(v.format_identifier) + enc_abs_timestamp(v.created_time) + enc_vec(
        v.format_identifiers,
        |id: FormatIdentifier| enc_format_identifier(id),
    )
}

/// An error returned when attempting to read a recording meta file.
#[derive(Debug)]
pub enum MetaTryFromIoError {
    /// The format identifier at the beginning of the file is malformed.
    InvalidFormatIdentifier(ReadFormatIdentifierError),
    /// The meta file is written in an incompatible format.
    IncompatibleFormat(FormatIdentifier),
    /// The file does not hold a well-formed meta header.
    FileInvalid(DecodeFailure),
    /// The meta file contains no format identifiers indicating the format
    /// of the remaining files in the recording.
    MissingFormatIdentifiers,
}

/// How a meta file's bytes parse.
pub enum MetaParse {
    /// The file parses to this value.
    Parsed(ChunkedMetaView),
    /// The leading format identifier is malformed.
    BadIdentifier,
    /// The meta file is written in an incompatible format.
    Incompatible(FormatIdentifier),
    /// The header is malformed.
    BadHeader,
    /// The identifier list is empty.
    NoIdentifiers,
}

/// Parse the bytes of a meta file.
pub open spec fn parse_meta_file(s: Seq<u8>) -> MetaParse {
    match dec_format_identifier(s) {
        SpecDec::Val(id, n1) => if !can_read_spec(version_spec(), id) {
            MetaParse::Incompatible(id)
        } else {
            match dec_abs_timestamp(s.skip(n1)) {
                SpecDec::Val(created, n2) => match dec_vec(
                    s.skip(n1 + n2),
                    |t: Seq<u8>| dec_format_identifier(t),
                ) {
                    SpecDec::Val(ids, n3) => if ids.len() == 0 {
                        MetaParse::NoIdentifiers
                    } else {
                        MetaParse::Parsed(
                            ChunkedMetaView {
                                format_identifier: id,
                                created_time: created,
                                format_identifiers: ids,
                            },
                        )
                    },
                    _ => MetaParse::BadHeader,
                },
                _ => MetaParse::BadHeader,
            }
        },
        _ => MetaParse::BadIdentifier,
    }
}

impl ChunkedMeta {
    /// Write the meta file's bytes.
    #[verifier::loop_isolation(false)]
    pub fn to_io(&self, out: &mut Vec<u8>)
        ensures
            final(out)@ == old(out)@ + enc_chunked_meta(self@),
    {
        encode_format_identifier(out, &self.format_identifier);
        encode_abs_timestamp(out, &self.header.created_time);
        let ghost enc = |id: FormatIdentifier| enc_format_identifier(id);
        let ids = &self.header.format_identifiers;
        encode_u64(out, ids.len() as u64);
        let ghost mid = out@;
        let mut i: usize = 0;
        while i < ids.len()
            invariant
                i <= ids@.len(),
                out@ == mid + concat_encs(ids@.take(i as int), enc),
            decreases ids@.len() - i,
        {
            encode_format_identifier(out, &ids[i]);
            proof {
                assert(ids@.take(i + 1) =~= ids@.take(i as int).push(ids@[i as int]));
                lemma_concat_encs_push(ids@.take(i as int), enc, ids@[i as int]);
                assert(out@ =~= mid + concat_encs(ids@.take(i + 1), enc));
            }
            i = i + 1;
        }
        proof {
            assert(ids@.take(ids@.len() as int) =~= ids@);
            assert(out@ =~= old(out)@ + enc_chunked_meta(self@));
        }
    }

    /// Read from a recording meta file.
    ///
    /// The file's own format identifier must parse and be readable by this
    /// version; the header must decode; and the identifier list must not be
    /// empty.
    #[verifier::rlimit(50)]
    #[verifier::loop_isolation(false)]
    pub fn try_from_io(bytes: &Vec<u8>) -> (r: Result<ChunkedMeta, MetaTryFromIoError>)
        ensures
            match r {
                Ok(meta) => parse_meta_file(bytes@) == MetaParse::Parsed(meta@),
                Err(MetaTryFromIoError::InvalidFormatIdentifier(_)) => parse_meta_file(bytes@)
                    is BadIdentifier,
                Err(MetaTryFromIoError::IncompatibleFormat(id)) => parse_meta_file(bytes@)
                    == MetaParse::Incompatible(id),
                Err(MetaTryFromIoError::FileInvalid(_)) => parse_meta_file(bytes@) is BadHeader,
                Err(MetaTryFromIoError::MissingFormatIdentifiers) => parse_meta_file(bytes@)
                    is NoIdentifiers,
            },
    {
        proof {
            assert(bytes@.skip(0) =~= bytes@);
        }
        let (format_identifier, p1) = match FormatIdentifier::decode_from(bytes, 0) {
            Ok(v) => v,
            Err(e) => {
                return Err(MetaTryFromIoError::InvalidFormatIdentifier(e));
            },
        };
        let current_version = version();
        if !current_version.can_read_version(&format_identifier) {
            return Err(MetaTryFromIoError::IncompatibleFormat(format_identifier));
        }
        let (created_time, p2) = match decode_abs_timestamp(bytes, p1) {
            Ok(v) => v,
            Err(e) => {
                proof {
                    assert(bytes@.skip(0).skip(p1 as int) =~= bytes@.skip(p1 as int));
                }
                return Err(MetaTryFromIoError::FileInvalid(e));
            },
        };
        proof {
            assert(bytes@.skip(0).skip(p1 as int) =~= bytes@.skip(p1 as int));
            assert(bytes@.skip(p1 as int).skip(p2 - p1) =~= bytes@.skip(p2 as int));
        }
        let ghost dec = |t: Seq<u8>| dec_format_identifier(t);
        let (n, p3) = match crate::wire::decode_usize(bytes, p2) {
            Ok(v) => v,
            Err(e) => {
                return Err(MetaTryFromIoError::FileInvalid(e));
            },
        };
        proof {
            assert(bytes@.skip(p2 as int).skip(p3 - p2) =~= bytes@.skip(p3 as int));
        }
        let mut ids: Vec<FormatIdentifier> = Vec::new();
        let mut cur: usize = p3;
        let mut i: usize = 0;
        while i < n
            invariant
                i <= n,
                p3 <= cur <= bytes@.len(),
                ids@.len() == i,
                dec_elems(bytes@.skip(p3 as int), dec, n as nat) == (match dec_elems(
                    bytes@.skip(cur as int),
                    dec,
                    (n - i) as nat,
                ) {
                    SpecDec::Val(vs, used) => SpecDec::Val(ids@ + vs, (cur - p3) + used),
                    SpecDec::More => SpecDec::<Seq<FormatIdentifier>>::More,
                    SpecDec::Bad => SpecDec::<Seq<FormatIdentifier>>::Bad,
                }),
            decreases n - i,
        {
            let ghost pre = ids@;
            match FormatIdentifier::decode_from(bytes, cur) {
                Ok((id, next)) => {
                    proof {
                        assert(bytes@.skip(cur as int).skip(next - cur) =~= bytes@.skip(
                            next as int));
                        assert(dec_elems(bytes@.skip(cur as int), dec, (n - i) as nat) == (
                        match dec_elems(bytes@.skip(next as int), dec, (n - i - 1) as nat) {
                            SpecDec::Val(vs, used) => SpecDec::Val(
                                seq![id] + vs,
                                (next - cur) + used,
                            ),
                            SpecDec::More => SpecDec::<Seq<FormatIdentifier>>::More,
                            SpecDec::Bad => SpecDec::<Seq<FormatIdentifier>>::Bad,
                        }));
                    }
                    ids.push(id);
                    proof {
                        assert(ids@ =~= pre.push(id));
                        match dec_elems(bytes@.skip(next as int), dec, (n - i - 1) as nat) {
                            SpecDec::Val(vs, used) => {
                                assert(pre.push(id) + vs =~= pre + (seq![id] + vs));
                            },
                            SpecDec::More => {},
                            SpecDec::Bad => {},
                        }
                    }
                    cur = next;
                },
                Err(_) => {
                    proof {
                        assert(!(dec_elems(bytes@.skip(p3 as int), dec, n as nat) is Val));
                    }
                    return Err(MetaTryFromIoError::FileInvalid(DecodeFailure::Malformed));
                },
            }
            i = i + 1;
        }
        proof {
            assert(dec_elems(bytes@.skip(cur as int), dec, 0)
                == SpecDec::<Seq<FormatIdentifier>>::Val(Seq::<FormatIdentifier>::empty(), 0));
            assert(ids@ + Seq::<FormatIdentifier>::empty() =~= ids@);
        }
        if ids.len() == 0 {
            return Err(MetaTryFromIoError::MissingFormatIdentifiers);
        }
        Ok(
            ChunkedMeta {
                format_identifier,
                header: ChunkedMetaHeader { created_time, format_identifiers: ids },
            },
        )
    }
}

/// The round-trip law for meta files: a written meta file parses back to
/// the value it was written from.
pub proof fn lemma_meta_file_round_trip(v: ChunkedMetaView)
    requires
        v.created_time.is_valid(),
        v.format_identifiers.len() >= 1,
        v.format_identifiers.len() <= usize::MAX,
        can_read_spec(version_spec(), v.format_identifier),
    ensures
        parse_meta_file(enc_chunked_meta(v)) == MetaParse::Parsed(v),
{
    let enc = |id: FormatIdentifier| enc_format_identifier(id);
    let dec = |t: Seq<u8>| dec_format_identifier(t);
    let e1 = enc_format_identifier(v.format_identifier);
    let e2 = enc_abs_timestamp(v.created_time);
    let e3 = enc_vec(v.format_identifiers, enc);
    let s3 = e3 + Seq::<u8>::empty();
    let s2 = e2 + s3;
    let s = enc_chunked_meta(v);
    assert(s3 =~= e3);
    vstd::seq_lib::lemma_concat_associative(e1, e2, e3);
    assert(s == e1 + s2);
    lemma_format_identifier_wire_round_trip(v.format_identifier, s2);
    lemma_concat_skip(e1, s2);
    let n1 = e1.len() as int;
    assert(s.skip(n1) == s2);
    lemma_abs_timestamp_round_trip(v.created_time, s3);
    lemma_concat_skip(e2, s3);
    lemma_skip_add(s, n1, e2.len() as int);
    let n2 = n1 + e2.len();
    assert(s.skip(n2) == s3);
    assert forall|i: int, r: Seq<u8>| 0 <= i < v.format_identifiers.len() implies #[trigger] dec(
        enc(v.format_identifiers[i]) + r) == SpecDec::Val(
        v.format_identifiers[i],
        enc(v.format_identifiers[i]).len() as int,
    ) by {
        lemma_format_identifier_wire_round_trip(v.format_identifiers[i], r);
    }
    lemma_dec_vec_round_trip(v.format_identifiers, enc, dec, Seq::<u8>::empty());
}

} // verus!
