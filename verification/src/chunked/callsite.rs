//! Chunked recording callsites.
//!
//! The callsites of a recording are stored centrally for the entire
//! recording, as a stream of callsite records appended incrementally behind
//! a format identifier.

use vstd::prelude::*;

use crate::callsite::{Callsite, CallsiteView};
use crate::codec::{
    concat_encs, dec_callsite, decode_callsite, enc_callsite, lemma_callsite_round_trip,
    lemma_concat_encs_push, lemma_concat_skip, wf_callsite,
};
use crate::identifier::{
    can_read_spec, dec_format_identifier, enc_format_identifier, encode_format_identifier,
    lemma_format_identifier_wire_round_trip, FormatIdentifier, FormatVariant,
    ReadFormatIdentifierError,
};
use crate::wire::{DecodeFailure, SpecDec};

verus! {

/// The format identifier this library writes callsites files under.
pub open spec fn version_spec() -> FormatIdentifier {
    FormatIdentifier { variant: FormatVariant::RfrChunkedCallsites, major: 0, minor: 0, patch: 1 }
}

/// The format identifier for the callsites file.
pub fn version() -> (r: FormatIdentifier)
    ensures
        r == version_spec(),
{
    FormatIdentifier { variant: FormatVariant::RfrChunkedCallsites, major: 0, minor: 0, patch: 1 }
}

/// Callsites file contents.
///
/// The callsites for all spans and events in the recording are stored
/// centrally. This data is static for the lifetime of a program execution
/// and is expected to be bounded to a relatively small number of items.
#[derive(Debug, Clone, PartialEq)]
pub struct ChunkedCallsites {
    /// Format identifier for the callsites file.
    pub format_identifier: FormatIdentifier,
    /// The callsites, in append order.
    pub callsites: Vec<Callsite>,
}

/// The mathematical value of the callsites file contents.
pub struct ChunkedCallsitesView {
    /// Format identifier for the callsites file.
    pub format_identifier: FormatIdentifier,
    /// The callsites, in append order.
    pub callsites: Seq<CallsiteView>,
}

impl View for ChunkedCallsites {
    type V = ChunkedCallsitesView;

    open spec fn view(&self) -> ChunkedCallsitesView {
        ChunkedCallsitesView {
            format_identifier: self.format_identifier,
            callsites: self.callsites@.map_values(|c: Callsite| c@),
        }
    }
}

/// The encoding of a callsites file: the identifier, then the callsites
/// one after another with no count and no terminator.
pub open spec fn enc_callsites_file(v: ChunkedCallsitesView) -> Seq<u8> {
    enc_format_identifier(v.format_identifier) + concat_encs(
        v.callsites,
        |c: CallsiteView| enc_callsite(c),
    )
}

/// How the callsite stream after the identifier parses: the callsites, or
/// the index of the record where parsing failed.
pub enum CallsiteStreamParse {
    /// The whole stream parses to these callsites.
    Parsed(Seq<CallsiteView>),
    /// The record at this index is malformed or truncated.
    Failed(nat),
}

/// Parse a stream of callsite records until the bytes run out.
pub open spec fn parse_callsite_stream(s: Seq<u8>, idx: nat, fuel: nat) -> CallsiteStreamParse
    decreases fuel,
{
    if s.len() == 0 {
        CallsiteStreamParse::Parsed(Seq::<CallsiteView>::empty())
    } else if fuel == 0 {
        CallsiteStreamParse::Failed(idx)
    } else {
        match dec_callsite(s) {
            SpecDec::Val(c, n) => if n < 1 || n > s.len() {
                CallsiteStreamParse::Failed(idx)
            } else {
                match parse_callsite_stream(s.skip(n), idx + 1, (fuel - 1) as nat) {
                    CallsiteStreamParse::Parsed(cs) => CallsiteStreamParse::Parsed(
                        seq![c] + cs,
                    ),
                    CallsiteStreamParse::Failed(j) => CallsiteStreamParse::Failed(j),
                }
            },
            _ => CallsiteStreamParse::Failed(idx),
        }
    }
}

/// How a callsites file's bytes parse.
pub enum CallsitesParse {
    /// The file parses to this value.
    Parsed(ChunkedCallsitesView),
    /// The leading format identifier is malformed.
    BadIdentifier,
    /// The file is written in an incompatible format.
    Incompatible(FormatIdentifier),
    /// The record at this index is malformed or truncated.
    BadCallsite(nat),
}

/// Parse the bytes of a callsites file.
pub open spec fn parse_callsites_file(s: Seq<u8>) -> CallsitesParse {
    match dec_format_identifier(s) {
        SpecDec::Val(id, n) => if !can_read_spec(version_spec(), id) {
            CallsitesParse::Incompatible(id)
        } else {
            match parse_callsite_stream(s.skip(n), 0, s.skip(n).len()) {
                CallsiteStreamParse::Parsed(cs) => CallsitesParse::Parsed(
                    ChunkedCallsitesView { format_identifier: id, callsites: cs },
                ),
                CallsiteStreamParse::Failed(j) => CallsitesParse::BadCallsite(j),
            }
        },
        _ => CallsitesParse::BadIdentifier,
    }
}

/// An error when reading a callsites file.
#[derive(Debug)]
pub enum CallsitesTryFromIoError {
    /// The format identifier at the beginning of the file is malformed.
    InvalidFormatIdentifier(ReadFormatIdentifierError),
    /// The file is written in an incompatible format.
    IncompatibleFormat(FormatIdentifier),
    /// An invalid callsite was encountered.
    CallsiteInvalid {
        /// The index of the offending callsite record.
        idx: usize,
        /// Why the record could not be decoded.
        error: DecodeFailure,
    },
}

impl ChunkedCallsites {
    /// Create new callsites file contents.
    pub fn new(callsites: Vec<Callsite>) -> (r: ChunkedCallsites)
        ensures
            r@.format_identifier == version_spec(),
            r@.callsites == callsites@.map_values(|c: Callsite| c@),
    {
        ChunkedCallsites { format_identifier: version(), callsites }
    }

    /// Write this callsites file to the output in its entirety.
    #[verifier::loop_isolation(false)]
    pub fn to_io(&self, out: &mut Vec<u8>)
        ensures
            final(out)@ == old(out)@ + enc_callsites_file(self@),
    {
        encode_format_identifier(out, &self.format_identifier);
        let ghost enc = |c: CallsiteView| enc_callsite(c);
        let ghost views = self.callsites@.map_values(|c: Callsite| c@);
        let ghost mid = out@;
        let mut i: usize = 0;
        while i < self.callsites.len()
            invariant
                i <= self.callsites@.len(),
                out@ == mid + concat_encs(views.take(i as int), enc),
            decreases self.callsites@.len() - i,
        {
            crate::codec::encode_callsite(out, &self.callsites[i]);
            proof {
                assert(views[i as int] == self.callsites@[i as int]@);
                assert(views.take(i + 1) =~= views.take(i as int).push(views[i as int]));
                lemma_concat_encs_push(views.take(i as int), enc, views[i as int]);
                assert(out@ =~= mid + concat_encs(views.take(i + 1), enc));
            }
            i = i + 1;
        }
        proof {
            assert(views.take(views.len() as int) =~= views);
            assert(out@ =~= old(out)@ + enc_callsites_file(self@));
        }
    }

    /// Read from a chunked recording callsites file.
    ///
    /// The file's own format identifier must parse and be readable by this
    /// version; callsite records are then read until the bytes end, and a
    /// record that cannot be decoded is reported with its index.
    #[verifier::rlimit(100)]
    #[verifier::loop_isolation(false)]
    pub fn try_from_io(bytes: &Vec<u8>) -> (r: Result<ChunkedCallsites, CallsitesTryFromIoError>)
        ensures
            match r {
                Ok(c) => parse_callsites_file(bytes@) == CallsitesParse::Parsed(c@),
                Err(CallsitesTryFromIoError::InvalidFormatIdentifier(_)) => parse_callsites_file(
                    bytes@,
                ) is BadIdentifier,
                Err(CallsitesTryFromIoError::IncompatibleFormat(id)) => parse_callsites_file(
                    bytes@,
                ) == CallsitesParse::Incompatible(id),
                Err(CallsitesTryFromIoError::CallsiteInvalid { idx, error }) => parse_callsites_file(
                    bytes@,
                ) == CallsitesParse::BadCallsite(idx as nat),
            },
    {
        proof {
            assert(bytes@.skip(0) =~= bytes@);
        }
        let (format_identifier, p0) = match FormatIdentifier::decode_from(bytes, 0) {
            Ok(v) => v,
            Err(e) => {
                return Err(CallsitesTryFromIoError::InvalidFormatIdentifier(e));
            },
        };
        let current_version = version();
        if !current_version.can_read_version(&format_identifier) {
            return Err(CallsitesTryFromIoError::IncompatibleFormat(format_identifier));
        }
        proof {
            assert(bytes@.skip(0).skip(p0 as int) =~= bytes@.skip(p0 as int));
        }
        let mut callsites: Vec<Callsite> = Vec::new();
        let mut cur: usize = p0;
        let mut idx: usize = 0;
        while cur < bytes.len()
            invariant
                p0 <= cur <= bytes@.len(),
                idx == callsites@.len(),
                idx <= cur - p0,
                parse_callsite_stream(bytes@.skip(p0 as int), 0, bytes@.skip(p0 as int).len())
                    == (match parse_callsite_stream(
                    bytes@.skip(cur as int),
                    idx as nat,
                    bytes@.skip(cur as int).len(),
                ) {
                    CallsiteStreamParse::Parsed(cs) => CallsiteStreamParse::Parsed(
                        callsites@.map_values(|c: Callsite| c@) + cs,
                    ),
                    CallsiteStreamParse::Failed(j) => CallsiteStreamParse::Failed(j),
                }),
            decreases bytes@.len() - cur,
        {
            let ghost pre = callsites@.map_values(|c: Callsite| c@);
            match decode_callsite(bytes, cur) {
                Ok((c, next)) => {
                    proof {
                        let s = bytes@.skip(cur as int);
                        assert(s.skip(next - cur) =~= bytes@.skip(next as int));
                        assert(s.len() == bytes@.len() - cur);
                        assert(1 <= next - cur <= s.len());
                        assert(parse_callsite_stream(s, idx as nat, s.len()) == (
                        match parse_callsite_stream(s.skip(next - cur), (idx as nat) + 1, (
                        s.len() - 1) as nat) {
                            CallsiteStreamParse::Parsed(cs) => CallsiteStreamParse::Parsed(
                                seq![c@] + cs,
                            ),
                            CallsiteStreamParse::Failed(j) => CallsiteStreamParse::Failed(j),
                        }));
                        lemma_parse_stream_fuel_general(bytes@.skip(next as int),
                            (idx + 1) as nat, (s.len() - 1) as nat);
                        assert(parse_callsite_stream(bytes@.skip(cur as int), idx as nat,
                            bytes@.skip(cur as int).len()) == (match parse_callsite_stream(
                            bytes@.skip(next as int),
                            (idx + 1) as nat,
                            bytes@.skip(next as int).len(),
                        ) {
                            CallsiteStreamParse::Parsed(cs) => CallsiteStreamParse::Parsed(
                                seq![c@] + cs,
                            ),
                            CallsiteStreamParse::Failed(j) => CallsiteStreamParse::Failed(j),
                        }));
                    }
                    callsites.push(c);
                    proof {
                        assert(callsites@.map_values(|c2: Callsite| c2@) =~= pre.push(
                            callsites@.last()@));
                        match parse_callsite_stream(bytes@.skip(next as int), (idx + 1) as nat,
                            bytes@.skip(next as int).len()) {
                            CallsiteStreamParse::Parsed(cs) => {
                                assert(pre.push(callsites@.last()@) + cs =~= pre + (seq![
                                    callsites@.last()@] + cs));
                            },
                            CallsiteStreamParse::Failed(_) => {},
                        }
                    }
                    cur = next;
                    idx = idx + 1;
                },
                Err(error) => {
                    proof {
                        assert(bytes@.skip(cur as int).len() > 0);
                    }
                    return Err(CallsitesTryFromIoError::CallsiteInvalid { idx, error });
                },
            }
        }
        proof {
            assert(bytes@.skip(cur as int).len() == 0);
            assert(parse_callsite_stream(bytes@.skip(cur as int), idx as nat, 0)
                == CallsiteStreamParse::Parsed(Seq::<CallsiteView>::empty()));
            assert(callsites@.map_values(|c: Callsite| c@) + Seq::<CallsiteView>::empty()
                =~= callsites@.map_values(|c: Callsite| c@));
        }
        Ok(ChunkedCallsites { format_identifier, callsites })
    }
}

/// Parsing a callsite stream does not depend on the exact fuel, as long as
/// there is at least one unit per remaining byte.
pub proof fn lemma_parse_stream_fuel_general(s: Seq<u8>, idx: nat, fuel: nat)
    requires
        fuel >= s.len(),
    ensures
        parse_callsite_stream(s, idx, fuel) == parse_callsite_stream(s, idx, s.len()),
    decreases fuel,
{
    if s.len() == 0 {
    } else {
        match dec_callsite(s) {
            SpecDec::Val(c, n) => {
                if 1 <= n <= s.len() {
                    assert(s.skip(n).len() == s.len() - n);
                    lemma_parse_stream_fuel_general(s.skip(n), idx + 1, (fuel - 1) as nat);
                    lemma_parse_stream_fuel_general(s.skip(n), idx + 1, (s.len() - 1) as nat);
                }
            },
            _ => {},
        }
    }
}

/// Convenience form of the fuel independence lemma at a stream's own
/// length.
proof fn lemma_parse_stream_fuel(s: Seq<u8>, idx: nat)
    ensures
        forall|fuel: nat|
            fuel >= s.len() ==> #[trigger] parse_callsite_stream(s, idx, fuel)
                == parse_callsite_stream(s, idx, s.len()),
{
    assert forall|fuel: nat| fuel >= s.len() implies #[trigger] parse_callsite_stream(
        s,
        idx,
        fuel,
    ) == parse_callsite_stream(s, idx, s.len()) by {
        lemma_parse_stream_fuel_general(s, idx, fuel);
    }
}

/// The round-trip law for callsite streams: a written stream parses back
/// to the callsites it was written from.
pub proof fn lemma_callsite_stream_round_trip(cs: Seq<CallsiteView>, idx: nat)
    requires
        forall|i: int| 0 <= i < cs.len() ==> wf_callsite(#[trigger] cs[i]),
    ensures
        parse_callsite_stream(
            concat_encs(cs, |c: CallsiteView| enc_callsite(c)),
            idx,
            concat_encs(cs, |c: CallsiteView| enc_callsite(c)).len(),
        ) == CallsiteStreamParse::Parsed(cs),
    decreases cs.len(),
{
    let enc = |c: CallsiteView| enc_callsite(c);
    let s = concat_encs(cs, enc);
    if cs.len() == 0 {
        assert(s.len() == 0);
        assert(cs =~= Seq::<CallsiteView>::empty());
    } else {
        let head = cs[0];
        let tail = cs.drop_first();
        assert(s == enc(head) + concat_encs(tail, enc));
        lemma_callsite_round_trip(head, concat_encs(tail, enc));
        assert(dec_callsite(s) == SpecDec::Val(head, enc_callsite(head).len() as int));
        assert(enc_callsite(head).len() >= 1) by {
            crate::wire::lemma_varint_enc_len_u64(head.callsite_id.0 as nat);
        }
        assert(enc_callsite(head).len() <= s.len());
        assert(s.skip(enc_callsite(head).len() as int) =~= concat_encs(tail, enc));
        assert(forall|i: int| 0 <= i < tail.len() ==> tail[i] == cs[i + 1]);
        lemma_callsite_stream_round_trip(tail, idx + 1);
        lemma_parse_stream_fuel_general(concat_encs(tail, enc), idx + 1, (s.len() - 1) as nat);
        assert(seq![head] + tail =~= cs);
    }
}

/// The round-trip law for callsites files: writing a well-formed callsites
/// file and parsing it back yields the original contents. Re-encoding that
/// parse then reproduces the file byte for byte, so writing and reading
/// compose to the identity on well-formed callsites files.
pub proof fn lemma_callsites_file_round_trip(v: ChunkedCallsitesView)
    requires
        forall|i: int| 0 <= i < v.callsites.len() ==> wf_callsite(#[trigger] v.callsites[i]),
        can_read_spec(version_spec(), v.format_identifier),
    ensures
        parse_callsites_file(enc_callsites_file(v)) == CallsitesParse::Parsed(v),
{
    let enc = |c: CallsiteView| enc_callsite(c);
    let e1 = enc_format_identifier(v.format_identifier);
    let e2 = concat_encs(v.callsites, enc);
    let s = enc_callsites_file(v);
    lemma_format_identifier_wire_round_trip(v.format_identifier, e2);
    lemma_concat_skip(e1, e2);
    assert(s.skip(e1.len() as int) == e2);
    lemma_callsite_stream_round_trip(v.callsites, 0);
}

/// Incrementally write a chunked recording callsites file.
///
/// Callsites pushed since the last flush are held in memory; a flush
/// appends their encodings to the output bytes, which the caller persists.
#[derive(Debug)]
pub struct ChunkedCallsitesWriter {
    chunked_callsites: ChunkedCallsites,
    written_callsites: usize,
    out: Vec<u8>,
}

/// The mathematical state of a callsites writer.
pub struct CallsitesWriterView {
    /// The callsites pushed so far, with the file's identifier.
    pub chunked_callsites: ChunkedCallsitesView,
    /// How many of the callsites have been written to the output.
    pub written_callsites: int,
    /// The file bytes produced so far.
    pub out: Seq<u8>,
}

impl View for ChunkedCallsitesWriter {
    type V = CallsitesWriterView;

    closed spec fn view(&self) -> CallsitesWriterView {
        CallsitesWriterView {
            chunked_callsites: self.chunked_callsites@,
            written_callsites: self.written_callsites as int,
            out: self.out@,
        }
    }
}

/// A callsites writer is well formed when its output holds exactly the
/// file identifier followed by the already-written callsites.
pub open spec fn callsites_writer_well_formed(v: CallsitesWriterView) -> bool {
    &&& 0 <= v.written_callsites <= v.chunked_callsites.callsites.len()
    &&& v.chunked_callsites.format_identifier == version_spec()
    &&& v.out == enc_callsites_file(
        ChunkedCallsitesView {
            format_identifier: v.chunked_callsites.format_identifier,
            callsites: v.chunked_callsites.callsites.take(v.written_callsites),
        },
    )
}

/// Result of pushing a callsite.
#[derive(Debug, Clone, Copy, PartialEq, Eq, Structural)]
pub enum PushCallsiteResult {
    /// The new callsite was added.
    Added,
    /// A callsite with the same id was already present; nothing was pushed.
    Duplicate,
}

/// An error that occurred while flushing callsites.
///
/// The incremental writer encodes into memory, which cannot fail; the type
/// records the index a failed write would have reported.
#[derive(Debug)]
pub struct FlushCallsitesError {
    /// The index of the callsite that could not be written.
    pub idx: usize,
}

impl ChunkedCallsitesWriter {
    /// Create a new chunked callsites writer.
    ///
    /// The file's format identifier is written to the output immediately.
    pub fn try_new() -> (r: ChunkedCallsitesWriter)
        ensures
            callsites_writer_well_formed(r@),
            r@.chunked_callsites.callsites.len() == 0,
            r@.written_callsites == 0,
    {
        let chunked_callsites = ChunkedCallsites::new(Vec::new());
        let mut out: Vec<u8> = Vec::new();
        encode_format_identifier(&mut out, &chunked_callsites.format_identifier);
        let r = ChunkedCallsitesWriter { chunked_callsites, written_callsites: 0, out };
        proof {
            assert(r@.chunked_callsites.callsites =~= Seq::<CallsiteView>::empty());
            assert(r@.chunked_callsites.callsites.take(0) =~= Seq::<CallsiteView>::empty());
            assert(r@.out =~= enc_callsites_file(
                ChunkedCallsitesView {
                    format_identifier: r@.chunked_callsites.format_identifier,
                    callsites: r@.chunked_callsites.callsites.take(0),
                },
            ));
        }
        r
    }

    /// Return a reference to the inner callsites file contents.
    pub fn chunked_callsites(&self) -> (r: &ChunkedCallsites)
        ensures
            r@ == self@.chunked_callsites,
    {
        &self.chunked_callsites
    }

    /// The file bytes produced so far.
    pub fn written(&self) -> (r: &Vec<u8>)
        ensures
            r@ == self@.out,
    {
        &self.out
    }

    /// Push a callsite to be written during the next flush.
    ///
    /// The list of existing callsites is checked for duplicates by callsite
    /// id; a duplicate is not pushed.
    #[verifier::loop_isolation(false)]
    pub fn push_callsite(&mut self, callsite: Callsite) -> (r: PushCallsiteResult)
        requires
            callsites_writer_well_formed(old(self)@),
        ensures
            callsites_writer_well_formed(final(self)@),
            final(self)@.written_callsites == old(self)@.written_callsites,
            final(self)@.out == old(self)@.out,
            (exists|i: int|
                0 <= i < old(self)@.chunked_callsites.callsites.len() && (#[trigger] old(
                    self,
                )@.chunked_callsites.callsites[i]).callsite_id == callsite@.callsite_id) ==> (r
                == PushCallsiteResult::Duplicate && final(self)@.chunked_callsites
                == old(self)@.chunked_callsites),
            (forall|i: int|
                0 <= i < old(self)@.chunked_callsites.callsites.len() ==> (#[trigger] old(
                    self,
                )@.chunked_callsites.callsites[i]).callsite_id != callsite@.callsite_id) ==> (r
                == PushCallsiteResult::Added && final(self)@.chunked_callsites.callsites == old(
                self,
            )@.chunked_callsites.callsites.push(callsite@)),
    {
        let ghost pre = self@;
        let mut i: usize = 0;
        while i < self.chunked_callsites.callsites.len()
            invariant
                i <= self.chunked_callsites.callsites@.len(),
                self@ == pre,
                forall|j: int|
                    0 <= j < i ==> (#[trigger] pre.chunked_callsites.callsites[j]).callsite_id
                        != callsite@.callsite_id,
            decreases self.chunked_callsites.callsites@.len() - i,
        {
            if self.chunked_callsites.callsites[i].callsite_id.0 == callsite.callsite_id.0 {
                proof {
                    assert(pre.chunked_callsites.callsites[i as int].callsite_id
                        == callsite@.callsite_id);
                }
                return PushCallsiteResult::Duplicate;
            }
            i = i + 1;
        }
        let ghost n = self.chunked_callsites.callsites@.len() as int;
        self.chunked_callsites.callsites.push(callsite);
        proof {
            assert(self@.chunked_callsites.callsites =~= pre.chunked_callsites.callsites.push(
                callsite@));
            assert(self@.chunked_callsites.callsites.take(pre.written_callsites)
                =~= pre.chunked_callsites.callsites.take(pre.written_callsites));
        }
        PushCallsiteResult::Added
    }

    /// Whether there are pushed callsites not yet written to the output;
    /// when this returns `false`, a flush would be a no-op.
    pub fn needs_flush(&self) -> (r: bool)
        ensures
            r == (self@.written_callsites < self@.chunked_callsites.callsites.len()),
    {
        self.written_callsites < self.chunked_callsites.callsites.len()
    }

    /// Flushes any unwritten callsites to the output.
    #[verifier::loop_isolation(false)]
    pub fn flush(&mut self) -> (r: Result<(), FlushCallsitesError>)
        requires
            callsites_writer_well_formed(old(self)@),
        ensures
            callsites_writer_well_formed(final(self)@),
            final(self)@.chunked_callsites == old(self)@.chunked_callsites,
            final(self)@.written_callsites == final(self)@.chunked_callsites.callsites.len(),
            r is Ok,
    {
        let ghost pre = self@;
        let ghost enc = |c: CallsiteView| enc_callsite(c);
        let ghost views = pre.chunked_callsites.callsites;
        while self.written_callsites < self.chunked_callsites.callsites.len()
            invariant
                0 <= self.written_callsites <= self.chunked_callsites.callsites@.len(),
                self@.chunked_callsites == pre.chunked_callsites,
                callsites_writer_well_formed(self@),
            decreases self.chunked_callsites.callsites@.len() - self.written_callsites,
        {
            let ghost w = self@.written_callsites;
            let ghost prevout = self@.out;
            crate::codec::encode_callsite(
                &mut self.out,
                &self.chunked_callsites.callsites[self.written_callsites],
            );
            self.written_callsites = self.written_callsites + 1;
            proof {
                assert(views.take(w + 1) =~= views.take(w).push(views[w]));
                lemma_concat_encs_push(views.take(w), enc, views[w]);
                assert(self@.out =~= enc_callsites_file(
                    ChunkedCallsitesView {
                        format_identifier: pre.chunked_callsites.format_identifier,
                        callsites: views.take(w + 1),
                    },
                )) by {
                    vstd::seq_lib::lemma_concat_associative(
                        enc_format_identifier(pre.chunked_callsites.format_identifier),
                        concat_encs(views.take(w), enc),
                        enc(views[w]),
                    );
                }
            }
        }
        Ok(())
    }
}

} // verus!
