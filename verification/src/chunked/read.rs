//! Reading chunked recordings.
//!
//! A chunk file holds a format identifier, a chunk header, and a count of
//! sequence chunks followed by the sequence chunks themselves. The reader
//! tolerates a file whose tail is still being written: decoding stops at
//! the first incomplete element and surfaces what was complete, while a
//! malformed element is reported with its index.

use vstd::prelude::*;

use crate::chunked::sequence::{
    dec_seq_chunk, decode_seq_chunk, enc_seq_chunk, lemma_seq_chunk_round_trip, wf_seq_chunk,
    SeqChunk, SeqChunkView,
};
use crate::codec::{concat_encs, lemma_concat_encs_push, lemma_concat_skip, lemma_skip_add};
use crate::identifier::{
    dec_format_identifier, enc_format_identifier, encode_format_identifier,
    lemma_format_identifier_wire_round_trip, FormatIdentifier,
};
use crate::timestamp::{AbsTimestamp, AbsTimestampSecs, ChunkInterval, ChunkTimestamp};
use crate::wire::{
    dec_u64, decode_u64, decode_usize, encode_u64, lemma_u64_round_trip,
    lemma_varint_enc_len_u64, lemma_varint_round_trip, varint_enc, DecodeFailure, SpecDec,
};

verus! {

/// The header of a chunk: its interval and the extremes of its record
/// timestamps.
#[derive(Debug, Clone, Copy, PartialEq, Eq, Structural)]
pub struct ChunkHeader {
    /// The wall-clock interval the chunk is responsible for.
    pub interval: ChunkInterval,
    /// The smallest record timestamp over the chunk's sequence chunks.
    pub earliest_timestamp: ChunkTimestamp,
    /// The largest record timestamp over the chunk's sequence chunks.
    pub latest_timestamp: ChunkTimestamp,
}

impl ChunkHeader {
    /// The base time that the chunk's timestamps are measured from.
    pub fn base_time(&self) -> (r: AbsTimestampSecs)
        ensures
            r == self.interval.base_time,
    {
        self.interval.base_time
    }

    /// The start of the chunk's interval.
    pub fn start_time(&self) -> (r: ChunkTimestamp)
        ensures
            r == self.interval.start_time,
    {
        self.interval.start_time
    }

    /// The end of the chunk's interval.
    pub fn end_time(&self) -> (r: ChunkTimestamp)
        ensures
            r == self.interval.end_time,
    {
        self.interval.end_time
    }
}

/// The encoding of a chunk header: its five timestamps as varints.
pub open spec fn enc_chunk_header(h: ChunkHeader) -> Seq<u8> {
    varint_enc(h.interval.base_time.secs as nat) + varint_enc(h.interval.start_time.micros as nat)
        + varint_enc(h.interval.end_time.micros as nat) + varint_enc(
        h.earliest_timestamp.micros as nat,
    ) + varint_enc(h.latest_timestamp.micros as nat)
}

/// Decode a chunk header.
pub open spec fn dec_chunk_header(s: Seq<u8>) -> SpecDec<ChunkHeader> {
    match dec_u64(s) {
        SpecDec::Val(base, n1) => match dec_u64(s.skip(n1)) {
            SpecDec::Val(start, n2) => match dec_u64(s.skip(n1 + n2)) {
                SpecDec::Val(end, n3) => match dec_u64(s.skip(n1 + n2 + n3)) {
                    SpecDec::Val(earliest, n4) => match dec_u64(s.skip(n1 + n2 + n3 + n4)) {
                        SpecDec::Val(latest, n5) => SpecDec::Val(
                            ChunkHeader {
                                interval: ChunkInterval {
                                    base_time: AbsTimestampSecs { secs: base as u64 },
                                    start_time: ChunkTimestamp { micros: start as u64 },
                                    end_time: ChunkTimestamp { micros: end as u64 },
                                },
                                earliest_timestamp: ChunkTimestamp { micros: earliest as u64 },
                                latest_timestamp: ChunkTimestamp { micros: latest as u64 },
                            },
                            n1 + n2 + n3 + n4 + n5,
                        ),
                        SpecDec::More => SpecDec::More,
                        SpecDec::Bad => SpecDec::Bad,
                    },
                    SpecDec::More => SpecDec::More,
                    SpecDec::Bad => SpecDec::Bad,
                },
                SpecDec::More => SpecDec::More,
                SpecDec::Bad => SpecDec::Bad,
            },
            SpecDec::More => SpecDec::More,
            SpecDec::Bad => SpecDec::Bad,
        },
        SpecDec::More => SpecDec::More,
        SpecDec::Bad => SpecDec::Bad,
    }
}

/// Append the encoding of a chunk header to the output.
pub fn encode_chunk_header(out: &mut Vec<u8>, h: &ChunkHeader)
    ensures
        final(out)@ == old(out)@ + enc_chunk_header(*h),
{
    encode_u64(out, h.interval.base_time.secs);
    encode_u64(out, h.interval.start_time.micros);
    encode_u64(out, h.interval.end_time.micros);
    encode_u64(out, h.earliest_timestamp.micros);
    encode_u64(out, h.latest_timestamp.micros);
    proof {
        assert(out@ =~= old(out)@ + enc_chunk_header(*h));
    }
}

/// Decode a chunk header from `bytes` at `pos`.
pub fn decode_chunk_header(bytes: &Vec<u8>, pos: usize) -> (r: Result<
    (ChunkHeader, usize),
    DecodeFailure,
>)
    requires
        pos <= bytes@.len(),
    ensures
        match r {
            Ok((v, next)) => dec_chunk_header(bytes@.skip(pos as int)) == SpecDec::Val(
                v,
                next - pos,
            ) && pos < next <= bytes@.len(),
            Err(DecodeFailure::Incomplete) => dec_chunk_header(bytes@.skip(pos as int))
                == SpecDec::<ChunkHeader>::More,
            Err(DecodeFailure::Malformed) => dec_chunk_header(bytes@.skip(pos as int))
                == SpecDec::<ChunkHeader>::Bad,
        },
{
    let ghost s = bytes@.skip(pos as int);
    let (base, p1) = match decode_u64(bytes, pos) {
        Ok(v) => v,
        Err(e) => {
            return Err(e);
        },
    };
    proof {
        assert(s.skip(p1 - pos) =~= bytes@.skip(p1 as int));
    }
    let (start, p2) = match decode_u64(bytes, p1) {
        Ok(v) => v,
        Err(e) => {
            return Err(e);
        },
    };
    proof {
        assert(s.skip(p2 - pos) =~= bytes@.skip(p2 as int));
    }
    let (end, p3) = match decode_u64(bytes, p2) {
        Ok(v) => v,
        Err(e) => {
            return Err(e);
        },
    };
    proof {
        assert(s.skip(p3 - pos) =~= bytes@.skip(p3 as int));
    }
    let (earliest, p4) = match decode_u64(bytes, p3) {
        Ok(v) => v,
        Err(e) => {
            return Err(e);
        },
    };
    proof {
        assert(s.skip(p4 - pos) =~= bytes@.skip(p4 as int));
    }
    let (latest, p5) = match decode_u64(bytes, p4) {
        Ok(v) => v,
        Err(e) => {
            return Err(e);
        },
    };
    Ok(
        (
            ChunkHeader {
                interval: ChunkInterval {
                    base_time: AbsTimestampSecs { secs: base },
                    start_time: ChunkTimestamp { micros: start },
                    end_time: ChunkTimestamp { micros: end },
                },
                earliest_timestamp: ChunkTimestamp { micros: earliest },
                latest_timestamp: ChunkTimestamp { micros: latest },
            },
            p5,
        ),
    )
}

/// The round-trip law for chunk headers.
pub proof fn lemma_chunk_header_round_trip(h: ChunkHeader, rest: Seq<u8>)
    ensures
        dec_chunk_header(enc_chunk_header(h) + rest) == SpecDec::Val(
            h,
            enc_chunk_header(h).len() as int,
        ),
{
    let e1 = varint_enc(h.interval.base_time.secs as nat);
    let e2 = varint_enc(h.interval.start_time.micros as nat);
    let e3 = varint_enc(h.interval.end_time.micros as nat);
    let e4 = varint_enc(h.earliest_timestamp.micros as nat);
    let e5 = varint_enc(h.latest_timestamp.micros as nat);
    let s5 = e5 + rest;
    let s4 = e4 + s5;
    let s3 = e3 + s4;
    let s2 = e2 + s3;
    let s = enc_chunk_header(h) + rest;
    vstd::seq_lib::lemma_concat_associative(e1 + e2 + e3 + e4, e5, rest);
    vstd::seq_lib::lemma_concat_associative(e1 + e2 + e3, e4, s5);
    vstd::seq_lib::lemma_concat_associative(e1 + e2, e3, s4);
    vstd::seq_lib::lemma_concat_associative(e1, e2, s3);
    assert(s == e1 + s2);
    lemma_u64_round_trip(h.interval.base_time.secs, s2);
    lemma_concat_skip(e1, s2);
    let n1 = e1.len() as int;
    assert(s.skip(n1) == s2);
    lemma_u64_round_trip(h.interval.start_time.micros, s3);
    lemma_concat_skip(e2, s3);
    lemma_skip_add(s, n1, e2.len() as int);
    let n2 = n1 + e2.len();
    assert(s.skip(n2) == s3);
    lemma_u64_round_trip(h.interval.end_time.micros, s4);
    lemma_concat_skip(e3, s4);
    lemma_skip_add(s, n2, e3.len() as int);
    let n3 = n2 + e3.len();
    assert(s.skip(n3) == s4);
    lemma_u64_round_trip(h.earliest_timestamp.micros, s5);
    lemma_concat_skip(e4, s5);
    lemma_skip_add(s, n3, e4.len() as int);
    let n4 = n3 + e4.len();
    assert(s.skip(n4) == s5);
    lemma_u64_round_trip(h.latest_timestamp.micros, rest);
}

/// A fully decoded chunk: its header and its sequence chunks.
#[derive(Debug, Clone, PartialEq)]
pub struct Chunk {
    /// The chunk's header.
    pub header: ChunkHeader,
    /// The chunk's sequence chunks.
    pub seq_chunks: Vec<SeqChunk>,
}

/// The mathematical value of a chunk.
pub struct ChunkView {
    /// The chunk's header.
    pub header: ChunkHeader,
    /// The chunk's sequence chunks.
    pub seq_chunks: Seq<SeqChunkView>,
}

impl View for Chunk {
    type V = ChunkView;

    open spec fn view(&self) -> ChunkView {
        ChunkView {
            header: self.header,
            seq_chunks: self.seq_chunks@.map_values(|c: SeqChunk| c@),
        }
    }
}

impl Chunk {
    /// The chunk's header.
    pub fn header(&self) -> (r: &ChunkHeader)
        ensures
            r == self@.header,
    {
        &self.header
    }

    /// The chunk's sequence chunks.
    pub fn seq_chunks(&self) -> (r: &Vec<SeqChunk>)
        ensures
            r@.map_values(|c: SeqChunk| c@) == self@.seq_chunks,
    {
        &self.seq_chunks
    }

    /// The absolute time a chunk timestamp denotes, over this chunk's base
    /// time.
    pub fn abs_timestamp(&self, chunk_timestamp: &ChunkTimestamp) -> (r: AbsTimestamp)
        requires
            self@.header.interval.base_time.secs + chunk_timestamp.micros / 1_000_000
                <= u64::MAX,
        ensures
            r == chunk_timestamp.to_abs_spec(self@.header.interval.base_time),
            r.is_valid(),
    {
        chunk_timestamp.to_abs_timestamp(self.header.interval.base_time)
    }
}

/// An error reading a chunk file.
#[derive(Debug, Clone, Copy, PartialEq, Eq, Structural)]
pub enum ChunkReadError {
    /// The file's identifier, header or count could not be read.
    ReadError,
    /// A sequence chunk was malformed.
    DeserializeError {
        /// The index of the offending sequence chunk.
        index: usize,
        /// Why it could not be decoded.
        error: DecodeFailure,
    },
}

/// How the sequence chunks of a chunk file parse: the complete prefix that
/// could be decoded, or the index of a malformed element.
pub enum SeqChunksParse {
    /// The decoded sequence chunks; possibly fewer than declared when the
    /// file's tail has not been written yet.
    Parsed(Seq<SeqChunkView>),
    /// The element at this index is malformed.
    Failed(nat),
}

/// Parse up to `n` sequence chunks, stopping cleanly at an incomplete
/// element.
pub open spec fn parse_seq_chunks(s: Seq<u8>, n: nat, fuel: nat) -> SeqChunksParse
    decreases fuel,
{
    if n == 0 {
        SeqChunksParse::Parsed(Seq::<SeqChunkView>::empty())
    } else {
        match dec_seq_chunk(s) {
            SpecDec::Val(c, used) => if used < 1 || used > s.len() || fuel == 0 {
                SeqChunksParse::Failed(0)
            } else {
                match parse_seq_chunks(s.skip(used), (n - 1) as nat, (fuel - 1) as nat) {
                    SeqChunksParse::Parsed(cs) => SeqChunksParse::Parsed(seq![c] + cs),
                    SeqChunksParse::Failed(j) => SeqChunksParse::Failed(j + 1),
                }
            },
            SpecDec::More => SeqChunksParse::Parsed(Seq::<SeqChunkView>::empty()),
            SpecDec::Bad => SeqChunksParse::Failed(0),
        }
    }
}

/// Parsing sequence chunks does not depend on the exact fuel, as long as
/// there is at least one unit per remaining byte.
pub proof fn lemma_parse_seq_chunks_fuel(s: Seq<u8>, n: nat, fuel: nat)
    requires
        fuel >= s.len(),
    ensures
        parse_seq_chunks(s, n, fuel) == parse_seq_chunks(s, n, s.len()),
    decreases fuel,
{
    if n != 0 {
        match dec_seq_chunk(s) {
            SpecDec::Val(c, used) => {
                if 1 <= used <= s.len() {
                    assert(s.skip(used).len() == s.len() - used);
                    lemma_parse_seq_chunks_fuel(s.skip(used), (n - 1) as nat, (fuel - 1) as nat);
                    lemma_parse_seq_chunks_fuel(s.skip(used), (n - 1) as nat, (s.len() - 1) as nat);
                }
            },
            _ => {},
        }
    }
}

/// How a chunk file's bytes parse.
pub enum ChunkFileParse {
    /// The header parsed, together with the decodable prefix of the
    /// declared sequence chunks.
    Parsed(ChunkHeader, Seq<SeqChunkView>),
    /// The identifier, header or count could not be read.
    BadPrefix,
    /// The sequence chunk at this index is malformed.
    BadElement(nat),
}

/// Parse the bytes of a chunk file.
pub open spec fn parse_chunk_file(s: Seq<u8>) -> ChunkFileParse {
    match dec_format_identifier(s) {
        SpecDec::Val(_, n1) => match dec_chunk_header(s.skip(n1)) {
            SpecDec::Val(header, n2) => match dec_u64(s.skip(n1 + n2)) {
                SpecDec::Val(count, n3) => {
                    let rest = s.skip(n1 + n2 + n3);
                    if count > usize::MAX {
                        ChunkFileParse::BadPrefix
                    } else {
                        match parse_seq_chunks(rest, count, rest.len()) {
                            SeqChunksParse::Parsed(cs) => ChunkFileParse::Parsed(header, cs),
                            SeqChunksParse::Failed(j) => ChunkFileParse::BadElement(j),
                        }
                    }
                },
                _ => ChunkFileParse::BadPrefix,
            },
            _ => ChunkFileParse::BadPrefix,
        },
        _ => ChunkFileParse::BadPrefix,
    }
}

/// Read a chunk from the bytes of a chunk file.
///
/// The format identifier, header and count must be present. Sequence
/// chunks are then decoded up to the declared count; when the bytes end in
/// the middle of an element the chunks read so far are returned, so a file
/// still being written is read up to its last complete sequence chunk.
#[verifier::rlimit(100)]
#[verifier::loop_isolation(false)]
pub fn read_chunk_from_io(bytes: &Vec<u8>) -> (r: Result<Chunk, ChunkReadError>)
    ensures
        match r {
            Ok(chunk) => parse_chunk_file(bytes@) == ChunkFileParse::Parsed(
                chunk@.header,
                chunk@.seq_chunks,
            ),
            Err(ChunkReadError::ReadError) => parse_chunk_file(bytes@) is BadPrefix,
            Err(ChunkReadError::DeserializeError { index, error }) => parse_chunk_file(bytes@)
                == ChunkFileParse::BadElement(index as nat),
        },
{
    proof {
        assert(bytes@.skip(0) =~= bytes@);
    }
    let (_identifier, p1) = match FormatIdentifier::decode_from(bytes, 0) {
        Ok(v) => v,
        Err(_) => {
            return Err(ChunkReadError::ReadError);
        },
    };
    proof {
        assert(bytes@.skip(0).skip(p1 as int) =~= bytes@.skip(p1 as int));
    }
    let (header, p2) = match decode_chunk_header(bytes, p1) {
        Ok(v) => v,
        Err(_) => {
            return Err(ChunkReadError::ReadError);
        },
    };
    proof {
        assert(bytes@.skip(p1 as int).skip(p2 - p1) =~= bytes@.skip(p2 as int));
    }
    let (count, p3) = match decode_usize(bytes, p2) {
        Ok(v) => v,
        Err(_) => {
            return Err(ChunkReadError::ReadError);
        },
    };
    proof {
        assert(bytes@.skip(p2 as int).skip(p3 - p2) =~= bytes@.skip(p3 as int));
        assert(dec_u64(bytes@.skip(p2 as int)) == SpecDec::<nat>::Val(count as nat, p3 - p2));
    }
    let mut seq_chunks: Vec<SeqChunk> = Vec::new();
    let mut cur: usize = p3;
    let mut i: usize = 0;
    let mut stopped: bool = false;
    while i < count && !stopped
        invariant
            i <= count,
            p3 <= cur <= bytes@.len(),
            seq_chunks@.len() == i,
            parse_seq_chunks(bytes@.skip(p3 as int), count as nat, bytes@.skip(p3 as int).len())
                == (if stopped {
                SeqChunksParse::Parsed(seq_chunks@.map_values(|c: SeqChunk| c@))
            } else {
                match parse_seq_chunks(
                    bytes@.skip(cur as int),
                    (count - i) as nat,
                    bytes@.skip(cur as int).len(),
                ) {
                    SeqChunksParse::Parsed(cs) => SeqChunksParse::Parsed(
                        seq_chunks@.map_values(|c: SeqChunk| c@) + cs,
                    ),
                    SeqChunksParse::Failed(j) => SeqChunksParse::Failed((i + j) as nat),
                }
            }),
        decreases count - i + (if stopped { 0int } else { 1int }),
    {
        let ghost pre = seq_chunks@.map_values(|c: SeqChunk| c@);
        match decode_seq_chunk(bytes, cur) {
            Ok((c, next)) => {
                proof {
                    let s = bytes@.skip(cur as int);
                    assert(s.skip(next - cur) =~= bytes@.skip(next as int));
                    assert(1 <= next - cur <= s.len());
                    assert(parse_seq_chunks(s, (count - i) as nat, s.len()) == (
                    match parse_seq_chunks(s.skip(next - cur), (count - i - 1) as nat, (s.len()
                        - 1) as nat) {
                        SeqChunksParse::Parsed(cs) => SeqChunksParse::Parsed(seq![c@] + cs),
                        SeqChunksParse::Failed(j) => SeqChunksParse::Failed(j + 1),
                    }));
                    lemma_parse_seq_chunks_fuel(bytes@.skip(next as int), (count - i - 1) as nat,
                        (s.len() - 1) as nat);
                }
                seq_chunks.push(c);
                proof {
                    assert(seq_chunks@.map_values(|c2: SeqChunk| c2@) =~= pre.push(
                        seq_chunks@.last()@));
                    match parse_seq_chunks(bytes@.skip(next as int), (count - i - 1) as nat,
                        bytes@.skip(next as int).len()) {
                        SeqChunksParse::Parsed(cs) => {
                            assert(pre.push(seq_chunks@.last()@) + cs =~= pre + (seq![
                                seq_chunks@.last()@] + cs));
                        },
                        SeqChunksParse::Failed(_) => {},
                    }
                }
                cur = next;
                i = i + 1;
            },
            Err(DecodeFailure::Incomplete) => {
                proof {
                    assert(parse_seq_chunks(bytes@.skip(cur as int), (count - i) as nat,
                        bytes@.skip(cur as int).len()) == SeqChunksParse::Parsed(
                        Seq::<SeqChunkView>::empty()));
                    assert(pre + Seq::<SeqChunkView>::empty() =~= pre);
                }
                stopped = true;
            },
            Err(DecodeFailure::Malformed) => {
                return Err(ChunkReadError::DeserializeError {
                    index: i,
                    error: DecodeFailure::Malformed,
                });
            },
        }
    }
    proof {
        if !stopped {
            assert(parse_seq_chunks(bytes@.skip(cur as int), 0, bytes@.skip(cur as int).len())
                == SeqChunksParse::Parsed(Seq::<SeqChunkView>::empty()));
            assert(seq_chunks@.map_values(|c: SeqChunk| c@) + Seq::<SeqChunkView>::empty()
                =~= seq_chunks@.map_values(|c: SeqChunk| c@));
        }
    }
    Ok(Chunk { header, seq_chunks })
}

/// The truncation law for chunk files.
///
/// A chunk file whose tail holds only a prefix of its declared sequence
/// chunks — as when the writer has not finished appending — reads back as
/// exactly the sequence chunks whose encodings are fully present, with the
/// remainder surfaced by the declared count.
#[verifier::rlimit(100)]
#[verifier::spinoff_prover]
pub proof fn lemma_chunk_file_reads_complete_prefix(
    id: FormatIdentifier,
    header: ChunkHeader,
    declared: nat,
    present: Seq<SeqChunkView>,
)
    requires
        present.len() <= declared <= usize::MAX,
        forall|i: int| 0 <= i < present.len() ==> wf_seq_chunk(#[trigger] present[i]),
    ensures
        parse_chunk_file(
            enc_format_identifier(id) + enc_chunk_header(header) + varint_enc(declared)
                + concat_encs(present, |c: SeqChunkView| enc_seq_chunk(c)),
        ) == ChunkFileParse::Parsed(header, present),
{
    let enc = |c: SeqChunkView| enc_seq_chunk(c);
    let e1 = enc_format_identifier(id);
    let e2 = enc_chunk_header(header);
    let e3 = varint_enc(declared);
    let e4 = concat_encs(present, enc);
    let s4 = e4;
    let s3 = e3 + s4;
    let s2 = e2 + s3;
    let s = e1 + e2 + e3 + e4;
    vstd::seq_lib::lemma_concat_associative(e1 + e2, e3, e4);
    vstd::seq_lib::lemma_concat_associative(e1, e2, s3);
    assert(s == e1 + s2);
    lemma_format_identifier_wire_round_trip(id, s2);
    lemma_concat_skip(e1, s2);
    let n1 = e1.len() as int;
    assert(s.skip(n1) == s2);
    lemma_chunk_header_round_trip(header, s3);
    lemma_concat_skip(e2, s3);
    lemma_skip_add(s, n1, e2.len() as int);
    let n2 = n1 + e2.len();
    assert(s.skip(n2) == s3);
    lemma_varint_enc_len_u64(declared);
    lemma_varint_round_trip(declared, s4, 10, u64::MAX as nat);
    lemma_concat_skip(e3, s4);
    lemma_skip_add(s, n2, e3.len() as int);
    let n3 = n2 + e3.len();
    assert(s.skip(n3) == s4);
    lemma_parse_prefix_of_declared(present, declared);
}

/// Parsing the concatenated encodings of fewer sequence chunks than
/// declared yields exactly those chunks: the decoder stops cleanly at the
/// end of the bytes.
proof fn lemma_parse_prefix_of_declared(present: Seq<SeqChunkView>, declared: nat)
    requires
        present.len() <= declared,
        forall|i: int| 0 <= i < present.len() ==> wf_seq_chunk(#[trigger] present[i]),
    ensures
        parse_seq_chunks(
            concat_encs(present, |c: SeqChunkView| enc_seq_chunk(c)),
            declared,
            concat_encs(present, |c: SeqChunkView| enc_seq_chunk(c)).len(),
        ) == SeqChunksParse::Parsed(present),
    decreases present.len(),
{
    reveal(crate::chunked::sequence::dec_seq_chunk);
    let enc = |c: SeqChunkView| enc_seq_chunk(c);
    let s = concat_encs(present, enc);
    if present.len() == 0 {
        assert(s.len() == 0);
        if declared > 0 {
            assert(dec_seq_chunk(s) is More) by {
                assert(s.len() == 0);
                assert(crate::chunked::sequence::dec_seq_chunk_header(s)
                    == SpecDec::<crate::chunked::sequence::SeqChunkHeader>::More);
            }
        }
        assert(present =~= Seq::<SeqChunkView>::empty());
    } else {
        let head = present[0];
        let tail = present.drop_first();
        assert(s == enc(head) + concat_encs(tail, enc));
        lemma_seq_chunk_round_trip(head, concat_encs(tail, enc));
        assert(enc_seq_chunk(head).len() >= 1) by {
            crate::wire::lemma_varint_enc_len_u64(head.header.seq_id.0 as nat);
        }
        assert(enc_seq_chunk(head).len() <= s.len());
        assert(s.skip(enc_seq_chunk(head).len() as int) =~= concat_encs(tail, enc));
        assert(forall|i: int| 0 <= i < tail.len() ==> tail[i] == present[i + 1]);
        lemma_parse_prefix_of_declared(tail, (declared - 1) as nat);
        lemma_parse_seq_chunks_fuel(concat_encs(tail, enc), (declared - 1) as nat, (s.len()
            - 1) as nat);
        assert(seq![head] + tail =~= present);
    }
}

/// The chunk header at the front of a chunk file, when the identifier and
/// header both decode.
pub open spec fn header_of_file(s: Seq<u8>) -> Option<ChunkHeader> {
    match dec_format_identifier(s) {
        SpecDec::Val(_, n1) => match dec_chunk_header(s.skip(n1)) {
            SpecDec::Val(h, _) => Some(h),
            _ => None,
        },
        _ => None,
    }
}

/// The location of one chunk file within a recording.
#[derive(Debug, Clone, PartialEq)]
pub struct ChunkPath {
    /// The chunk file's path.
    pub path: String,
}

impl ChunkPath {
    /// Record a chunk file's path.
    pub fn new(path: String) -> (r: ChunkPath)
        ensures
            r.path@ == path@,
    {
        ChunkPath { path }
    }
}

/// How much of a chunk file has been loaded.
#[derive(Debug, Clone, PartialEq)]
pub enum ChunkLoaderState {
    /// Nothing has been read yet.
    Unloaded,
    /// The identifier and header have been read.
    Header(ChunkHeader),
    /// The whole chunk has been decoded.
    Chunk(Chunk),
}

/// A lazily loaded chunk file.
#[derive(Debug, Clone, PartialEq)]
pub struct ChunkLoader {
    /// Where the chunk file lives.
    pub path: ChunkPath,
    /// How much of it has been loaded.
    pub state: ChunkLoaderState,
}

impl ChunkLoader {
    /// A loader for a chunk file that has not been read yet.
    pub fn from_path(path: ChunkPath) -> (r: ChunkLoader)
        ensures
            r.path.path@ == path.path@,
            r.state is Unloaded,
    {
        ChunkLoader { path, state: ChunkLoaderState::Unloaded }
    }

    /// The chunk file's path.
    pub fn path(&self) -> (r: &String)
        ensures
            r == self.path.path,
    {
        &self.path.path
    }

    /// Promote the loader to at least the header state, given the file's
    /// bytes. Idempotent: an already loaded header or chunk is kept.
    pub fn ensure_header(&mut self, bytes: &Vec<u8>)
        ensures
            final(self).path == old(self).path,
            !(old(self).state is Unloaded) ==> final(self).state == old(self).state,
            old(self).state is Unloaded ==> match final(self).state {
                ChunkLoaderState::Header(h) => header_of_file(bytes@) == Some(h),
                ChunkLoaderState::Unloaded => header_of_file(bytes@) is None,
                ChunkLoaderState::Chunk(_) => false,
            },
    {
        match &self.state {
            ChunkLoaderState::Unloaded => {
                proof {
                    assert(bytes@.skip(0) =~= bytes@);
                }
                let (_identifier, p1) = match FormatIdentifier::decode_from(bytes, 0) {
                    Ok(v) => v,
                    Err(_) => {
                        return ;
                    },
                };
                proof {
                    assert(bytes@.skip(0).skip(p1 as int) =~= bytes@.skip(p1 as int));
                }
                match decode_chunk_header(bytes, p1) {
                    Ok((header, _)) => {
                        self.state = ChunkLoaderState::Header(header);
                    },
                    Err(_) => (),
                }
            },
            _ => (),
        }
    }

    /// Promote the loader to the fully decoded state, given the file's
    /// bytes. Idempotent: an already decoded chunk is kept; a file that
    /// cannot be read leaves the state as it was.
    pub fn ensure_chunk(&mut self, bytes: &Vec<u8>)
        ensures
            final(self).path == old(self).path,
            old(self).state is Chunk ==> final(self).state == old(self).state,
            !(old(self).state is Chunk) ==> match final(self).state {
                ChunkLoaderState::Chunk(chunk) => parse_chunk_file(bytes@)
                    == ChunkFileParse::Parsed(chunk@.header, chunk@.seq_chunks),
                _ => final(self).state == old(self).state,
            },
    {
        match &self.state {
            ChunkLoaderState::Chunk(_) => (),
            _ => {
                match read_chunk_from_io(bytes) {
                    Ok(chunk) => {
                        self.state = ChunkLoaderState::Chunk(chunk);
                    },
                    Err(_) => (),
                }
            },
        }
    }
}

/// An error opening a recording.
#[derive(Debug)]
pub enum RecordingReadError {
    /// The meta file could not be parsed.
    ReadingMetaFailed(crate::chunked::meta::MetaTryFromIoError),
    /// The recording's format cannot be read by this version.
    IncompatibleVersion(FormatIdentifier),
}

/// A chunked recording: its meta file and its chunk files.
#[derive(Debug)]
pub struct Recording {
    /// The recording's metadata.
    pub meta: crate::chunked::meta::ChunkedMeta,
    /// The recording's chunk files, in path order.
    pub chunks: Vec<ChunkLoader>,
}

impl Recording {
    /// Assemble a recording from its parsed meta file and the loaders for
    /// its chunk files.
    ///
    /// The first format identifier recorded in the meta file must be
    /// readable by this library's chunk format version.
    pub fn from_parts(meta: crate::chunked::meta::ChunkedMeta, chunks: Vec<ChunkLoader>) -> (r:
        Result<Recording, RecordingReadError>)
        requires
            meta@.format_identifiers.len() >= 1,
        ensures
            match r {
                Ok(rec) => rec.meta@ == meta@ && rec.chunks@ == chunks@ && can_read_chunks_spec(
                    meta@.format_identifiers[0],
                ),
                Err(RecordingReadError::IncompatibleVersion(id)) => id
                    == meta@.format_identifiers[0] && !can_read_chunks_spec(id),
                Err(RecordingReadError::ReadingMetaFailed(_)) => false,
            },
    {
        let current = chunk_format_version();
        if !current.can_read_version(&meta.header.format_identifiers[0]) {
            let id = clone_identifier(&meta.header.format_identifiers[0]);
            return Err(RecordingReadError::IncompatibleVersion(id));
        }
        Ok(Recording { meta, chunks })
    }

    /// The recording's metadata.
    pub fn meta(&self) -> (r: &crate::chunked::meta::ChunkedMeta)
        ensures
            r == self.meta,
    {
        &self.meta
    }

    /// The number of chunk files in the recording.
    pub fn chunk_count(&self) -> (r: usize)
        ensures
            r == self.chunks@.len(),
    {
        self.chunks.len()
    }

    /// The chunks that have been fully decoded, one entry per chunk file:
    /// a loaded chunk, or nothing for a file that is unloaded or could not
    /// be read.
    pub fn chunks_lossy(&self) -> (r: Vec<Option<&Chunk>>)
        ensures
            r@.len() == self.chunks@.len(),
            forall|i: int|
                0 <= i < r@.len() ==> (match #[trigger] r@[i] {
                    Some(chunk) => self.chunks@[i].state == ChunkLoaderState::Chunk(*chunk),
                    None => !(self.chunks@[i].state is Chunk),
                }),
    {
        let mut r: Vec<Option<&Chunk>> = Vec::new();
        let mut i: usize = 0;
        while i < self.chunks.len()
            invariant
                i <= self.chunks@.len(),
                r@.len() == i,
                forall|j: int|
                    0 <= j < i ==> (match #[trigger] r@[j] {
                        Some(chunk) => self.chunks@[j].state == ChunkLoaderState::Chunk(*chunk),
                        None => !(self.chunks@[j].state is Chunk),
                    }),
            decreases self.chunks@.len() - i,
        {
            match &self.chunks[i].state {
                ChunkLoaderState::Chunk(chunk) => {
                    r.push(Some(chunk));
                },
                _ => {
                    r.push(None);
                },
            }
            i = i + 1;
        }
        r
    }
}

/// The chunk format version this library writes and reads.
pub open spec fn chunk_format_version_spec() -> FormatIdentifier {
    FormatIdentifier {
        variant: crate::identifier::FormatVariant::RfrChunked,
        major: 0,
        minor: 0,
        patch: 2,
    }
}

/// The chunk format version this library writes and reads.
pub fn chunk_format_version() -> (r: FormatIdentifier)
    ensures
        r == chunk_format_version_spec(),
{
    FormatIdentifier {
        variant: crate::identifier::FormatVariant::RfrChunked,
        major: 0,
        minor: 0,
        patch: 2,
    }
}

/// Whether this library can read chunks recorded under the given format
/// identifier.
pub open spec fn can_read_chunks_spec(id: FormatIdentifier) -> bool {
    crate::identifier::can_read_spec(chunk_format_version_spec(), id)
}

/// Copy a format identifier.
fn clone_identifier(id: &FormatIdentifier) -> (r: FormatIdentifier)
    ensures
        r == *id,
{
    FormatIdentifier { variant: id.variant, major: id.major, minor: id.minor, patch: id.patch }
}

} // verus!
