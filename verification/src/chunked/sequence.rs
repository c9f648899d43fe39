//! Sequences.
//!
//! Each chunk in a chunked recording is made up of one or more sequence
//! chunks. A sequence chunk contains an in-order series of records and the
//! objects referenced by those records. A sequence generally models events
//! from a single thread of execution; sequences are tracked across chunks
//! by their stable sequence identifier.

use vstd::prelude::*;

use crate::chunked::record::{
    dec_object, dec_record, decode_object, decode_record, enc_object, enc_record,
    lemma_object_round_trip, lemma_record_round_trip, record_refs, wf_object, wf_record, Object,
    ObjectView, Record, RecordData, RecordDataView, RecordView,
};
use crate::codec::{
    concat_encs, dec_elems, dec_vec, enc_vec, lemma_concat_encs_push, lemma_concat_skip,
    lemma_dec_vec_round_trip, lemma_skip_add,
};
use crate::common::InstrumentationId;
use crate::timestamp::{AbsTimestamp, AbsTimestampSecs, ChunkInterval, ChunkTimestamp};
use crate::wire::{
    dec_u64, dec_usize, decode_u64, decode_usize, encode_u64, lemma_u64_round_trip,
    lemma_varint_enc_len_u64, lemma_varint_round_trip, varint_enc, DecodeFailure, SpecDec,
};

verus! {

/// The sequence identifier.
///
/// The sequence identifier links together the sequence chunks of one
/// producer across different parent chunks.
#[derive(Debug, Clone, Copy, Hash, PartialEq, Eq, Structural)]
pub struct SeqId(pub u64);

impl SeqId {
    /// The `u64` representation of the sequence id.
    pub fn as_u64(&self) -> (r: u64)
        ensures
            r == self.0,
    {
        self.0
    }
}

impl From<u64> for SeqId {
    /// Create a sequence id from a `u64` value.
    fn from(value: u64) -> (r: SeqId) {
        SeqId(value)
    }
}

impl vstd::std_specs::convert::FromSpecImpl<u64> for SeqId {
    open spec fn obeys_from_spec() -> bool {
        true
    }

    open spec fn from_spec(value: u64) -> SeqId {
        SeqId(value)
    }
}

/// The header data for a sequence chunk.
#[derive(Debug, Clone, Copy, PartialEq, Eq, Structural)]
pub struct SeqChunkHeader {
    /// The identifier of the producing sequence.
    pub seq_id: SeqId,
    /// The smallest record timestamp in the sequence chunk.
    pub earliest_timestamp: ChunkTimestamp,
    /// The largest record timestamp in the sequence chunk.
    pub latest_timestamp: ChunkTimestamp,
}

/// A sequence chunk: the part of a chunk contributed by one sequence.
///
/// All records in a sequence chunk are in order, whereas no such guarantee
/// is made regarding the records from different sequences.
#[derive(Debug, Clone, PartialEq)]
pub struct SeqChunk {
    /// The sequence chunk's header.
    pub header: SeqChunkHeader,
    /// The objects referenced by the records.
    pub objects: Vec<Object>,
    /// The records, in order.
    pub records: Vec<Record>,
}

/// The mathematical value of a sequence chunk.
pub struct SeqChunkView {
    /// The sequence chunk's header.
    pub header: SeqChunkHeader,
    /// The objects referenced by the records.
    pub objects: Seq<ObjectView>,
    /// The records, in order.
    pub records: Seq<RecordView>,
}

impl View for SeqChunk {
    type V = SeqChunkView;

    open spec fn view(&self) -> SeqChunkView {
        SeqChunkView {
            header: self.header,
            objects: self.objects@.map_values(|o: Object| o@),
            records: self.records@.map_values(|r: Record| r@),
        }
    }
}

/// The encoding of a sequence chunk header: its three fields as varints.
pub open spec fn enc_seq_chunk_header(h: SeqChunkHeader) -> Seq<u8> {
    varint_enc(h.seq_id.0 as nat) + varint_enc(h.earliest_timestamp.micros as nat) + varint_enc(
        h.latest_timestamp.micros as nat)
}

/// Decode a sequence chunk header.
pub open spec fn dec_seq_chunk_header(s: Seq<u8>) -> SpecDec<SeqChunkHeader> {
    match dec_u64(s) {
        SpecDec::Val(sid, n1) => match dec_u64(s.skip(n1)) {
            SpecDec::Val(earliest, n2) => match dec_u64(s.skip(n1 + n2)) {
                SpecDec::Val(latest, n3) => SpecDec::Val(
                    SeqChunkHeader {
                        seq_id: SeqId(sid as u64),
                        earliest_timestamp: ChunkTimestamp { micros: earliest as u64 },
                        latest_timestamp: ChunkTimestamp { micros: latest as u64 },
                    },
                    n1 + n2 + n3,
                ),
                SpecDec::More => SpecDec::More,
                SpecDec::Bad => SpecDec::Bad,
            },
            SpecDec::More => SpecDec::More,
            SpecDec::Bad => SpecDec::Bad,
        },
        SpecDec::More => SpecDec::More,
        SpecDec::Bad => SpecDec::Bad,
    }
}

/// Append the encoding of a sequence chunk header to the output.
pub fn encode_seq_chunk_header(out: &mut Vec<u8>, h: &SeqChunkHeader)
    ensures
        final(out)@ == old(out)@ + enc_seq_chunk_header(*h),
{
    encode_u64(out, h.seq_id.0);
    encode_u64(out, h.earliest_timestamp.micros);
    encode_u64(out, h.latest_timestamp.micros);
    proof {
        assert(out@ =~= old(out)@ + enc_seq_chunk_header(*h));
    }
}

/// Decode a sequence chunk header from `bytes` at `pos`.
pub fn decode_seq_chunk_header(bytes: &Vec<u8>, pos: usize) -> (r: Result<
    (SeqChunkHeader, usize),
    DecodeFailure,
>)
    requires
        pos <= bytes@.len(),
    ensures
        match r {
            Ok((v, next)) => dec_seq_chunk_header(bytes@.skip(pos as int)) == SpecDec::Val(
                v,
                next - pos,
            ) && pos < next <= bytes@.len(),
            Err(DecodeFailure::Incomplete) => dec_seq_chunk_header(bytes@.skip(pos as int))
                == SpecDec::<SeqChunkHeader>::More,
            Err(DecodeFailure::Malformed) => dec_seq_chunk_header(bytes@.skip(pos as int))
                == SpecDec::<SeqChunkHeader>::Bad,
        },
{
    let ghost s = bytes@.skip(pos as int);
    let (sid, p1) = match decode_u64(bytes, pos) {
        Ok(v) => v,
        Err(e) => {
            return Err(e);
        },
    };
    proof {
        assert(s.skip(p1 - pos) =~= bytes@.skip(p1 as int));
    }
    let (earliest, p2) = match decode_u64(bytes, p1) {
        Ok(v) => v,
        Err(e) => {
            return Err(e);
        },
    };
    proof {
        assert(s.skip(p2 - pos) =~= bytes@.skip(p2 as int));
    }
    let (latest, p3) = match decode_u64(bytes, p2) {
        Ok(v) => v,
        Err(e) => {
            return Err(e);
        },
    };
    Ok(
        (
            SeqChunkHeader {
                seq_id: SeqId(sid),
                earliest_timestamp: ChunkTimestamp { micros: earliest },
                latest_timestamp: ChunkTimestamp { micros: latest },
            },
            p3,
        ),
    )
}

/// The round-trip law for sequence chunk headers.
pub proof fn lemma_seq_chunk_header_round_trip(h: SeqChunkHeader, rest: Seq<u8>)
    ensures
        dec_seq_chunk_header(enc_seq_chunk_header(h) + rest) == SpecDec::Val(
            h,
            enc_seq_chunk_header(h).len() as int,
        ),
{
    let e1 = varint_enc(h.seq_id.0 as nat);
    let e2 = varint_enc(h.earliest_timestamp.micros as nat);
    let e3 = varint_enc(h.latest_timestamp.micros as nat);
    let s3 = e3 + rest;
    let s2 = e2 + s3;
    let s = enc_seq_chunk_header(h) + rest;
    vstd::seq_lib::lemma_concat_associative(e1 + e2, e3, rest);
    vstd::seq_lib::lemma_concat_associative(e1, e2, s3);
    assert(s == e1 + s2);
    lemma_u64_round_trip(h.seq_id.0, s2);
    lemma_concat_skip(e1, s2);
    let n1 = e1.len() as int;
    assert(s.skip(n1) == s2);
    lemma_u64_round_trip(h.earliest_timestamp.micros, s3);
    lemma_concat_skip(e2, s3);
    lemma_skip_add(s, n1, e2.len() as int);
    let n2 = n1 + e2.len();
    assert(s.skip(n2) == s3);
    lemma_u64_round_trip(h.latest_timestamp.micros, rest);
}

/// Whether a sequence chunk can be encoded.
pub open spec fn wf_seq_chunk(v: SeqChunkView) -> bool {
    &&& v.objects.len() <= usize::MAX
    &&& v.records.len() <= usize::MAX
    &&& forall|i: int| 0 <= i < v.objects.len() ==> wf_object(#[trigger] v.objects[i])
    &&& forall|i: int| 0 <= i < v.records.len() ==> wf_record(#[trigger] v.records[i])
}

/// The encoding of a sequence chunk: its header, the object count and
/// objects, then the record count and records.
pub open spec fn enc_seq_chunk(v: SeqChunkView) -> Seq<u8> {
    enc_seq_chunk_header(v.header) + enc_vec(v.objects, |o: ObjectView| enc_object(o)) + enc_vec(
        v.records,
        |r: RecordView| enc_record(r),
    )
}

/// Decode a sequence chunk.
#[verifier::opaque]
pub open spec fn dec_seq_chunk(s: Seq<u8>) -> SpecDec<SeqChunkView> {
    match dec_seq_chunk_header(s) {
        SpecDec::Val(header, n1) => match dec_vec(s.skip(n1), |t: Seq<u8>| dec_object(t)) {
            SpecDec::Val(objects, n2) => match dec_vec(
                s.skip(n1 + n2),
                |t: Seq<u8>| dec_record(t),
            ) {
                SpecDec::Val(records, n3) => SpecDec::Val(
                    SeqChunkView { header, objects, records },
                    n1 + n2 + n3,
                ),
                SpecDec::More => SpecDec::More,
                SpecDec::Bad => SpecDec::Bad,
            },
            SpecDec::More => SpecDec::More,
            SpecDec::Bad => SpecDec::Bad,
        },
        SpecDec::More => SpecDec::More,
        SpecDec::Bad => SpecDec::Bad,
    }
}

/// Append the encoding of a list of objects to the output.
#[verifier::loop_isolation(false)]
pub fn encode_objects(out: &mut Vec<u8>, objects: &Vec<Object>)
    ensures
        final(out)@ == old(out)@ + enc_vec(
            objects@.map_values(|o: Object| o@),
            |o: ObjectView| enc_object(o),
        ),
{
    let ghost enc = |o: ObjectView| enc_object(o);
    let ghost views = objects@.map_values(|o: Object| o@);
    encode_u64(out, objects.len() as u64);
    let ghost mid = out@;
    let mut i: usize = 0;
    while i < objects.len()
        invariant
            i <= objects@.len(),
            out@ == mid + concat_encs(views.take(i as int), enc),
        decreases objects@.len() - i,
    {
        crate::chunked::record::encode_object(out, &objects[i]);
        proof {
            assert(views[i as int] == objects@[i as int]@);
            assert(views.take(i + 1) =~= views.take(i as int).push(views[i as int]));
            lemma_concat_encs_push(views.take(i as int), enc, views[i as int]);
            assert(out@ =~= mid + concat_encs(views.take(i + 1), enc));
        }
        i = i + 1;
    }
    proof {
        assert(views.take(views.len() as int) =~= views);
        assert(out@ =~= old(out)@ + enc_vec(views, enc));
    }
}

/// Decode a list of objects from `bytes` at `pos`.
#[verifier::rlimit(100)]
#[verifier::loop_isolation(false)]
pub fn decode_objects(bytes: &Vec<u8>, pos: usize) -> (r: Result<
    (Vec<Object>, usize),
    DecodeFailure,
>)
    requires
        pos <= bytes@.len(),
    ensures
        match r {
            Ok((v, next)) => dec_vec(bytes@.skip(pos as int), |t: Seq<u8>| dec_object(t))
                == SpecDec::Val(v@.map_values(|o: Object| o@), next - pos) && pos <= next
                <= bytes@.len(),
            Err(DecodeFailure::Incomplete) => dec_vec(
                bytes@.skip(pos as int),
                |t: Seq<u8>| dec_object(t),
            ) == SpecDec::<Seq<ObjectView>>::More,
            Err(DecodeFailure::Malformed) => dec_vec(
                bytes@.skip(pos as int),
                |t: Seq<u8>| dec_object(t),
            ) == SpecDec::<Seq<ObjectView>>::Bad,
        },
{
    let ghost dec = |t: Seq<u8>| dec_object(t);
    let ghost s = bytes@.skip(pos as int);
    let (n, mid) = match decode_usize(bytes, pos) {
        Ok(v) => v,
        Err(e) => {
            return Err(e);
        },
    };
    proof {
        assert(s.skip(mid - pos) =~= bytes@.skip(mid as int));
    }
    let mut v: Vec<Object> = Vec::new();
    let mut cur: usize = mid;
    let mut i: usize = 0;
    while i < n
        invariant
            i <= n,
            pos <= mid <= cur <= bytes@.len(),
            v@.len() == i,
            dec_elems(bytes@.skip(mid as int), dec, n as nat) == (match dec_elems(
                bytes@.skip(cur as int),
                dec,
                (n - i) as nat,
            ) {
                SpecDec::Val(vs, used) => SpecDec::Val(
                    v@.map_values(|o: Object| o@) + vs,
                    (cur - mid) + used,
                ),
                SpecDec::More => SpecDec::<Seq<ObjectView>>::More,
                SpecDec::Bad => SpecDec::<Seq<ObjectView>>::Bad,
            }),
        decreases n - i,
    {
        let ghost pre = v@.map_values(|o: Object| o@);
        match decode_object(bytes, cur) {
            Ok((o, next)) => {
                proof {
                    assert(bytes@.skip(cur as int).skip(next - cur) =~= bytes@.skip(
                        next as int));
                    assert(dec_elems(bytes@.skip(cur as int), dec, (n - i) as nat) == (
                    match dec_elems(bytes@.skip(next as int), dec, (n - i - 1) as nat) {
                        SpecDec::Val(vs, used) => SpecDec::Val(
                            seq![o@] + vs,
                            (next - cur) + used,
                        ),
                        SpecDec::More => SpecDec::<Seq<ObjectView>>::More,
                        SpecDec::Bad => SpecDec::<Seq<ObjectView>>::Bad,
                    }));
                }
                v.push(o);
                proof {
                    assert(v@.map_values(|o2: Object| o2@) =~= pre.push(v@.last()@));
                    match dec_elems(bytes@.skip(next as int), dec, (n - i - 1) as nat) {
                        SpecDec::Val(vs, used) => {
                            assert(pre.push(v@.last()@) + vs =~= pre + (seq![v@.last()@] + vs));
                        },
                        SpecDec::More => {},
                        SpecDec::Bad => {},
                    }
                }
                cur = next;
            },
            Err(e) => {
                return Err(e);
            },
        }
        i = i + 1;
    }
    proof {
        assert(dec_elems(bytes@.skip(cur as int), dec, 0) == SpecDec::<Seq<ObjectView>>::Val(
            Seq::<ObjectView>::empty(), 0));
        assert(v@.map_values(|o: Object| o@) + Seq::<ObjectView>::empty() =~= v@.map_values(
            |o: Object| o@));
    }
    Ok((v, cur))
}

/// Decode a list of records from `bytes` at `pos`.
#[verifier::rlimit(100)]
#[verifier::loop_isolation(false)]
pub fn decode_records(bytes: &Vec<u8>, pos: usize) -> (r: Result<
    (Vec<Record>, usize),
    DecodeFailure,
>)
    requires
        pos <= bytes@.len(),
    ensures
        match r {
            Ok((v, next)) => dec_vec(bytes@.skip(pos as int), |t: Seq<u8>| dec_record(t))
                == SpecDec::Val(v@.map_values(|x: Record| x@), next - pos) && pos <= next
                <= bytes@.len(),
            Err(DecodeFailure::Incomplete) => dec_vec(
                bytes@.skip(pos as int),
                |t: Seq<u8>| dec_record(t),
            ) == SpecDec::<Seq<RecordView>>::More,
            Err(DecodeFailure::Malformed) => dec_vec(
                bytes@.skip(pos as int),
                |t: Seq<u8>| dec_record(t),
            ) == SpecDec::<Seq<RecordView>>::Bad,
        },
{
    let ghost dec = |t: Seq<u8>| dec_record(t);
    let ghost s = bytes@.skip(pos as int);
    let (n, mid) = match decode_usize(bytes, pos) {
        Ok(v) => v,
        Err(e) => {
            return Err(e);
        },
    };
    proof {
        assert(s.skip(mid - pos) =~= bytes@.skip(mid as int));
    }
    let mut v: Vec<Record> = Vec::new();
    let mut cur: usize = mid;
    let mut i: usize = 0;
    while i < n
        invariant
            i <= n,
            pos <= mid <= cur <= bytes@.len(),
            v@.len() == i,
            dec_elems(bytes@.skip(mid as int), dec, n as nat) == (match dec_elems(
                bytes@.skip(cur as int),
                dec,
                (n - i) as nat,
            ) {
                SpecDec::Val(vs, used) => SpecDec::Val(
                    v@.map_values(|x: Record| x@) + vs,
                    (cur - mid) + used,
                ),
                SpecDec::More => SpecDec::<Seq<RecordView>>::More,
                SpecDec::Bad => SpecDec::<Seq<RecordView>>::Bad,
            }),
        decreases n - i,
    {
        let ghost pre = v@.map_values(|x: Record| x@);
        match decode_record(bytes, cur) {
            Ok((rec, next)) => {
                proof {
                    assert(bytes@.skip(cur as int).skip(next - cur) =~= bytes@.skip(
                        next as int));
                    assert(dec_elems(bytes@.skip(cur as int), dec, (n - i) as nat) == (
                    match dec_elems(bytes@.skip(next as int), dec, (n - i - 1) as nat) {
                        SpecDec::Val(vs, used) => SpecDec::Val(
                            seq![rec@] + vs,
                            (next - cur) + used,
                        ),
                        SpecDec::More => SpecDec::<Seq<RecordView>>::More,
                        SpecDec::Bad => SpecDec::<Seq<RecordView>>::Bad,
                    }));
                }
                v.push(rec);
                proof {
                    assert(v@.map_values(|x: Record| x@) =~= pre.push(v@.last()@));
                    match dec_elems(bytes@.skip(next as int), dec, (n - i - 1) as nat) {
                        SpecDec::Val(vs, used) => {
                            assert(pre.push(v@.last()@) + vs =~= pre + (seq![v@.last()@] + vs));
                        },
                        SpecDec::More => {},
                        SpecDec::Bad => {},
                    }
                }
                cur = next;
            },
            Err(e) => {
                return Err(e);
            },
        }
        i = i + 1;
    }
    proof {
        assert(dec_elems(bytes@.skip(cur as int), dec, 0) == SpecDec::<Seq<RecordView>>::Val(
            Seq::<RecordView>::empty(), 0));
        assert(v@.map_values(|x: Record| x@) + Seq::<RecordView>::empty() =~= v@.map_values(
            |x: Record| x@));
    }
    Ok((v, cur))
}

/// Decode a sequence chunk from `bytes` at `pos`.
#[verifier::rlimit(100)]
pub fn decode_seq_chunk(bytes: &Vec<u8>, pos: usize) -> (r: Result<
    (SeqChunk, usize),
    DecodeFailure,
>)
    requires
        pos <= bytes@.len(),
    ensures
        match r {
            Ok((v, next)) => dec_seq_chunk(bytes@.skip(pos as int)) == SpecDec::Val(
                v@,
                next - pos,
            ) && pos < next <= bytes@.len(),
            Err(DecodeFailure::Incomplete) => dec_seq_chunk(bytes@.skip(pos as int))
                == SpecDec::<SeqChunkView>::More,
            Err(DecodeFailure::Malformed) => dec_seq_chunk(bytes@.skip(pos as int))
                == SpecDec::<SeqChunkView>::Bad,
        },
{
    proof {
        reveal(dec_seq_chunk);
    }
    let ghost s = bytes@.skip(pos as int);
    let (header, p1) = match decode_seq_chunk_header(bytes, pos) {
        Ok(v) => v,
        Err(e) => {
            return Err(e);
        },
    };
    proof {
        assert(s.skip(p1 - pos) =~= bytes@.skip(p1 as int));
    }
    let (objects, p2) = match decode_objects(bytes, p1) {
        Ok(v) => v,
        Err(e) => {
            return Err(e);
        },
    };
    proof {
        assert(s.skip(p2 - pos) =~= bytes@.skip(p2 as int));
    }
    let (records, p3) = match decode_records(bytes, p2) {
        Ok(v) => v,
        Err(e) => {
            return Err(e);
        },
    };
    Ok((SeqChunk { header, objects, records }, p3))
}

/// Append the encoding of a list of records to the output.
#[verifier::loop_isolation(false)]
pub fn encode_records(out: &mut Vec<u8>, records: &Vec<Record>)
    ensures
        final(out)@ == old(out)@ + enc_vec(
            records@.map_values(|r: Record| r@),
            |r: RecordView| enc_record(r),
        ),
{
    let ghost enc = |r: RecordView| enc_record(r);
    let ghost views = records@.map_values(|r: Record| r@);
    encode_u64(out, records.len() as u64);
    let ghost mid = out@;
    let mut i: usize = 0;
    while i < records.len()
        invariant
            i <= records@.len(),
            out@ == mid + concat_encs(views.take(i as int), enc),
        decreases records@.len() - i,
    {
        crate::chunked::record::encode_record(out, &records[i]);
        proof {
            assert(views[i as int] == records@[i as int]@);
            assert(views.take(i + 1) =~= views.take(i as int).push(views[i as int]));
            lemma_concat_encs_push(views.take(i as int), enc, views[i as int]);
            assert(out@ =~= mid + concat_encs(views.take(i + 1), enc));
        }
        i = i + 1;
    }
    proof {
        assert(views.take(views.len() as int) =~= views);
        assert(out@ =~= old(out)@ + enc_vec(views, enc));
    }
}

/// The in-memory accumulator for one sequence within one interval.
///
/// The buffer owns a chunk interval and gathers the records appended by its
/// producer, faulting in the objects those records refer to on first sight.
/// A record whose referred object cannot be resolved is dropped, and the
/// failing id is remembered so it is not asked for again.
#[derive(Debug)]
pub struct SeqChunkBuffer {
    interval: ChunkInterval,
    seq_id: SeqId,
    earliest_timestamp: ChunkTimestamp,
    latest_timestamp: ChunkTimestamp,
    objects: Vec<(InstrumentationId, Object)>,
    missing_objects: Vec<InstrumentationId>,
    records: Vec<Record>,
}

/// The mathematical state of a sequence chunk buffer.
pub struct SeqChunkBufferView {
    /// The interval the buffer is responsible for.
    pub interval: ChunkInterval,
    /// The identifier of the producing sequence.
    pub seq_id: SeqId,
    /// The smallest record timestamp seen, initially the interval's end.
    pub earliest_timestamp: ChunkTimestamp,
    /// The largest record timestamp seen, initially the interval's start.
    pub latest_timestamp: ChunkTimestamp,
    /// The resolved objects, keyed by the id they were asked for under.
    pub objects: Seq<(InstrumentationId, ObjectView)>,
    /// The ids whose objects could not be resolved.
    pub missing_objects: Seq<InstrumentationId>,
    /// The appended records, in order.
    pub records: Seq<RecordView>,
}

impl View for SeqChunkBuffer {
    type V = SeqChunkBufferView;

    closed spec fn view(&self) -> SeqChunkBufferView {
        SeqChunkBufferView {
            interval: self.interval,
            seq_id: self.seq_id,
            earliest_timestamp: self.earliest_timestamp,
            latest_timestamp: self.latest_timestamp,
            objects: self.objects@.map_values(|p: (InstrumentationId, Object)| (p.0, p.1@)),
            missing_objects: self.missing_objects@,
            records: self.records@.map_values(|r: Record| r@),
        }
    }
}

/// The ids the buffer holds objects for.
pub open spec fn object_keys(v: SeqChunkBufferView) -> Seq<InstrumentationId> {
    v.objects.map_values(|p: (InstrumentationId, ObjectView)| p.0)
}

/// A buffer is well formed when its recorded extremes bound every record's
/// timestamp, every record's timestamp lies within the buffer's interval,
/// and every id referenced by a record has an object entry.
pub open spec fn buffer_well_formed(v: SeqChunkBufferView) -> bool {
    &&& forall|i: int|
        0 <= i < v.records.len() ==> v.earliest_timestamp.micros <= (#[trigger] v.records[
        i]).meta.timestamp.micros <= v.latest_timestamp.micros
    &&& forall|i: int|
        0 <= i < v.records.len() ==> v.interval.start_time.micros <= (#[trigger] v.records[
        i]).meta.timestamp.micros < v.interval.end_time.micros
    &&& forall|i: int, j: int|
        0 <= i < v.records.len() && 0 <= j < record_refs(v.records[i].data).len()
            ==> object_keys(v).contains(#[trigger] record_refs(v.records[i].data)[j])
}

/// The referenced ids that are neither resolved nor known missing, in
/// reference order.
pub open spec fn unresolved_refs(
    refs: Seq<InstrumentationId>,
    keys: Seq<InstrumentationId>,
    missing: Seq<InstrumentationId>,
) -> Seq<InstrumentationId>
    decreases refs.len(),
{
    if refs.len() == 0 {
        Seq::<InstrumentationId>::empty()
    } else {
        let rest = unresolved_refs(refs.drop_last(), keys, missing);
        if keys.contains(refs.last()) || missing.contains(refs.last()) {
            rest
        } else {
            rest.push(refs.last())
        }
    }
}

/// The ids a buffer would ask the resolver for when appending a record.
pub open spec fn buffer_missing_refs(v: SeqChunkBufferView, d: RecordDataView) -> Seq<
    InstrumentationId,
> {
    unresolved_refs(record_refs(d), object_keys(v), v.missing_objects)
}

/// Whether some referenced id is already known to be unresolvable.
pub open spec fn refs_blocked(v: SeqChunkBufferView, d: RecordDataView) -> bool {
    exists|j: int|
        0 <= j < record_refs(d).len() && v.missing_objects.contains(
            #[trigger] record_refs(d)[j],
        ) && !object_keys(v).contains(record_refs(d)[j])
}

/// The position of the first asked id that the resolver failed to resolve;
/// the number of asked ids when it resolved them all.
pub open spec fn first_unresolved(
    asked: Seq<InstrumentationId>,
    results: Seq<Option<ObjectView>>,
) -> int
    decreases asked.len(),
{
    if asked.len() == 0 {
        0
    } else if results.len() == 0 || results[0] is None {
        0
    } else {
        1 + first_unresolved(asked.drop_first(), results.drop_first())
    }
}

/// The object carried by a resolved result.
pub open spec fn resolved_value(o: Option<ObjectView>) -> ObjectView
    recommends
        o is Some,
{
    match o {
        Some(x) => x,
        None => arbitrary(),
    }
}

/// The object entries added by the first `m` resolver results.
pub open spec fn resolved_objects(
    asked: Seq<InstrumentationId>,
    results: Seq<Option<ObjectView>>,
    m: int,
) -> Seq<(InstrumentationId, ObjectView)> {
    Seq::new(m as nat, |k: int| (asked[k], resolved_value(results[k])))
}

/// The smaller of two chunk timestamps.
pub open spec fn ts_min(a: ChunkTimestamp, b: ChunkTimestamp) -> ChunkTimestamp {
    if b.micros < a.micros {
        b
    } else {
        a
    }
}

/// The larger of two chunk timestamps.
pub open spec fn ts_max(a: ChunkTimestamp, b: ChunkTimestamp) -> ChunkTimestamp {
    if b.micros > a.micros {
        b
    } else {
        a
    }
}

/// The mathematical values of a resolver's results.
pub open spec fn object_results_view(results: Seq<Option<Object>>) -> Seq<Option<ObjectView>> {
    results.map_values(
        |o: Option<Object>|
            match o {
                Some(x) => Some(x@),
                None => None::<ObjectView>,
            },
    )
}

/// The state of a buffer after appending a record with the given resolver
/// results.
///
/// The resolver is asked once for the ids in `asked`. Objects up to the
/// first failure are cached. If some asked id fails, it is remembered as
/// missing and the record is dropped; if some referenced id was already
/// known missing, the record is likewise dropped; otherwise the record is
/// appended and the timestamp extremes are widened to cover it.
pub open spec fn resolution_outcome(
    pre: SeqChunkBufferView,
    record: RecordView,
    asked: Seq<InstrumentationId>,
    results: Seq<Option<ObjectView>>,
) -> SeqChunkBufferView {
    let m = first_unresolved(asked, results);
    let objects2 = pre.objects + resolved_objects(asked, results, m);
    if m < asked.len() {
        SeqChunkBufferView {
            objects: objects2,
            missing_objects: pre.missing_objects.push(asked[m]),
            ..pre
        }
    } else if refs_blocked(pre, record.data) {
        SeqChunkBufferView { objects: objects2, ..pre }
    } else {
        SeqChunkBufferView {
            objects: objects2,
            records: pre.records.push(record),
            earliest_timestamp: ts_min(pre.earliest_timestamp, record.meta.timestamp),
            latest_timestamp: ts_max(pre.latest_timestamp, record.meta.timestamp),
            ..pre
        }
    }
}

impl SeqChunkBuffer {
    /// Create an empty buffer for an interval, producing for the given
    /// sequence.
    ///
    /// The timestamp extremes start out crossed at the interval's ends, so
    /// that the first record narrows both to its own timestamp.
    pub fn new(interval: ChunkInterval, seq_id: SeqId) -> (r: SeqChunkBuffer)
        ensures
            r@ == (SeqChunkBufferView {
                interval,
                seq_id,
                earliest_timestamp: interval.end_time,
                latest_timestamp: interval.start_time,
                objects: Seq::<(InstrumentationId, ObjectView)>::empty(),
                missing_objects: Seq::<InstrumentationId>::empty(),
                records: Seq::<RecordView>::empty(),
            }),
            buffer_well_formed(r@),
    {
        let r = SeqChunkBuffer {
            interval,
            seq_id,
            earliest_timestamp: interval.end_time,
            latest_timestamp: interval.start_time,
            objects: Vec::new(),
            missing_objects: Vec::new(),
            records: Vec::new(),
        };
        proof {
            assert(r@.objects =~= Seq::<(InstrumentationId, ObjectView)>::empty());
            assert(r@.records =~= Seq::<RecordView>::empty());
        }
        r
    }

    /// The interval this buffer is responsible for.
    pub fn interval(&self) -> (r: ChunkInterval)
        ensures
            r == self@.interval,
    {
        self.interval
    }

    /// The base time of the parent chunk of this sequence chunk.
    pub fn base_time(&self) -> (r: AbsTimestampSecs)
        ensures
            r == self@.interval.base_time,
    {
        self.interval.base_time
    }

    /// The identifier of the producing sequence.
    pub fn seq_id(&self) -> (r: SeqId)
        ensures
            r == self@.seq_id,
    {
        self.seq_id
    }

    /// The smallest record timestamp seen so far.
    pub fn earliest_timestamp(&self) -> (r: ChunkTimestamp)
        ensures
            r == self@.earliest_timestamp,
    {
        self.earliest_timestamp
    }

    /// The largest record timestamp seen so far.
    pub fn latest_timestamp(&self) -> (r: ChunkTimestamp)
        ensures
            r == self@.latest_timestamp,
    {
        self.latest_timestamp
    }

    /// The number of records appended so far.
    pub fn event_count(&self) -> (r: usize)
        ensures
            r == self@.records.len(),
    {
        self.records.len()
    }

    /// Converts an absolute timestamp into a chunk timestamp, using the
    /// base time of the parent chunk of this sequence chunk.
    pub fn chunk_timestamp(&self, timestamp: &AbsTimestamp) -> (r: ChunkTimestamp)
        requires
            timestamp.secs >= self@.interval.base_time.secs,
            ChunkTimestamp::from_base_spec(self@.interval.base_time, *timestamp) <= u64::MAX,
        ensures
            r.micros == ChunkTimestamp::from_base_spec(self@.interval.base_time, *timestamp),
    {
        ChunkTimestamp::from_base_and_timestamp(self.interval.base_time(), timestamp)
    }

    /// Whether an object for the id is already cached.
    fn has_object(&self, iid: InstrumentationId) -> (r: bool)
        ensures
            r == object_keys(self@).contains(iid),
    {
        let mut i: usize = 0;
        while i < self.objects.len()
            invariant
                i <= self.objects@.len(),
                forall|j: int| 0 <= j < i ==> (#[trigger] self.objects@[j]).0 != iid,
            decreases self.objects@.len() - i,
        {
            if self.objects[i].0.0 == iid.0 {
                proof {
                    assert(object_keys(self@)[i as int] == iid);
                }
                return true;
            }
            i = i + 1;
        }
        proof {
            assert(forall|j: int|
                0 <= j < object_keys(self@).len() ==> object_keys(self@)[j] == (
                #[trigger] self.objects@[j]).0);
        }
        false
    }

    /// Whether the id is known to be unresolvable.
    fn is_missing(&self, iid: InstrumentationId) -> (r: bool)
        ensures
            r == self@.missing_objects.contains(iid),
    {
        let mut i: usize = 0;
        while i < self.missing_objects.len()
            invariant
                i <= self.missing_objects@.len(),
                forall|j: int| 0 <= j < i ==> self.missing_objects@[j] != iid,
            decreases self.missing_objects@.len() - i,
        {
            if self.missing_objects[i].0 == iid.0 {
                return true;
            }
            i = i + 1;
        }
        false
    }

    /// Append a record, resolving referenced objects on first sight.
    ///
    /// The ids the record refers to that are neither cached nor known
    /// missing are handed to `get_objects` in one call, which returns an
    /// option per id. Resolved objects are cached. If any id cannot be
    /// resolved, now or previously, the record is dropped: a partial record
    /// would corrupt the per-task stream.
    #[verifier::rlimit(100)]
    #[verifier::loop_isolation(false)]
    pub fn append_record<F: FnOnce(&Vec<InstrumentationId>) -> Vec<Option<Object>>>(
        &mut self,
        record: Record,
        get_objects: F,
    )
        requires
            buffer_well_formed(old(self)@),
            old(self)@.interval.start_time.micros <= record@.meta.timestamp.micros < old(
                self,
            )@.interval.end_time.micros,
            forall|ids: Vec<InstrumentationId>| #[trigger] call_requires(get_objects, (&ids,)),
        ensures
            buffer_well_formed(final(self)@),
            final(self)@.interval == old(self)@.interval,
            final(self)@.seq_id == old(self)@.seq_id,
            exists|asked: Vec<InstrumentationId>, results: Vec<Option<Object>>|
                {
                    &&& asked@ == buffer_missing_refs(old(self)@, record@.data)
                    &&& #[trigger] call_ensures(get_objects, (&asked,), results)
                    &&& final(self)@ == resolution_outcome(
                        old(self)@,
                        record@,
                        asked@,
                        object_results_view(results@),
                    )
                },
    {
        let ghost pre = self@;
        let refs = referenced_iids(&record);
        // gather the ids that have to be resolved now
        let mut asked: Vec<InstrumentationId> = Vec::new();
        let mut blocked: bool = false;
        let mut i: usize = 0;
        while i < refs.len()
            invariant
                i <= refs@.len(),
                refs@ == record_refs(record@.data),
                self@ == pre,
                asked@ == unresolved_refs(refs@.take(i as int), object_keys(pre),
                    pre.missing_objects),
                blocked == exists|j: int|
                    0 <= j < i && pre.missing_objects.contains(#[trigger] refs@[j])
                        && !object_keys(pre).contains(refs@[j]),
            decreases refs@.len() - i,
        {
            let iid = refs[i];
            let in_objects = self.has_object(iid);
            let in_missing = self.is_missing(iid);
            proof {
                assert(refs@.take(i + 1).drop_last() =~= refs@.take(i as int));
                assert(refs@.take(i + 1).last() == refs@[i as int]);
            }
            if !in_objects && !in_missing {
                asked.push(iid);
            } else if in_missing && !in_objects {
                blocked = true;
            }
            i = i + 1;
        }
        proof {
            assert(refs@.take(refs@.len() as int) =~= refs@);
            assert(blocked == refs_blocked(pre, record@.data));
        }
        let ghost gf = get_objects;
        let mut results = get_objects(&asked);
        let ghost results0 = results;
        let ghost pre_results = results@;
        let ghost rviews = object_results_view(pre_results);
        proof {
            assert(call_ensures(gf, (&asked,), results0));
            assert(asked@ == buffer_missing_refs(pre, record@.data));
        }
        proof {
            assert(asked@.skip(0) =~= asked@);
            assert(rviews.skip(0) =~= rviews);
            assert(resolved_objects(asked@, rviews, 0) =~= Seq::<(
                InstrumentationId,
                ObjectView,
            )>::empty());
            assert(pre.objects + resolved_objects(asked@, rviews, 0) =~= pre.objects);
            assert(self@ == (SeqChunkBufferView {
                objects: pre.objects + resolved_objects(asked@, rviews, 0),
                ..pre
            }));
        }
        // cache the resolved objects; stop at the first failure
        let mut k: usize = 0;
        while k < asked.len()
            invariant
                k <= asked@.len(),
                rviews == object_results_view(pre_results),
                pre_results.len() == rviews.len(),
                k <= pre_results.len(),
                results@ == pre_results.skip(k as int),
                forall|j: int| 0 <= j < k ==> j < rviews.len() && rviews[j] is Some,
                first_unresolved(asked@, rviews) == k + first_unresolved(
                    asked@.skip(k as int),
                    rviews.skip(k as int),
                ),
                self@ == (SeqChunkBufferView {
                    objects: pre.objects + resolved_objects(asked@, rviews, k as int),
                    ..pre
                }),
            decreases asked@.len() - k,
        {
            if results.len() == 0 {
                // the resolver returned fewer results than asked: treat the
                // remainder as unresolved and drop the record
                proof {
                    assert(asked@.skip(k as int).len() > 0);
                    assert(pre_results.skip(k as int).len() == 0);
                    assert(k == rviews.len());
                    assert(rviews.skip(k as int).len() == 0);
                    assert(first_unresolved(asked@.skip(k as int), rviews.skip(k as int)) == 0);
                    assert(first_unresolved(asked@, rviews) == k);
                }
                self.missing_objects.push(asked[k]);
                proof {
                    assert(self@ == resolution_outcome(pre, record@, asked@, rviews));
                    assert(self@ == resolution_outcome(pre, record@, buffer_missing_refs(pre,
                        record@.data), rviews));
                    assert(buffer_well_formed(self@)) by {
                        assert(forall|i2: int, j: int|
                            0 <= i2 < self@.records.len() && 0 <= j < record_refs(
                                self@.records[i2].data).len() ==> object_keys(pre).contains(
                                #[trigger] record_refs(self@.records[i2].data)[j]));
                        assert(forall|x: InstrumentationId|
                            object_keys(pre).contains(x) ==> object_keys(self@).contains(x))
                            by {
                            assert(forall|j: int|
                                0 <= j < object_keys(pre).len() ==> object_keys(self@)[j] == (
                                #[trigger] object_keys(pre)[j]));
                        }
                    }
                }
                return ;
            }
            let entry = results.remove(0);
            proof {
                assert(pre_results.skip(k as int)[0] == pre_results[k as int]);
                assert(entry == pre_results[k as int]);
                assert(results@ =~= pre_results.skip(k + 1));
                assert(rviews[k as int] == (match pre_results[k as int] {
                    Some(x) => Some(x@),
                    None => None::<ObjectView>,
                }));
            }
            if matches!(&entry, None) {
                proof {
                    assert(rviews.skip(k as int)[0] is None);
                    assert(first_unresolved(asked@.skip(k as int), rviews.skip(k as int)) == 0);
                    assert(first_unresolved(asked@, rviews) == k);
                }
                self.missing_objects.push(asked[k]);
                proof {
                    assert(self@ == resolution_outcome(pre, record@, asked@, rviews));
                    assert(self@ == resolution_outcome(pre, record@, buffer_missing_refs(pre,
                        record@.data), rviews));
                    assert(buffer_well_formed(self@)) by {
                        assert(forall|x: InstrumentationId|
                            object_keys(pre).contains(x) ==> object_keys(self@).contains(x))
                            by {
                            assert(forall|j: int|
                                0 <= j < object_keys(pre).len() ==> object_keys(self@)[j] == (
                                #[trigger] object_keys(pre)[j]));
                        }
                    }
                }
                return ;
            }
            let obj = match entry {
                Some(o) => o,
                None => {
                    proof {
                        assert(false);
                    }
                    unreached()
                },
            };
            proof {
                assert(rviews[k as int] == Some(obj@));
                assert(resolved_value(rviews[k as int]) == obj@);
            }
            let ghost pre_objects = self@.objects;
            self.objects.push((asked[k], obj));
            proof {
                assert(rviews.skip(k as int)[0] is Some);
                assert(asked@.skip(k as int).drop_first() =~= asked@.skip(k + 1));
                assert(rviews.skip(k as int).drop_first() =~= rviews.skip(k + 1));
                assert(first_unresolved(asked@.skip(k as int), rviews.skip(k as int)) == 1
                    + first_unresolved(asked@.skip(k + 1), rviews.skip(k + 1)));
                assert(self@.objects =~= pre_objects.push((asked@[k as int], obj@)));
                assert(resolved_objects(asked@, rviews, k + 1) =~= resolved_objects(asked@,
                    rviews, k as int).push((asked@[k as int], obj@)));
                assert((pre.objects + resolved_objects(asked@, rviews, k as int)).push((
                asked@[k as int], obj@)) =~= pre.objects + resolved_objects(asked@, rviews, k
                    + 1));
            }
            k = k + 1;
        }
        proof {
            assert(asked@.skip(asked@.len() as int).len() == 0);
            assert(first_unresolved(asked@.skip(asked@.len() as int),
                rviews.skip(asked@.len() as int)) == 0);
            assert(first_unresolved(asked@, rviews) == asked@.len());
        }
        if blocked {
            proof {
                assert(self@ == resolution_outcome(pre, record@, asked@, rviews));
                assert(self@ == resolution_outcome(pre, record@, buffer_missing_refs(pre,
                    record@.data), rviews));
                assert(buffer_well_formed(self@)) by {
                    assert(forall|x: InstrumentationId|
                        object_keys(pre).contains(x) ==> object_keys(self@).contains(x)) by {
                        assert(forall|j: int|
                            0 <= j < object_keys(pre).len() ==> object_keys(self@)[j] == (
                            #[trigger] object_keys(pre)[j]));
                    }
                }
            }
            return ;
        }
        // all references resolved: append the record and widen the extremes
        let ts = record.meta.timestamp;
        if ts.micros < self.earliest_timestamp.micros {
            self.earliest_timestamp = ts;
        }
        if ts.micros > self.latest_timestamp.micros {
            self.latest_timestamp = ts;
        }
        self.records.push(record);
        proof {
            assert(self@.records =~= pre.records.push(record@));
            assert(self@ == resolution_outcome(pre, record@, asked@, rviews));
            assert(self@ == resolution_outcome(pre, record@, buffer_missing_refs(pre,
                record@.data), rviews));
            assert(buffer_well_formed(self@)) by {
                assert(forall|x: InstrumentationId|
                    object_keys(pre).contains(x) ==> object_keys(self@).contains(x)) by {
                    assert(forall|j: int|
                        0 <= j < object_keys(pre).len() ==> object_keys(self@)[j] == (
                        #[trigger] object_keys(pre)[j]));
                }
                assert forall|j: int|
                    0 <= j < record_refs(record@.data).len() implies object_keys(
                    self@).contains(#[trigger] record_refs(record@.data)[j]) by {
                    let x = record_refs(record@.data)[j];
                    lemma_unresolved_cover(record_refs(record@.data), object_keys(pre),
                        pre.missing_objects, j);
                    if object_keys(pre).contains(x) {
                        assert(object_keys(self@).contains(x));
                    } else if pre.missing_objects.contains(x) {
                        assert(refs_blocked(pre, record@.data));
                    } else {
                        let a = choose|q: int|
                            0 <= q < asked@.len() && asked@[q] == x;
                        assert(object_keys(self@)[pre.objects.len() + a] == x);
                    }
                }
            }
        }
    }

    /// Write the buffer's contents as a sequence chunk.
    ///
    /// The output is the sequence chunk's header, then the cached objects
    /// preceded by their count, then the records preceded by theirs.
    #[verifier::loop_isolation(false)]
    pub fn write(&self, out: &mut Vec<u8>)
        ensures
            final(out)@ == old(out)@ + enc_seq_chunk(seq_chunk_of(self@)),
    {
        let header = SeqChunkHeader {
            seq_id: self.seq_id,
            earliest_timestamp: self.earliest_timestamp,
            latest_timestamp: self.latest_timestamp,
        };
        encode_seq_chunk_header(out, &header);
        let ghost enc_o = |o: ObjectView| enc_object(o);
        let ghost oviews = self.objects@.map_values(
            |p: (InstrumentationId, Object)| p.1@,
        );
        encode_u64(out, self.objects.len() as u64);
        let ghost mid = out@;
        let mut i: usize = 0;
        while i < self.objects.len()
            invariant
                i <= self.objects@.len(),
                oviews == self.objects@.map_values(|p: (InstrumentationId, Object)| p.1@),
                out@ == mid + concat_encs(oviews.take(i as int), enc_o),
            decreases self.objects@.len() - i,
        {
            crate::chunked::record::encode_object(out, &self.objects[i].1);
            proof {
                assert(oviews[i as int] == self.objects@[i as int].1@);
                assert(oviews.take(i + 1) =~= oviews.take(i as int).push(oviews[i as int]));
                lemma_concat_encs_push(oviews.take(i as int), enc_o, oviews[i as int]);
                assert(out@ =~= mid + concat_encs(oviews.take(i + 1), enc_o));
            }
            i = i + 1;
        }
        proof {
            assert(oviews.take(oviews.len() as int) =~= oviews);
        }
        encode_records(out, &self.records);
        proof {
            assert(seq_chunk_of(self@).objects =~= oviews);
            assert(seq_chunk_of(self@).records =~= self.records@.map_values(|r: Record| r@));
            assert(out@ =~= old(out)@ + enc_seq_chunk(seq_chunk_of(self@)));
        }
    }
}

/// Every unresolved reference is either already resolved, already missing,
/// or among the asked ids.
proof fn lemma_unresolved_cover(
    refs: Seq<InstrumentationId>,
    keys: Seq<InstrumentationId>,
    missing: Seq<InstrumentationId>,
    j: int,
)
    requires
        0 <= j < refs.len(),
    ensures
        keys.contains(refs[j]) || missing.contains(refs[j]) || unresolved_refs(
            refs,
            keys,
            missing,
        ).contains(refs[j]),
    decreases refs.len(),
{
    if j == refs.len() - 1 {
        if !keys.contains(refs.last()) && !missing.contains(refs.last()) {
            let u = unresolved_refs(refs, keys, missing);
            assert(u.last() == refs.last());
            assert(u.contains(refs.last()));
        }
    } else {
        lemma_unresolved_cover(refs.drop_last(), keys, missing, j);
        assert(refs.drop_last()[j] == refs[j]);
        let rest = unresolved_refs(refs.drop_last(), keys, missing);
        if rest.contains(refs[j]) {
            let u = unresolved_refs(refs, keys, missing);
            let w = choose|q: int| 0 <= q < rest.len() && rest[q] == refs[j];
            if keys.contains(refs.last()) || missing.contains(refs.last()) {
                assert(u == rest);
            } else {
                assert(u == rest.push(refs.last()));
                assert(u[w] == refs[j]);
            }
            assert(u.contains(refs[j]));
        }
    }
}

/// The sequence chunk a buffer persists as.
pub open spec fn seq_chunk_of(v: SeqChunkBufferView) -> SeqChunkView {
    SeqChunkView {
        header: SeqChunkHeader {
            seq_id: v.seq_id,
            earliest_timestamp: v.earliest_timestamp,
            latest_timestamp: v.latest_timestamp,
        },
        objects: v.objects.map_values(|p: (InstrumentationId, ObjectView)| p.1),
        records: v.records,
    }
}

/// The instrumentation ids a record refers to.
pub fn referenced_iids(record: &Record) -> (r: Vec<InstrumentationId>)
    ensures
        r@ == record_refs(record@.data),
{
    let mut v: Vec<InstrumentationId> = Vec::new();
    match &record.data {
        RecordData::SpanNew { iid } => v.push(*iid),
        RecordData::SpanEnter { iid } => v.push(*iid),
        RecordData::SpanExit { iid } => v.push(*iid),
        RecordData::SpanClose { iid } => v.push(*iid),
        RecordData::Event { .. } => (),
        RecordData::TaskNew { iid } => v.push(*iid),
        RecordData::TaskPollStart { iid } => v.push(*iid),
        RecordData::TaskPollEnd { iid } => v.push(*iid),
        RecordData::TaskDrop { iid } => v.push(*iid),
        RecordData::WakerWake { waker } => push_waker_refs(&mut v, waker),
        RecordData::WakerWakeByRef { waker } => push_waker_refs(&mut v, waker),
        RecordData::WakerClone { waker } => push_waker_refs(&mut v, waker),
        RecordData::WakerDrop { waker } => push_waker_refs(&mut v, waker),
    }
    proof {
        assert(v@ =~= record_refs(record@.data));
    }
    v
}

/// Push the ids a waker record refers to.
fn push_waker_refs(v: &mut Vec<InstrumentationId>, waker: &crate::common::Waker)
    requires
        old(v)@.len() == 0,
    ensures
        final(v)@ == crate::chunked::record::waker_refs(*waker),
{
    v.push(waker.task_iid);
    match &waker.context {
        Some(context) => {
            if context.0 != waker.task_iid.0 {
                v.push(*context);
            }
        },
        None => (),
    }
    proof {
        assert(v@ =~= crate::chunked::record::waker_refs(*waker));
    }
}

/// A record whose resolver returned no object for some asked id leaves the
/// set of records unchanged: the record is dropped.
pub proof fn lemma_unresolved_drops_record(
    pre: SeqChunkBufferView,
    record: RecordView,
    asked: Seq<InstrumentationId>,
    results: Seq<Option<ObjectView>>,
)
    requires
        first_unresolved(asked, results) < asked.len(),
    ensures
        resolution_outcome(pre, record, asked, results).records == pre.records,
        resolution_outcome(pre, record, asked, results).missing_objects
            == pre.missing_objects.push(asked[first_unresolved(asked, results)]),
{
}

/// A record all of whose references are already resolved asks the resolver
/// for nothing, and is appended whatever the resolver would have said.
pub proof fn lemma_resolved_refs_ask_nothing(
    pre: SeqChunkBufferView,
    record: RecordView,
    results: Seq<Option<ObjectView>>,
)
    requires
        forall|j: int|
            0 <= j < record_refs(record.data).len() ==> object_keys(pre).contains(
                #[trigger] record_refs(record.data)[j],
            ),
    ensures
        buffer_missing_refs(pre, record.data) == Seq::<InstrumentationId>::empty(),
        resolution_outcome(
            pre,
            record,
            buffer_missing_refs(pre, record.data),
            results,
        ).records == pre.records.push(record),
        resolution_outcome(
            pre,
            record,
            buffer_missing_refs(pre, record.data),
            results,
        ).objects == pre.objects,
        resolution_outcome(
            pre,
            record,
            buffer_missing_refs(pre, record.data),
            results,
        ).missing_objects == pre.missing_objects,
{
    lemma_all_resolved_empty(record_refs(record.data), object_keys(pre), pre.missing_objects);
    let asked = buffer_missing_refs(pre, record.data);
    assert(first_unresolved(asked, results) == 0);
    assert(!refs_blocked(pre, record.data));
    assert(resolved_objects(asked, results, 0) =~= Seq::<(
        InstrumentationId,
        ObjectView,
    )>::empty());
    assert(pre.objects + resolved_objects(asked, results, 0) =~= pre.objects);
}

/// A resolver answer with a value for every asked id leaves nothing
/// unresolved.
proof fn lemma_all_results_resolved(
    asked: Seq<InstrumentationId>,
    results: Seq<Option<ObjectView>>,
)
    requires
        results.len() >= asked.len(),
        forall|i: int| 0 <= i < asked.len() ==> (#[trigger] results[i]) is Some,
    ensures
        first_unresolved(asked, results) == asked.len(),
    decreases asked.len(),
{
    if asked.len() > 0 {
        assert(results[0] is Some);
        assert(forall|i: int|
            0 <= i < asked.drop_first().len() ==> (#[trigger] results.drop_first()[i])
                == results[i + 1]);
        lemma_all_results_resolved(asked.drop_first(), results.drop_first());
    }
}

/// A record is appended when the resolver resolves every asked id and no
/// referenced id is already known missing: the outcome holds the record,
/// caches the resolved objects, and remembers nothing as missing.
pub proof fn lemma_resolved_appends_record(
    pre: SeqChunkBufferView,
    record: RecordView,
    asked: Seq<InstrumentationId>,
    results: Seq<Option<ObjectView>>,
)
    requires
        results.len() >= asked.len(),
        forall|i: int| 0 <= i < asked.len() ==> (#[trigger] results[i]) is Some,
        !refs_blocked(pre, record.data),
    ensures
        resolution_outcome(pre, record, asked, results).records == pre.records.push(record),
        resolution_outcome(pre, record, asked, results).objects == pre.objects
            + resolved_objects(asked, results, asked.len() as int),
        resolution_outcome(pre, record, asked, results).missing_objects == pre.missing_objects,
{
    lemma_all_results_resolved(asked, results);
}

/// No references outside the resolved keys means nothing is asked.
proof fn lemma_all_resolved_empty(
    refs: Seq<InstrumentationId>,
    keys: Seq<InstrumentationId>,
    missing: Seq<InstrumentationId>,
)
    requires
        forall|j: int| 0 <= j < refs.len() ==> keys.contains(#[trigger] refs[j]),
    ensures
        unresolved_refs(refs, keys, missing) == Seq::<InstrumentationId>::empty(),
    decreases refs.len(),
{
    if refs.len() > 0 {
        assert(forall|j: int|
            0 <= j < refs.drop_last().len() ==> keys.contains(#[trigger] refs.drop_last()[j]));
        lemma_all_resolved_empty(refs.drop_last(), keys, missing);
        assert(keys.contains(refs.last()));
    }
}

/// In a well-formed buffer the recorded extremes bound every record's
/// timestamp: the earliest timestamp is at or before every record and the
/// latest at or after.
pub proof fn lemma_buffer_bounds_records(v: SeqChunkBufferView)
    requires
        buffer_well_formed(v),
    ensures
        forall|i: int|
            0 <= i < v.records.len() ==> v.earliest_timestamp.micros <= (#[trigger] v.records[
            i]).meta.timestamp.micros <= v.latest_timestamp.micros,
        forall|i: int|
            0 <= i < seq_chunk_of(v).records.len()
                ==> seq_chunk_of(v).header.earliest_timestamp.micros <= (
            #[trigger] seq_chunk_of(v).records[i]).meta.timestamp.micros <= seq_chunk_of(
                v,
            ).header.latest_timestamp.micros,
{
}

/// In a well-formed buffer every id referenced by a record has an object
/// entry.
pub proof fn lemma_buffer_objects_cover_refs(v: SeqChunkBufferView)
    requires
        buffer_well_formed(v),
    ensures
        forall|i: int, j: int|
            0 <= i < v.records.len() && 0 <= j < record_refs(v.records[i].data).len()
                ==> object_keys(v).contains(#[trigger] record_refs(v.records[i].data)[j]),
{
}

/// The round-trip law for sequence chunks.
pub proof fn lemma_seq_chunk_round_trip(v: SeqChunkView, rest: Seq<u8>)
    requires
        wf_seq_chunk(v),
    ensures
        dec_seq_chunk(enc_seq_chunk(v) + rest) == SpecDec::Val(v, enc_seq_chunk(v).len() as int),
{
    reveal(dec_seq_chunk);
    let enc_o = |o: ObjectView| enc_object(o);
    let dec_o = |t: Seq<u8>| dec_object(t);
    let enc_r = |r: RecordView| enc_record(r);
    let dec_r = |t: Seq<u8>| dec_record(t);
    let e1 = enc_seq_chunk_header(v.header);
    let e2 = enc_vec(v.objects, enc_o);
    let e3 = enc_vec(v.records, enc_r);
    let s3 = e3 + rest;
    let s2 = e2 + s3;
    let s = enc_seq_chunk(v) + rest;
    vstd::seq_lib::lemma_concat_associative(e1 + e2, e3, rest);
    vstd::seq_lib::lemma_concat_associative(e1, e2, s3);
    assert(s == e1 + s2);
    lemma_seq_chunk_header_round_trip(v.header, s2);
    lemma_concat_skip(e1, s2);
    let n1 = e1.len() as int;
    assert(s.skip(n1) == s2);
    assert forall|i: int, r: Seq<u8>| 0 <= i < v.objects.len() implies #[trigger] dec_o(
        enc_o(v.objects[i]) + r) == SpecDec::Val(v.objects[i], enc_o(v.objects[i]).len() as int) by {
        lemma_object_round_trip(v.objects[i], r);
    }
    lemma_dec_vec_round_trip(v.objects, enc_o, dec_o, s3);
    lemma_concat_skip(e2, s3);
    lemma_skip_add(s, n1, e2.len() as int);
    let n2 = n1 + e2.len();
    assert(s.skip(n2) == s3);
    assert forall|i: int, r: Seq<u8>| 0 <= i < v.records.len() implies #[trigger] dec_r(
        enc_r(v.records[i]) + r) == SpecDec::Val(v.records[i], enc_r(v.records[i]).len() as int) by {
        lemma_record_round_trip(v.records[i], r);
    }
    lemma_dec_vec_round_trip(v.records, enc_r, dec_r, rest);
}

} // verus!
