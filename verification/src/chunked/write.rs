//! Writing chunked recordings.
//!
//! The writer partitions incoming records into chunk buffers by wall-clock
//! interval and, within a chunk, into sequence buffers by producer. A
//! periodic flush promotes the buffers of completed intervals into chunk
//! file bytes and signals the waiters whose moment those chunks cover; the
//! caller persists the bytes and runs the clock and the file system.

use vstd::prelude::*;

use crate::callsite::Callsite;
use crate::chunked::callsite::{
    callsites_writer_well_formed, CallsitesWriterView, ChunkedCallsitesWriter, PushCallsiteResult,
};
use crate::chunked::meta::{enc_chunked_meta, ChunkedMeta, ChunkedMetaView};
use crate::chunked::read::{chunk_format_version, chunk_format_version_spec, enc_chunk_header, encode_chunk_header, ChunkHeader};
use crate::chunked::record::{Object, ObjectView, Record, RecordData};
use crate::chunked::sequence::{
    buffer_missing_refs, buffer_well_formed, enc_seq_chunk, object_results_view,
    resolution_outcome, seq_chunk_of, SeqChunkBuffer, SeqChunkBufferView, SeqChunkView, SeqId,
};
use crate::codec::{concat_encs, enc_vec, lemma_concat_encs_push};
use crate::common::InstrumentationId;
use crate::identifier::{encode_format_identifier, enc_format_identifier, FormatIdentifier};
use crate::timestamp::{AbsTimestamp, AbsTimestampSecs, ChunkInterval, ChunkTimestamp, MICROS_PER_SEC};
use crate::wire::encode_u64;

verus! {

/// The fields of a moment in civil (calendar) time, UTC: year, month, day,
/// hour, minute and second.
pub uninterp spec fn civil_of(secs: u64) -> (u16, u8, u8, u8, u8, u8);

/// Relies on jiff's `Timestamp::from_second` and the civil accessors of a
/// `Zoned` in `TimeZone::UTC` for the calendar fields of a moment. The
/// year, month and day depend on the seconds alone; jiff documents the
/// field ranges, and the clock fields follow the wall clock directly.
#[verifier::external_body]
fn utc_calendar(secs: u64) -> (r: (u16, u8, u8, u8, u8, u8))
    requires
        secs < 200_000_000_000,
    ensures
        r == civil_of(secs),
        1970 <= r.0 <= 9999,
        1 <= r.1 <= 12,
        1 <= r.2 <= 31,
        r.3 < 24,
        r.4 < 60,
        r.5 < 60,
        r.3 == (secs / 3600) % 24,
        r.4 == (secs / 60) % 60,
        r.5 == secs % 60,
{
    let ts = jiff::Timestamp::from_second(secs as i64).unwrap();
    let zdt = ts.to_zoned(jiff::tz::TimeZone::UTC);
    (
        zdt.year() as u16,
        zdt.month() as u8,
        zdt.day() as u8,
        zdt.hour() as u8,
        zdt.minute() as u8,
        zdt.second() as u8,
    )
}

/// A number rendered in decimal, zero-padded to at least two digits.
pub open spec fn pad2_chars(n: nat) -> Seq<char> {
    if n < 10 {
        seq!['0'] + crate::identifier::dec_chars(n)
    } else {
        crate::identifier::dec_chars(n)
    }
}

/// The relative path of the chunk file for an interval base time:
/// `YYYY-MM/DD-HH/chunk-MM-SS.rfr` in UTC.
pub open spec fn chunk_rel_path_chars(secs: u64) -> Seq<char> {
    let c = civil_of(secs);
    crate::identifier::dec_chars(c.0 as nat) + seq!['-'] + pad2_chars(c.1 as nat) + seq!['/']
        + pad2_chars(c.2 as nat) + seq!['-'] + pad2_chars(c.3 as nat) + seq!['/'] + seq![
        'c',
        'h',
        'u',
        'n',
        'k',
        '-',
    ] + pad2_chars(c.4 as nat) + seq!['-'] + pad2_chars(c.5 as nat) + seq!['.', 'r', 'f', 'r']
}

/// Append a number to a string, zero-padded to at least two digits.
fn push_pad2(out: &mut String, n: u8)
    ensures
        final(out)@ == old(out)@ + pad2_chars(n as nat),
{
    if n < 10 {
        proof {
            reveal_strlit("0");
        }
        out.append("0");
    }
    crate::identifier::push_decimal(out, n as u32);
    proof {
        assert(out@ =~= old(out)@ + pad2_chars(n as nat));
    }
}

/// The relative path of the chunk file for an interval base time, laid out
/// as `YYYY-MM/DD-HH/chunk-MM-SS.rfr` in UTC.
pub fn chunk_rel_path(time: AbsTimestampSecs) -> (r: String)
    requires
        time.secs < 200_000_000_000,
    ensures
        r@ == chunk_rel_path_chars(time.secs),
{
    let (year, month, day, hour, minute, second) = utc_calendar(time.secs);
    let mut out = String::new();
    crate::identifier::push_decimal(&mut out, year as u32);
    proof {
        reveal_strlit("-");
        reveal_strlit("/");
        reveal_strlit("chunk-");
        reveal_strlit(".rfr");
    }
    out.append("-");
    push_pad2(&mut out, month);
    out.append("/");
    push_pad2(&mut out, day);
    out.append("-");
    push_pad2(&mut out, hour);
    out.append("/");
    out.append("chunk-");
    push_pad2(&mut out, minute);
    out.append("-");
    push_pad2(&mut out, second);
    out.append(".rfr");
    proof {
        assert(out@ =~= chunk_rel_path_chars(time.secs));
    }
    out
}

/// Whether a waiter recorded at a moment is satisfied by a chunk covering
/// up to the given end time.
#[derive(Debug, Clone, Copy, PartialEq, Eq, Structural)]
pub enum NotifyAfterTs {
    /// The waiter's moment lies within the flushed chunk: it is notified.
    Notified,
    /// The waiter's moment lies after the flushed chunk: it keeps waiting.
    TooEarly,
}

/// Decide whether a waiter recorded at `ts` is covered by a chunk whose
/// interval ends at `chunk_end_time`.
pub fn notify_after_ts(ts: &AbsTimestamp, chunk_end_time: &AbsTimestamp) -> (r: NotifyAfterTs)
    requires
        ts.is_valid(),
        chunk_end_time.is_valid(),
    ensures
        r == (if ts.as_micros_spec() > chunk_end_time.as_micros_spec() {
            NotifyAfterTs::TooEarly
        } else {
            NotifyAfterTs::Notified
        }),
{
    if chunk_end_time.le(ts) && !(ts.le(chunk_end_time)) {
        NotifyAfterTs::TooEarly
    } else {
        NotifyAfterTs::Notified
    }
}

/// Error waiting for a chunk to be written.
#[derive(Debug, Clone, Copy, PartialEq, Eq, Structural)]
pub enum WaitForWriteError {
    /// The provided timeout was reached before the chunk was written.
    Timeout,
    /// The chunk writer was closed before the chunk was written.
    Closed,
}

/// An error occurring when creating a new chunked recording.
#[derive(Debug, Clone, Copy, PartialEq, Eq, Structural)]
pub enum NewChunkedWriterError {
    /// There is already a chunked recording at this location.
    AlreadyExists,
    /// The directory for the chunked recording could not be created.
    CreateRecordingDirFailed,
    /// The meta file could not be written.
    WriteMetaFailed,
    /// The callsites file could not be written.
    WriteCallsitesFailed,
}

/// An error writing out completed chunks.
#[derive(Debug, Clone, Copy, PartialEq, Eq, Structural)]
pub enum WriteChunksError {
    /// A chunk file could not be opened.
    FileOpenFailed,
}

/// A chunk buffer: the sequence buffers sharing one wall-clock interval.
#[derive(Debug)]
pub struct ChunkBuffer {
    interval: ChunkInterval,
    seq_chunks: Vec<SeqChunkBuffer>,
}

/// The mathematical state of a chunk buffer.
pub struct ChunkBufferView {
    /// The wall-clock interval the chunk covers.
    pub interval: ChunkInterval,
    /// The per-producer sequence buffers of the chunk.
    pub seq_chunks: Seq<SeqChunkBufferView>,
}

impl View for ChunkBuffer {
    type V = ChunkBufferView;

    closed spec fn view(&self) -> ChunkBufferView {
        ChunkBufferView {
            interval: self.interval,
            seq_chunks: self.seq_chunks@.map_values(|b: SeqChunkBuffer| b@),
        }
    }
}

/// A chunk buffer is well formed when all its sequence buffers are well
/// formed and cover its own interval.
pub open spec fn chunk_buffer_well_formed(v: ChunkBufferView) -> bool {
    forall|i: int|
        0 <= i < v.seq_chunks.len() ==> buffer_well_formed(#[trigger] v.seq_chunks[i])
            && v.seq_chunks[i].interval == v.interval
}

/// The aggregate earliest timestamp over sequence buffers, folded from the
/// interval's end.
pub open spec fn agg_earliest(chunks: Seq<SeqChunkBufferView>, init: ChunkTimestamp) -> ChunkTimestamp
    decreases chunks.len(),
{
    if chunks.len() == 0 {
        init
    } else {
        let rest = agg_earliest(chunks.drop_last(), init);
        if chunks.last().earliest_timestamp.micros < rest.micros {
            chunks.last().earliest_timestamp
        } else {
            rest
        }
    }
}

/// The aggregate latest timestamp over sequence buffers, folded from the
/// interval's start.
pub open spec fn agg_latest(chunks: Seq<SeqChunkBufferView>, init: ChunkTimestamp) -> ChunkTimestamp
    decreases chunks.len(),
{
    if chunks.len() == 0 {
        init
    } else {
        let rest = agg_latest(chunks.drop_last(), init);
        if chunks.last().latest_timestamp.micros > rest.micros {
            chunks.last().latest_timestamp
        } else {
            rest
        }
    }
}

/// The header a chunk buffer persists under: its interval with the
/// recomputed timestamp extremes of its children.
pub open spec fn chunk_buffer_header(v: ChunkBufferView) -> ChunkHeader {
    ChunkHeader {
        interval: v.interval,
        earliest_timestamp: agg_earliest(v.seq_chunks, v.interval.end_time),
        latest_timestamp: agg_latest(v.seq_chunks, v.interval.start_time),
    }
}

/// The bytes of the chunk file a chunk buffer persists as: the chunk
/// format identifier, the recomputed header, and the sequence chunks
/// preceded by their count.
pub open spec fn chunk_file_bytes(v: ChunkBufferView) -> Seq<u8> {
    enc_format_identifier(chunk_format_version_spec()) + enc_chunk_header(chunk_buffer_header(v))
        + enc_vec(
        v.seq_chunks.map_values(|b: SeqChunkBufferView| seq_chunk_of(b)),
        |c: SeqChunkView| enc_seq_chunk(c),
    )
}

impl ChunkBuffer {
    /// A new, empty chunk buffer for an interval.
    pub fn new(interval: ChunkInterval) -> (r: ChunkBuffer)
        ensures
            r@.interval == interval,
            r@.seq_chunks =~= Seq::<SeqChunkBufferView>::empty(),
            chunk_buffer_well_formed(r@),
    {
        let r = ChunkBuffer { interval, seq_chunks: Vec::new() };
        proof {
            assert(r@.seq_chunks =~= Seq::<SeqChunkBufferView>::empty());
        }
        r
    }

    /// The interval this chunk buffer covers.
    pub fn interval(&self) -> (r: ChunkInterval)
        ensures
            r == self@.interval,
    {
        self.interval
    }

    /// Append a fresh sequence buffer sharing the chunk's interval and
    /// return its index.
    pub fn new_seq_chunk_buffer(&mut self, seq_id: SeqId) -> (r: usize)
        requires
            chunk_buffer_well_formed(old(self)@),
        ensures
            chunk_buffer_well_formed(final(self)@),
            final(self)@.interval == old(self)@.interval,
            r == old(self)@.seq_chunks.len(),
            final(self)@.seq_chunks == old(self)@.seq_chunks.push(
                empty_seq_buffer(old(self)@.interval, seq_id),
            ),
    {
        let r = self.seq_chunks.len();
        let buffer = SeqChunkBuffer::new(self.interval, seq_id);
        self.seq_chunks.push(buffer);
        proof {
            assert(self@.seq_chunks =~= old(self)@.seq_chunks.push(
                empty_seq_buffer(old(self)@.interval, seq_id)));
        }
        r
    }

    /// Write the chunk buffer as the bytes of a chunk file.
    #[verifier::loop_isolation(false)]
    pub fn write(&self, out: &mut Vec<u8>)
        ensures
            final(out)@ == old(out)@ + chunk_file_bytes(self@),
    {
        let version = chunk_format_version();
        encode_format_identifier(out, &version);
        // recompute the aggregate extremes from the children
        let mut earliest: ChunkTimestamp = self.interval.end_time;
        let mut latest: ChunkTimestamp = self.interval.start_time;
        let mut i: usize = 0;
        while i < self.seq_chunks.len()
            invariant
                i <= self.seq_chunks@.len(),
                earliest == agg_earliest(self@.seq_chunks.take(i as int), self@.interval.end_time),
                latest == agg_latest(self@.seq_chunks.take(i as int), self@.interval.start_time),
            decreases self.seq_chunks@.len() - i,
        {
            let e = self.seq_chunks[i].earliest_timestamp();
            let l = self.seq_chunks[i].latest_timestamp();
            proof {
                assert(self@.seq_chunks.take(i + 1).drop_last() =~= self@.seq_chunks.take(
                    i as int));
                assert(self@.seq_chunks.take(i + 1).last() == self@.seq_chunks[i as int]);
            }
            if e.micros < earliest.micros {
                earliest = e;
            }
            if l.micros > latest.micros {
                latest = l;
            }
            i = i + 1;
        }
        proof {
            assert(self@.seq_chunks.take(self@.seq_chunks.len() as int) =~= self@.seq_chunks);
        }
        let header = ChunkHeader {
            interval: self.interval,
            earliest_timestamp: earliest,
            latest_timestamp: latest,
        };
        encode_chunk_header(out, &header);
        let ghost enc = |c: SeqChunkView| enc_seq_chunk(c);
        let ghost views = self@.seq_chunks.map_values(|b: SeqChunkBufferView| seq_chunk_of(b));
        encode_u64(out, self.seq_chunks.len() as u64);
        let ghost mid = out@;
        let mut j: usize = 0;
        while j < self.seq_chunks.len()
            invariant
                j <= self.seq_chunks@.len(),
                out@ == mid + concat_encs(views.take(j as int), enc),
            decreases self.seq_chunks@.len() - j,
        {
            self.seq_chunks[j].write(out);
            proof {
                assert(views[j as int] == seq_chunk_of(self@.seq_chunks[j as int]));
                assert(views.take(j + 1) =~= views.take(j as int).push(views[j as int]));
                lemma_concat_encs_push(views.take(j as int), enc, views[j as int]);
                assert(out@ =~= mid + concat_encs(views.take(j + 1), enc));
            }
            j = j + 1;
        }
        proof {
            assert(views.take(views.len() as int) =~= views);
            assert(out@ =~= old(out)@ + chunk_file_bytes(self@));
        }
    }
}

/// The state of a fresh sequence buffer.
pub open spec fn empty_seq_buffer(interval: ChunkInterval, seq_id: SeqId) -> SeqChunkBufferView {
    SeqChunkBufferView {
        interval,
        seq_id,
        earliest_timestamp: interval.end_time,
        latest_timestamp: interval.start_time,
        objects: Seq::<(InstrumentationId, ObjectView)>::empty(),
        missing_objects: Seq::<InstrumentationId>::empty(),
        records: Seq::<crate::chunked::record::RecordView>::empty(),
    }
}

/// The index of the first chunk buffer covering an interval; the number of
/// buffers when none does.
pub open spec fn find_chunk(bufs: Seq<ChunkBufferView>, interval: ChunkInterval) -> int
    decreases bufs.len(),
{
    if bufs.len() == 0 {
        0
    } else if bufs[0].interval == interval {
        0
    } else {
        1 + find_chunk(bufs.drop_first(), interval)
    }
}

/// The index of the first sequence buffer of a producer; the number of
/// buffers when the producer has none.
pub open spec fn find_seq(seqs: Seq<SeqChunkBufferView>, seq_id: SeqId) -> int
    decreases seqs.len(),
{
    if seqs.len() == 0 {
        0
    } else if seqs[0].seq_id == seq_id {
        0
    } else {
        1 + find_seq(seqs.drop_first(), seq_id)
    }
}

/// The elements of a sequence satisfying a predicate, in order.
pub open spec fn filter_seq<T>(s: Seq<T>, pred: spec_fn(T) -> bool) -> Seq<T>
    decreases s.len(),
{
    if s.len() == 0 {
        Seq::<T>::empty()
    } else {
        let rest = filter_seq(s.drop_last(), pred);
        if pred(s.last()) {
            rest.push(s.last())
        } else {
            rest
        }
    }
}

/// The record a writer appends for an event at an absolute moment.
pub open spec fn record_at(
    interval: ChunkInterval,
    timestamp: AbsTimestamp,
    data: crate::chunked::record::RecordDataView,
) -> crate::chunked::record::RecordView {
    crate::chunked::record::RecordView {
        meta: crate::chunked::record::Meta {
            timestamp: ChunkTimestamp {
                micros: ChunkTimestamp::from_base_spec(interval.base_time, timestamp) as u64,
            },
        },
        data,
    }
}

/// The chunk buffers of a writer after appending a record.
///
/// The record lands in the chunk buffer of its interval and in the
/// sequence buffer of its producer within it; both are created when
/// missing, and the append resolves objects with the given resolver
/// results.
pub open spec fn writer_after_append(
    pre: Seq<ChunkBufferView>,
    interval: ChunkInterval,
    seq_id: SeqId,
    record: crate::chunked::record::RecordView,
    results: Seq<Option<ObjectView>>,
) -> Seq<ChunkBufferView> {
    let ci = find_chunk(pre, interval);
    if ci == pre.len() {
        let fresh = empty_seq_buffer(interval, seq_id);
        pre.push(
            ChunkBufferView {
                interval,
                seq_chunks: seq![
                    resolution_outcome(
                        fresh,
                        record,
                        buffer_missing_refs(fresh, record.data),
                        results,
                    ),
                ],
            },
        )
    } else {
        let seqs = pre[ci].seq_chunks;
        let si = find_seq(seqs, seq_id);
        let base = if si == seqs.len() {
            empty_seq_buffer(interval, seq_id)
        } else {
            seqs[si]
        };
        let updated = resolution_outcome(
            base,
            record,
            buffer_missing_refs(base, record.data),
            results,
        );
        let seqs2 = if si == seqs.len() {
            seqs.push(updated)
        } else {
            seqs.update(si, updated)
        };
        pre.update(ci, ChunkBufferView { interval, seq_chunks: seqs2 })
    }
}

/// The sequence buffer a record's resolution starts from: the producer's
/// buffer within the interval's chunk buffer, or a fresh one where either
/// does not exist yet.
pub open spec fn append_base_buffer(
    pre: Seq<ChunkBufferView>,
    interval: ChunkInterval,
    seq_id: SeqId,
) -> SeqChunkBufferView {
    let ci = find_chunk(pre, interval);
    if ci == pre.len() {
        empty_seq_buffer(interval, seq_id)
    } else {
        let seqs = pre[ci].seq_chunks;
        let si = find_seq(seqs, seq_id);
        if si == seqs.len() {
            empty_seq_buffer(interval, seq_id)
        } else {
            seqs[si]
        }
    }
}

/// A waiter for the persistence of a chunk covering a given moment.
#[derive(Debug, Clone, Copy, PartialEq, Eq, Structural)]
pub struct ChunkWriteNotifier {
    /// The key the caller waits under.
    pub id: u64,
    /// The moment the waiter wants covered by a persisted chunk.
    pub ts: AbsTimestamp,
}

/// One chunk file produced by a flush: where it belongs within the
/// recording directory, and its bytes.
#[derive(Debug)]
pub struct ChunkFileOut {
    /// The chunk file's path relative to the recording directory.
    pub relative_path: String,
    /// The chunk file's bytes.
    pub bytes: Vec<u8>,
}

/// The result of writing out completed chunks.
#[derive(Debug)]
pub struct FlushOutcome {
    /// The chunk files to persist, in buffer order.
    pub files: Vec<ChunkFileOut>,
    /// The waiters covered by the flushed chunks, to be signalled written.
    pub written_notifiers: Vec<u64>,
    /// How long from now until the next flush is due, in microseconds.
    pub next_write_in_micros: u64,
}

/// The absolute end of a chunk buffer's interval, in microseconds since
/// the epoch.
pub open spec fn interval_end_abs_micros(interval: ChunkInterval) -> int {
    interval.base_time.secs * MICROS_PER_SEC + interval.end_time.micros
}

/// Whether a chunk buffer's interval ended long enough ago to flush it:
/// the write buffer of 150 milliseconds has passed since the interval's
/// end.
pub open spec fn chunk_completed(cb: ChunkBufferView, now: AbsTimestamp) -> bool {
    now.as_micros_spec() > interval_end_abs_micros(cb.interval) + 150_000
}

/// Whether a waiter is covered by some flushed chunk.
pub open spec fn notifier_covered(
    n: ChunkWriteNotifier,
    flushed: Seq<ChunkBufferView>,
) -> bool {
    exists|i: int|
        0 <= i < flushed.len() && n.ts.as_micros_spec() <= interval_end_abs_micros(
            (#[trigger] flushed[i]).interval,
        )
}

/// The chunked writer.
///
/// Records are partitioned into chunk buffers by wall-clock interval and
/// into per-producer sequence buffers within them. The caller supplies the
/// clock and persists the bytes this writer produces.
#[derive(Debug)]
pub struct ChunkedWriter {
    base_time: AbsTimestampSecs,
    chunk_period_micros: u32,
    closed: bool,
    callsites_writer: ChunkedCallsitesWriter,
    chunk_buffers: Vec<ChunkBuffer>,
    notifiers: Vec<ChunkWriteNotifier>,
    next_notifier_id: u64,
}

/// The mathematical state of a chunked writer.
pub struct ChunkedWriterView {
    /// The whole-second base time the recording started at.
    pub base_time: AbsTimestampSecs,
    /// The length of time a chunk is responsible for, in microseconds.
    pub chunk_period_micros: u32,
    /// Whether the writer has been closed.
    pub closed: bool,
    /// The incremental callsites writer.
    pub callsites: CallsitesWriterView,
    /// The open chunk buffers, in creation order.
    pub chunk_buffers: Seq<ChunkBufferView>,
    /// The registered waiters.
    pub notifiers: Seq<ChunkWriteNotifier>,
    /// The key the next waiter will be registered under.
    pub next_notifier_id: u64,
}

impl View for ChunkedWriter {
    type V = ChunkedWriterView;

    closed spec fn view(&self) -> ChunkedWriterView {
        ChunkedWriterView {
            base_time: self.base_time,
            chunk_period_micros: self.chunk_period_micros,
            closed: self.closed,
            callsites: self.callsites_writer@,
            chunk_buffers: self.chunk_buffers@.map_values(|b: ChunkBuffer| b@),
            notifiers: self.notifiers@,
            next_notifier_id: self.next_notifier_id,
        }
    }
}

/// A writer is well formed when its period is a valid chunk period, its
/// chunk buffers are well formed over bounded intervals, and its callsites
/// writer is consistent.
pub open spec fn writer_well_formed(v: ChunkedWriterView) -> bool {
    &&& ChunkInterval::valid_period(v.chunk_period_micros as u64)
    &&& callsites_writer_well_formed(v.callsites)
    &&& forall|i: int|
        0 <= i < v.chunk_buffers.len() ==> chunk_buffer_well_formed(#[trigger] v.chunk_buffers[i])
    &&& forall|i: int|
        0 <= i < v.chunk_buffers.len() ==> (#[trigger] v.chunk_buffers[i]).interval.base_time.secs
            < 200_000_000_000 && interval_end_abs_micros(v.chunk_buffers[i].interval)
            + 1_000_000 <= u64::MAX
    &&& forall|i: int|
        0 <= i < v.notifiers.len() ==> (#[trigger] v.notifiers[i]).ts.is_valid()
            && v.notifiers[i].ts.secs < 200_000_000_000
}

impl ChunkedWriter {
    /// Create a writer starting at the given moment, together with the
    /// bytes of the recording's meta file for the caller to persist.
    ///
    /// Chunks cover one second of execution time each.
    pub fn try_new(now: AbsTimestamp) -> (r: (ChunkedWriter, Vec<u8>))
        requires
            now.is_valid(),
        ensures
            writer_well_formed(r.0@),
            r.0@.base_time.secs == now.secs,
            r.0@.chunk_period_micros == MICROS_PER_SEC,
            !r.0@.closed,
            r.0@.chunk_buffers =~= Seq::<ChunkBufferView>::empty(),
            r.0@.notifiers =~= Seq::<ChunkWriteNotifier>::empty(),
            r.0@.callsites.chunked_callsites.callsites =~= Seq::<
                crate::callsite::CallsiteView,
            >::empty(),
            r.1@ == enc_chunked_meta(
                ChunkedMetaView {
                    format_identifier: crate::chunked::meta::version_spec(),
                    created_time: now,
                    format_identifiers: seq![chunk_format_version_spec()],
                },
            ),
    {
        let mut identifiers: Vec<FormatIdentifier> = Vec::new();
        identifiers.push(chunk_format_version());
        proof {
            assert(identifiers@ =~= seq![chunk_format_version_spec()]);
        }
        let meta = ChunkedMeta::new(now, identifiers);
        let mut meta_bytes: Vec<u8> = Vec::new();
        meta.to_io(&mut meta_bytes);
        let writer = ChunkedWriter {
            base_time: AbsTimestampSecs { secs: now.secs },
            chunk_period_micros: 1_000_000,
            closed: false,
            callsites_writer: ChunkedCallsitesWriter::try_new(),
            chunk_buffers: Vec::new(),
            notifiers: Vec::new(),
            next_notifier_id: 0,
        };
        proof {
            assert(writer@.chunk_buffers =~= Seq::<ChunkBufferView>::empty());
            assert(meta_bytes@ =~= enc_chunked_meta(meta@));
        }
        (writer, meta_bytes)
    }

    /// The length of time a chunk is responsible for, in microseconds.
    pub fn chunk_period_micros(&self) -> (r: u32)
        ensures
            r == self@.chunk_period_micros,
    {
        self.chunk_period_micros
    }

    /// Close the writer, draining all waiters.
    ///
    /// The returned keys identify the waiters that must be told the writer
    /// closed before their chunk was persisted.
    pub fn close(&mut self) -> (r: Vec<u64>)
        ensures
            final(self)@ == (ChunkedWriterView {
                closed: true,
                notifiers: Seq::<ChunkWriteNotifier>::empty(),
                ..old(self)@
            }),
            r@ == old(self)@.notifiers.map_values(|n: ChunkWriteNotifier| n.id),
    {
        self.closed = true;
        let mut drained: Vec<u64> = Vec::new();
        let mut i: usize = 0;
        while i < self.notifiers.len()
            invariant
                i <= self.notifiers@.len(),
                self.notifiers@ == old(self)@.notifiers,
                drained@ == old(self)@.notifiers.take(i as int).map_values(
                    |n: ChunkWriteNotifier| n.id,
                ),
            decreases self.notifiers@.len() - i,
        {
            drained.push(self.notifiers[i].id);
            proof {
                assert(old(self)@.notifiers.take(i + 1) =~= old(self)@.notifiers.take(
                    i as int).push(old(self)@.notifiers[i as int]));
                assert(drained@ =~= old(self)@.notifiers.take(i + 1).map_values(
                    |n: ChunkWriteNotifier| n.id));
            }
            i = i + 1;
        }
        self.notifiers = Vec::new();
        proof {
            assert(old(self)@.notifiers.take(old(self)@.notifiers.len() as int) =~= old(
                self)@.notifiers);
            assert(self@.notifiers =~= Seq::<ChunkWriteNotifier>::empty());
        }
        drained
    }

    /// Whether the writer has been closed.
    pub fn is_closed(&self) -> (r: bool)
        ensures
            r == self@.closed,
    {
        self.closed
    }

    /// Register a callsite to be streamed into the callsites file.
    ///
    /// Registration is idempotent by callsite id: a re-registration with a
    /// matching id is a no-op.
    pub fn register_callsite(&mut self, callsite: Callsite) -> (r: PushCallsiteResult)
        requires
            writer_well_formed(old(self)@),
        ensures
            writer_well_formed(final(self)@),
            final(self)@ == (ChunkedWriterView { callsites: final(self)@.callsites, ..old(self)@ }),
            final(self)@.callsites.out == old(self)@.callsites.out,
            (exists|i: int|
                0 <= i < old(self)@.callsites.chunked_callsites.callsites.len() && (
                #[trigger] old(self)@.callsites.chunked_callsites.callsites[i]).callsite_id
                    == callsite@.callsite_id) ==> (r == PushCallsiteResult::Duplicate && final(self)@.callsites == old(self)@.callsites),
            (forall|i: int|
                0 <= i < old(self)@.callsites.chunked_callsites.callsites.len() ==> (
                #[trigger] old(self)@.callsites.chunked_callsites.callsites[i]).callsite_id
                    != callsite@.callsite_id) ==> (r == PushCallsiteResult::Added && final(self)@.callsites.chunked_callsites.callsites
                == old(self)@.callsites.chunked_callsites.callsites.push(callsite@)),
    {
        self.callsites_writer.push_callsite(callsite)
    }

    /// Flush pending callsites into the callsites file bytes.
    pub fn flush_callsites(&mut self)
        requires
            writer_well_formed(old(self)@),
        ensures
            writer_well_formed(final(self)@),
            final(self)@ == (ChunkedWriterView { callsites: final(self)@.callsites, ..old(self)@ }),
            final(self)@.callsites.chunked_callsites == old(self)@.callsites.chunked_callsites,
            final(self)@.callsites.written_callsites == final(self)@.callsites.chunked_callsites.callsites.len(),
    {
        let r = self.callsites_writer.flush();
        match r {
            Ok(()) => (),
            Err(_) => (),
        }
    }

    /// The bytes of the callsites file produced so far.
    pub fn callsites_file_bytes(&self) -> (r: &Vec<u8>)
        ensures
            r@ == self@.callsites.out,
    {
        self.callsites_writer.written()
    }

    /// Append a record for an event at an absolute moment, in the given
    /// producer's sequence.
    ///
    /// The record lands in the chunk buffer of the moment's interval and in
    /// the producer's sequence buffer within it; both are created on first
    /// use. Objects the record refers to are resolved through
    /// `get_objects` on first sight, and the record is dropped if any
    /// cannot be resolved.
    #[verifier::rlimit(100)]
    #[verifier::loop_isolation(false)]
    pub fn append_record<F: FnOnce(&Vec<InstrumentationId>) -> Vec<Option<Object>>>(
        &mut self,
        timestamp: AbsTimestamp,
        seq_id: SeqId,
        data: RecordData,
        get_objects: F,
    )
        requires
            writer_well_formed(old(self)@),
            timestamp.is_valid(),
            timestamp.secs < 200_000_000_000,
            forall|ids: Vec<InstrumentationId>| #[trigger] call_requires(get_objects, (&ids,)),
        ensures
            writer_well_formed(final(self)@),
            exists|asked: Vec<InstrumentationId>, results: Vec<Option<Object>>|
                {
                    &&& asked@ == buffer_missing_refs(
                        append_base_buffer(
                            old(self)@.chunk_buffers,
                            ChunkInterval::interval_spec(
                                timestamp,
                                old(self)@.chunk_period_micros as u64,
                            ),
                            seq_id,
                        ),
                        data@,
                    )
                    &&& #[trigger] call_ensures(get_objects, (&asked,), results)
                    &&& final(self)@ == (ChunkedWriterView {
                        chunk_buffers: writer_after_append(
                            old(self)@.chunk_buffers,
                            ChunkInterval::interval_spec(
                                timestamp,
                                old(self)@.chunk_period_micros as u64,
                            ),
                            seq_id,
                            record_at(
                                ChunkInterval::interval_spec(
                                    timestamp,
                                    old(self)@.chunk_period_micros as u64,
                                ),
                                timestamp,
                                data@,
                            ),
                            object_results_view(results@),
                        ),
                        ..old(self)@
                    })
                },
    {
        let ghost pre = self@.chunk_buffers;
        let ghost gf = get_objects;
        let period = self.chunk_period_micros as u64;
        let interval = ChunkInterval::from_timestamp_and_period(timestamp, period);
        proof {
            crate::timestamp::lemma_interval_contains_rel(timestamp, period);
        }
        let chunk_ts = ChunkTimestamp::from_base_and_timestamp(interval.base_time(), &timestamp);
        let record = Record {
            meta: crate::chunked::record::Meta { timestamp: chunk_ts },
            data,
        };
        let ghost rec = record_at(interval, timestamp, data@);
        proof {
            assert(record@ == rec);
        }
        // find the chunk buffer covering the interval
        let n = self.chunk_buffers.len();
        let mut ci: usize = 0;
        while ci < n && !(self.chunk_buffers[ci].interval() == interval)
            invariant
                ci <= n,
                self@.chunk_buffers == pre,
                forall|j: int| 0 <= j < ci ==> (#[trigger] pre[j]).interval != interval,
            decreases n - ci,
        {
            ci = ci + 1;
        }
        proof {
            lemma_find_chunk_at(pre, interval, ci as int);
        }
        if ci == n {
            // no chunk buffer for this interval yet: create it with one
            // fresh sequence buffer for the producer
            let mut cb = ChunkBuffer::new(interval);
            let si = cb.new_seq_chunk_buffer(seq_id);
            proof {
                assert(cb@.seq_chunks.len() == 1);
                assert(cb@.seq_chunks[0] == empty_seq_buffer(interval, seq_id));
                assert(cb.seq_chunks@.len() == 1);
                assert(cb.seq_chunks@[0]@ == empty_seq_buffer(interval, seq_id));
            }
            let mut sb = cb.seq_chunks.remove(si);
            proof {
                assert(sb@ == empty_seq_buffer(interval, seq_id));
            }
            sb.append_record(record, get_objects);
            proof {
                assert(sb@.interval == interval);
            }
            cb.seq_chunks.insert(si, sb);
            self.chunk_buffers.push(cb);
            proof {
                let (asked, results0) = choose|
                    asked: Vec<InstrumentationId>,
                    results0: Vec<Option<Object>>,
                |
                    {
                        &&& asked@ == buffer_missing_refs(
                            empty_seq_buffer(interval, seq_id),
                            rec.data,
                        )
                        &&& #[trigger] call_ensures(gf, (&asked,), results0)
                        &&& sb@ == resolution_outcome(
                            empty_seq_buffer(interval, seq_id),
                            rec,
                            asked@,
                            object_results_view(results0@),
                        )
                    };
                let results = object_results_view(results0@);
                assert(cb@.seq_chunks =~= seq![sb@]);
                assert(self@.chunk_buffers =~= pre.push(cb@));
                assert(self@.chunk_buffers =~= writer_after_append(pre, interval, seq_id, rec,
                    results));
                lemma_writer_bounds(interval, timestamp, period);
                assert forall|j: int| 0 <= j < self@.chunk_buffers.len() implies
                    chunk_buffer_well_formed(#[trigger] self@.chunk_buffers[j]) by {
                    if j < pre.len() {
                        assert(self@.chunk_buffers[j] == pre[j]);
                    } else {
                        assert(self@.chunk_buffers[j] == cb@);
                        assert(forall|q: int|
                            0 <= q < cb@.seq_chunks.len() ==> #[trigger] cb@.seq_chunks[q]
                                == sb@);
                    }
                }
                assert forall|j: int| 0 <= j < self@.chunk_buffers.len() implies (
                #[trigger] self@.chunk_buffers[j]).interval.base_time.secs < 200_000_000_000
                    && interval_end_abs_micros(self@.chunk_buffers[j].interval) + 1_000_000
                    <= u64::MAX by {
                    if j < pre.len() {
                        assert(self@.chunk_buffers[j] == pre[j]);
                    } else {
                        assert(self@.chunk_buffers[j] == cb@);
                    }
                }
                assert(self@.notifiers == old(self)@.notifiers);
                assert(self@.callsites == old(self)@.callsites);
                assert(writer_well_formed(self@));
                assert(append_base_buffer(pre, interval, seq_id) == empty_seq_buffer(
                    interval,
                    seq_id,
                ));
                assert(rec.data == data@);
                assert(call_ensures(gf, (&asked,), results0));
                assert(self@ == (ChunkedWriterView {
                    chunk_buffers: writer_after_append(pre, interval, seq_id, rec, results),
                    ..old(self)@
                }));
            }
        } else {
            let mut cb = self.chunk_buffers.remove(ci);
            proof {
                assert(cb@ == pre[ci as int]);
            }
            // find the producer's sequence buffer within the chunk
            let m = cb.seq_chunks.len();
            let mut si: usize = 0;
            while si < m && !(cb.seq_chunks[si].seq_id().0 == seq_id.0)
                invariant
                    si <= m,
                    cb@ == pre[ci as int],
                    m == cb@.seq_chunks.len(),
                    forall|j: int| 0 <= j < si ==> (#[trigger] cb@.seq_chunks[j]).seq_id != seq_id,
                decreases m - si,
            {
                si = si + 1;
            }
            proof {
                lemma_find_seq_at(cb@.seq_chunks, seq_id, si as int);
            }
            let created: bool = si == m;
            let si2 = if created {
                cb.new_seq_chunk_buffer(seq_id)
            } else {
                si
            };
            let ghost base = if created {
                empty_seq_buffer(interval, seq_id)
            } else {
                pre[ci as int].seq_chunks[si as int]
            };
            proof {
                assert(cb@.interval == interval);
                assert(cb@.seq_chunks.len() == cb.seq_chunks@.len());
                assert(si2 < cb.seq_chunks@.len());
                assert(cb@.seq_chunks[si2 as int] == cb.seq_chunks@[si2 as int]@);
                assert(cb@.seq_chunks[si2 as int] == base);
            }
            let ghost seqs_before = cb@.seq_chunks;
            let mut sb = cb.seq_chunks.remove(si2);
            proof {
                assert(sb@ == base);
                assert(sb@.interval == interval);
                assert(cb@.seq_chunks =~= seqs_before.remove(si2 as int));
            }
            sb.append_record(record, get_objects);
            cb.seq_chunks.insert(si2, sb);
            self.chunk_buffers.insert(ci, cb);
            proof {
                let (asked, results0) = choose|
                    asked: Vec<InstrumentationId>,
                    results0: Vec<Option<Object>>,
                |
                    {
                        &&& asked@ == buffer_missing_refs(base, rec.data)
                        &&& #[trigger] call_ensures(gf, (&asked,), results0)
                        &&& sb@ == resolution_outcome(
                            base,
                            rec,
                            asked@,
                            object_results_view(results0@),
                        )
                    };
                let results = object_results_view(results0@);
                assert(cb@.seq_chunks =~= seqs_before.remove(si2 as int).insert(si2 as int,
                    sb@));
                assert(cb@.seq_chunks =~= seqs_before.update(si2 as int, sb@));
                if created {
                    assert(seqs_before =~= pre[ci as int].seq_chunks.push(base));
                    assert(cb@.seq_chunks =~= pre[ci as int].seq_chunks.push(sb@));
                } else {
                    assert(seqs_before == pre[ci as int].seq_chunks);
                    assert(cb@.seq_chunks =~= pre[ci as int].seq_chunks.update(si as int, sb@));
                }
                assert(self@.chunk_buffers =~= pre.update(ci as int, cb@));
                assert(self@.chunk_buffers =~= writer_after_append(pre, interval, seq_id, rec,
                    results));
                assert forall|j: int| 0 <= j < self@.chunk_buffers.len() implies
                    chunk_buffer_well_formed(#[trigger] self@.chunk_buffers[j]) by {
                    if j == ci {
                        assert(self@.chunk_buffers[j] == cb@);
                        assert forall|q: int| 0 <= q < cb@.seq_chunks.len() implies
                            buffer_well_formed(#[trigger] cb@.seq_chunks[q])
                                && cb@.seq_chunks[q].interval == cb@.interval by {
                            if q == si2 {
                                assert(cb@.seq_chunks[q] == sb@);
                            } else {
                                assert(cb@.seq_chunks[q] == seqs_before[q]);
                                if created && q < pre[ci as int].seq_chunks.len() {
                                    assert(seqs_before[q] == pre[
                                        ci as int].seq_chunks[q]);
                                } else if !created {
                                    assert(seqs_before[q] == pre[
                                        ci as int].seq_chunks[q]);
                                }
                            }
                        }
                    } else {
                        assert(self@.chunk_buffers[j] == pre[j]);
                    }
                }
                assert forall|j: int| 0 <= j < self@.chunk_buffers.len() implies (
                #[trigger] self@.chunk_buffers[j]).interval.base_time.secs < 200_000_000_000
                    && interval_end_abs_micros(self@.chunk_buffers[j].interval) + 1_000_000
                    <= u64::MAX by {
                    if j == ci {
                        assert(self@.chunk_buffers[j].interval == pre[ci as int].interval);
                        assert(pre[ci as int].interval.base_time.secs < 200_000_000_000);
                    } else {
                        assert(self@.chunk_buffers[j] == pre[j]);
                    }
                }
                assert(self@.notifiers == old(self)@.notifiers);
                assert(self@.callsites == old(self)@.callsites);
                assert(writer_well_formed(self@));
                assert(append_base_buffer(pre, interval, seq_id) == base);
                assert(rec.data == data@);
                assert(call_ensures(gf, (&asked,), results0));
                assert(self@ == (ChunkedWriterView {
                    chunk_buffers: writer_after_append(pre, interval, seq_id, rec, results),
                    ..old(self)@
                }));
            }
        }
    }

    /// Write all the completed chunks out, removing them from the writer.
    ///
    /// A chunk is completed when a write buffer of 150 milliseconds has
    /// passed since the end of its interval, giving producers time to
    /// finish appending. The outcome carries the chunk files to persist,
    /// the waiters covered by them, and the time until the next flush is
    /// due: the current interval's end plus the write buffer and a little
    /// slack.
    #[verifier::rlimit(100)]
    #[verifier::loop_isolation(false)]
    pub fn write_completed_chunks(&mut self, now: AbsTimestamp) -> (r: FlushOutcome)
        requires
            writer_well_formed(old(self)@),
            now.is_valid(),
            now.secs < 200_000_000_000,
        ensures
            writer_well_formed(final(self)@),
            final(self)@ == (ChunkedWriterView {
                callsites: final(self)@.callsites,
                chunk_buffers: filter_seq(
                    old(self)@.chunk_buffers,
                    |cb: ChunkBufferView| !chunk_completed(cb, now),
                ),
                notifiers: filter_seq(
                    old(self)@.notifiers,
                    |nf: ChunkWriteNotifier|
                        !notifier_covered(
                            nf,
                            filter_seq(
                                old(self)@.chunk_buffers,
                                |cb: ChunkBufferView| chunk_completed(cb, now),
                            ),
                        ),
                ),
                ..old(self)@
            }),
            final(self)@.callsites.chunked_callsites == old(self)@.callsites.chunked_callsites,
            final(self)@.callsites.written_callsites == final(self)@.callsites.chunked_callsites.callsites.len(),
            ({
                let flushed = filter_seq(
                    old(self)@.chunk_buffers,
                    |cb: ChunkBufferView| chunk_completed(cb, now),
                );
                &&& r.files@.len() == flushed.len()
                &&& forall|i: int|
                    0 <= i < flushed.len() ==> (#[trigger] r.files@[i]).bytes@
                        == chunk_file_bytes(flushed[i]) && r.files@[i].relative_path@
                        == chunk_rel_path_chars(flushed[i].interval.base_time.secs)
                &&& r.written_notifiers@ == filter_seq(
                    old(self)@.notifiers,
                    |nf: ChunkWriteNotifier| notifier_covered(nf, flushed),
                ).map_values(|nf: ChunkWriteNotifier| nf.id)
                &&& r.next_write_in_micros == next_write_in_spec(
                    now,
                    old(self)@.chunk_period_micros as u64,
                )
            }),
    {
        let ghost prebufs = self@.chunk_buffers;
        let ghost prenfs = self@.notifiers;
        let ghost completed_pred = |cb: ChunkBufferView| chunk_completed(cb, now);
        let ghost kept_pred = |cb: ChunkBufferView| !chunk_completed(cb, now);
        let ghost flushed = filter_seq(prebufs, completed_pred);
        self.flush_callsites();
        let now_micros: u64 = now.secs * 1_000_000 + now.subsec_micros as u64;
        let mut old_bufs = self.chunk_buffers.split_off(0);
        let mut flushed_ends: Vec<u64> = Vec::new();
        let mut files: Vec<ChunkFileOut> = Vec::new();
        let ghost mut i: int = 0;
        proof {
            assert(self@.chunk_buffers =~= Seq::<ChunkBufferView>::empty());
            assert(prebufs.take(0) =~= Seq::<ChunkBufferView>::empty());
            assert(filter_seq(prebufs.take(0), kept_pred) =~= Seq::<ChunkBufferView>::empty());
            assert(filter_seq(prebufs.take(0), completed_pred)
                =~= Seq::<ChunkBufferView>::empty());
        }
        while old_bufs.len() > 0
            invariant
                0 <= i <= prebufs.len(),
                old_bufs@.map_values(|b: ChunkBuffer| b@) =~= prebufs.skip(i),
                self@.chunk_buffers == filter_seq(prebufs.take(i), kept_pred),
                self@ == (ChunkedWriterView {
                    callsites: self@.callsites,
                    chunk_buffers: self@.chunk_buffers,
                    ..old(self)@
                }),
                callsites_writer_well_formed(self@.callsites),
                self@.callsites.chunked_callsites == old(self)@.callsites.chunked_callsites,
                self@.callsites.written_callsites
                    == self@.callsites.chunked_callsites.callsites.len(),
                files@.len() == filter_seq(prebufs.take(i), completed_pred).len(),
                forall|j: int|
                    0 <= j < files@.len() ==> (#[trigger] files@[j]).bytes@ == chunk_file_bytes(
                        filter_seq(prebufs.take(i), completed_pred)[j],
                    ) && files@[j].relative_path@ == chunk_rel_path_chars(
                        filter_seq(
                            prebufs.take(i),
                            completed_pred,
                        )[j].interval.base_time.secs,
                    ),
                flushed_ends@.len() == filter_seq(prebufs.take(i), completed_pred).len(),
                forall|j: int|
                    0 <= j < flushed_ends@.len() ==> #[trigger] flushed_ends@[j] as int
                        == interval_end_abs_micros(
                        filter_seq(prebufs.take(i), completed_pred)[j].interval,
                    ),
            decreases old_bufs@.len(),
        {
            let ghost prefix = filter_seq(prebufs.take(i), completed_pred);
            let ghost kept_prefix = filter_seq(prebufs.take(i), kept_pred);
            proof {
                assert(prebufs.skip(i).len() > 0);
                assert(prebufs.take(i + 1).drop_last() =~= prebufs.take(i));
                assert(prebufs.take(i + 1).last() == prebufs[i]);
            }
            let ghost prev_bufs = old_bufs@;
            let cb = old_bufs.remove(0);
            proof {
                assert(prebufs.skip(i)[0] == prebufs[i]);
                assert(prev_bufs.map_values(|b: ChunkBuffer| b@)[0] == prebufs.skip(i)[0]);
                assert(cb@ == prebufs[i]);
                assert(old_bufs@ =~= prev_bufs.skip(1));
                assert forall|j: int| 0 <= j < old_bufs@.len() implies old_bufs@.map_values(
                    |b: ChunkBuffer| b@,
                )[j] == #[trigger] prebufs.skip(i + 1)[j] by {
                    assert(old_bufs@[j] == prev_bufs[j + 1]);
                    assert(prev_bufs.map_values(|b: ChunkBuffer| b@)[j + 1] == prev_bufs[j + 1]@);
                    assert(prebufs.skip(i)[j + 1] == prebufs[i + 1 + j]);
                }
                assert(old_bufs@.map_values(|b: ChunkBuffer| b@) =~= prebufs.skip(i + 1));
            }
            let iv = cb.interval();
            let end_abs: u64 = iv.base_time.secs * 1_000_000 + iv.end_time.micros;
            proof {
                assert(end_abs as int == interval_end_abs_micros(prebufs[i].interval));
            }
            if now_micros > end_abs + 150_000 {
                proof {
                    assert(chunk_completed(prebufs[i], now));
                }
                let mut bytes: Vec<u8> = Vec::new();
                cb.write(&mut bytes);
                let relative_path = chunk_rel_path(iv.base_time);
                files.push(ChunkFileOut { relative_path, bytes });
                flushed_ends.push(end_abs);
                proof {
                    assert(filter_seq(prebufs.take(i + 1), completed_pred) =~= prefix.push(
                        prebufs[i]));
                    assert(filter_seq(prebufs.take(i + 1), kept_pred) =~= kept_prefix);
                }
            } else {
                proof {
                    assert(!chunk_completed(prebufs[i], now));
                }
                self.chunk_buffers.push(cb);
                proof {
                    assert(filter_seq(prebufs.take(i + 1), completed_pred) =~= prefix);
                    assert(filter_seq(prebufs.take(i + 1), kept_pred) =~= kept_prefix.push(
                        prebufs[i]));
                    assert(self@.chunk_buffers =~= kept_prefix.push(prebufs[i]));
                }
            }
            proof {
                i = i + 1;
            }
        }
        proof {
            assert(prebufs.take(prebufs.len() as int) =~= prebufs);
            assert(flushed =~= filter_seq(prebufs, completed_pred));
        }
        // signal the waiters covered by the flushed chunks
        let mut old_nfs = self.notifiers.split_off(0);
        let mut written_notifiers: Vec<u64> = Vec::new();
        let ghost covered_pred = |nf: ChunkWriteNotifier| notifier_covered(nf, flushed);
        let ghost waiting_pred = |nf: ChunkWriteNotifier| !notifier_covered(nf, flushed);
        let ghost mut k: int = 0;
        proof {
            assert(self@.notifiers =~= Seq::<ChunkWriteNotifier>::empty());
            assert(prenfs.take(0) =~= Seq::<ChunkWriteNotifier>::empty());
            assert(filter_seq(prenfs.take(0), covered_pred)
                =~= Seq::<ChunkWriteNotifier>::empty());
            assert(filter_seq(prenfs.take(0), waiting_pred)
                =~= Seq::<ChunkWriteNotifier>::empty());
        }
        while old_nfs.len() > 0
            invariant
                0 <= k <= prenfs.len(),
                old_nfs@ =~= prenfs.skip(k),
                self@.notifiers == filter_seq(prenfs.take(k), waiting_pred),
                self@ == (ChunkedWriterView {
                    callsites: self@.callsites,
                    chunk_buffers: filter_seq(prebufs, kept_pred),
                    notifiers: self@.notifiers,
                    ..old(self)@
                }),
                callsites_writer_well_formed(self@.callsites),
                self@.callsites.chunked_callsites == old(self)@.callsites.chunked_callsites,
                self@.callsites.written_callsites
                    == self@.callsites.chunked_callsites.callsites.len(),
                written_notifiers@ == filter_seq(prenfs.take(k), covered_pred).map_values(
                    |nf: ChunkWriteNotifier| nf.id,
                ),
                flushed_ends@.len() == flushed.len(),
                forall|j: int|
                    0 <= j < flushed_ends@.len() ==> #[trigger] flushed_ends@[j] as int
                        == interval_end_abs_micros(flushed[j].interval),
            decreases old_nfs@.len(),
        {
            proof {
                assert(prenfs.skip(k).len() > 0);
                assert(prenfs.take(k + 1).drop_last() =~= prenfs.take(k));
                assert(prenfs.take(k + 1).last() == prenfs[k]);
            }
            let ghost prev_nfs = old_nfs@;
            let nf = old_nfs.remove(0);
            proof {
                assert(prenfs.skip(k)[0] == prenfs[k]);
                assert(nf == prenfs[k]);
                assert(old_nfs@ =~= prev_nfs.skip(1));
                assert(old_nfs@ =~= prenfs.skip(k + 1));
            }
            let nf_micros: u64 = nf.ts.secs * 1_000_000 + nf.ts.subsec_micros as u64;
            proof {
                assert(nf_micros as int == nf.ts.as_micros_spec());
            }
            let mut covered: bool = false;
            let mut q: usize = 0;
            while q < flushed_ends.len()
                invariant
                    q <= flushed_ends@.len(),
                    nf_micros as int == nf.ts.as_micros_spec(),
                    covered == exists|j: int|
                        0 <= j < q && nf.ts.as_micros_spec() <= interval_end_abs_micros(
                            (#[trigger] flushed[j]).interval,
                        ),
                decreases flushed_ends@.len() - q,
            {
                if nf_micros <= flushed_ends[q] {
                    covered = true;
                }
                q = q + 1;
            }
            proof {
                assert(covered == notifier_covered(nf, flushed));
            }
            if covered {
                written_notifiers.push(nf.id);
                proof {
                    assert(filter_seq(prenfs.take(k + 1), covered_pred) =~= filter_seq(
                        prenfs.take(k), covered_pred).push(nf));
                    assert(filter_seq(prenfs.take(k + 1), waiting_pred) =~= filter_seq(
                        prenfs.take(k), waiting_pred));
                    assert(written_notifiers@ =~= filter_seq(prenfs.take(k + 1),
                        covered_pred).map_values(|nf2: ChunkWriteNotifier| nf2.id));
                }
            } else {
                self.notifiers.push(nf);
                proof {
                    assert(filter_seq(prenfs.take(k + 1), covered_pred) =~= filter_seq(
                        prenfs.take(k), covered_pred));
                    assert(filter_seq(prenfs.take(k + 1), waiting_pred) =~= filter_seq(
                        prenfs.take(k), waiting_pred).push(nf));
                    assert(self@.notifiers =~= filter_seq(prenfs.take(k + 1), waiting_pred));
                }
            }
            proof {
                k = k + 1;
            }
        }
        proof {
            assert(prenfs.take(prenfs.len() as int) =~= prenfs);
            lemma_filter_seq_preserves(prebufs, kept_pred,
                |cb: ChunkBufferView| chunk_buffer_well_formed(cb));
            lemma_filter_seq_preserves(prebufs, kept_pred,
                |cb: ChunkBufferView|
                    cb.interval.base_time.secs < 200_000_000_000 && interval_end_abs_micros(
                        cb.interval,
                    ) + 1_000_000 <= u64::MAX,
            );
            lemma_filter_seq_preserves(prenfs, waiting_pred,
                |nf: ChunkWriteNotifier| nf.ts.is_valid() && nf.ts.secs < 200_000_000_000);
        }
        // tell the caller when to come back: after the current interval
        // ends, plus the write buffer and an extra fifty milliseconds
        let interval = ChunkInterval::from_timestamp_and_period(
            now,
            self.chunk_period_micros as u64,
        );
        proof {
            crate::timestamp::lemma_interval_contains_rel(now,
                old(self)@.chunk_period_micros as u64);
        }
        let due: u64 = interval.base_time.secs * 1_000_000 + interval.end_time.micros + 200_000;
        let next_write_in_micros: u64 = if due >= now_micros {
            due - now_micros
        } else {
            0
        };
        FlushOutcome { files, written_notifiers, next_write_in_micros }
    }

    /// Write all stored chunks out as chunk files, without removing them.
    ///
    /// If further records are appended to the contained sequence buffers,
    /// the chunks can be written again later; a rewritten file supersedes
    /// the earlier one at the same path.
    #[verifier::loop_isolation(false)]
    pub fn write_all_chunks(&mut self) -> (r: Vec<ChunkFileOut>)
        requires
            writer_well_formed(old(self)@),
        ensures
            writer_well_formed(final(self)@),
            final(self)@ == (ChunkedWriterView { callsites: final(self)@.callsites, ..old(self)@ }),
            final(self)@.callsites.chunked_callsites == old(self)@.callsites.chunked_callsites,
            final(self)@.callsites.written_callsites == final(self)@.callsites.chunked_callsites.callsites.len(),
            r@.len() == old(self)@.chunk_buffers.len(),
            forall|i: int|
                0 <= i < r@.len() ==> (#[trigger] r@[i]).bytes@ == chunk_file_bytes(
                    old(self)@.chunk_buffers[i],
                ) && r@[i].relative_path@ == chunk_rel_path_chars(
                    old(self)@.chunk_buffers[i].interval.base_time.secs,
                ),
    {
        self.flush_callsites();
        let mut files: Vec<ChunkFileOut> = Vec::new();
        let mut i: usize = 0;
        while i < self.chunk_buffers.len()
            invariant
                i <= self.chunk_buffers@.len(),
                self@ == (ChunkedWriterView { callsites: self@.callsites, ..old(self)@ }),
                files@.len() == i,
                forall|j: int|
                    0 <= j < i ==> (#[trigger] files@[j]).bytes@ == chunk_file_bytes(
                        old(self)@.chunk_buffers[j],
                    ) && files@[j].relative_path@ == chunk_rel_path_chars(
                        old(self)@.chunk_buffers[j].interval.base_time.secs,
                    ),
            decreases self.chunk_buffers@.len() - i,
        {
            proof {
                assert(self@.chunk_buffers[i as int].interval.base_time.secs
                    < 200_000_000_000);
            }
            let mut bytes: Vec<u8> = Vec::new();
            self.chunk_buffers[i].write(&mut bytes);
            let relative_path = chunk_rel_path(self.chunk_buffers[i].interval().base_time);
            files.push(ChunkFileOut { relative_path, bytes });
            i = i + 1;
        }
        files
    }

    /// Register a waiter for the persistence of a chunk covering the given
    /// moment, returning the key it waits under.
    pub fn register_notifier(&mut self, ts: AbsTimestamp) -> (r: u64)
        requires
            writer_well_formed(old(self)@),
            old(self)@.next_notifier_id < u64::MAX,
            ts.is_valid(),
            ts.secs < 200_000_000_000,
        ensures
            writer_well_formed(final(self)@),
            r == old(self)@.next_notifier_id,
            final(self)@ == (ChunkedWriterView {
                notifiers: old(self)@.notifiers.push(ChunkWriteNotifier { id: r, ts }),
                next_notifier_id: (old(self)@.next_notifier_id + 1) as u64,
                ..old(self)@
            }),
    {
        let id = self.next_notifier_id;
        self.notifiers.push(ChunkWriteNotifier { id, ts });
        self.next_notifier_id = id + 1;
        proof {
            assert(self@.notifiers =~= old(self)@.notifiers.push(ChunkWriteNotifier { id, ts }));
        }
        id
    }
}

/// When the next flush is due, measured from `now`: the end of the current
/// interval plus the 150 millisecond write buffer and 50 milliseconds of
/// slack.
pub open spec fn next_write_in_spec(now: AbsTimestamp, period_micros: u64) -> int {
    let interval = ChunkInterval::interval_spec(now, period_micros);
    let due = interval_end_abs_micros(interval) + 200_000;
    if due >= now.as_micros_spec() {
        due - now.as_micros_spec()
    } else {
        0
    }
}

/// A property of every element of a sequence holds of every element of a
/// filtered sub-sequence.
pub proof fn lemma_filter_seq_preserves<T>(
    s: Seq<T>,
    pred: spec_fn(T) -> bool,
    q: spec_fn(T) -> bool,
)
    requires
        forall|i: int| 0 <= i < s.len() ==> q(#[trigger] s[i]),
    ensures
        forall|j: int| 0 <= j < filter_seq(s, pred).len() ==> q(#[trigger] filter_seq(s, pred)[j]),
    decreases s.len(),
{
    if s.len() > 0 {
        assert(forall|i: int| 0 <= i < s.drop_last().len() ==> q(#[trigger] s.drop_last()[i]));
        lemma_filter_seq_preserves(s.drop_last(), pred, q);
        assert(q(s.last()));
        let f = filter_seq(s, pred);
        let rest = filter_seq(s.drop_last(), pred);
        assert forall|j: int| 0 <= j < f.len() implies q(#[trigger] f[j]) by {
            if pred(s.last()) {
                assert(f == rest.push(s.last()));
                if j < rest.len() {
                    assert(f[j] == rest[j]);
                } else {
                    assert(f[j] == s.last());
                }
            } else {
                assert(f == rest);
            }
        }
    }
}

/// The first index whose chunk buffer covers an interval is where no
/// earlier buffer does.
pub proof fn lemma_find_chunk_at(bufs: Seq<ChunkBufferView>, interval: ChunkInterval, ci: int)
    requires
        0 <= ci <= bufs.len(),
        forall|j: int| 0 <= j < ci ==> (#[trigger] bufs[j]).interval != interval,
        ci < bufs.len() ==> bufs[ci].interval == interval,
    ensures
        find_chunk(bufs, interval) == ci,
    decreases ci, bufs.len(),
{
    if bufs.len() == 0 {
    } else if ci == 0 {
        if bufs.len() > 0 && bufs[0].interval != interval {
            assert(false);
        }
    } else {
        assert(bufs[0].interval != interval);
        assert(forall|j: int|
            0 <= j < ci - 1 ==> (#[trigger] bufs.drop_first()[j]).interval != interval);
        if ci - 1 < bufs.drop_first().len() {
            assert(bufs.drop_first()[ci - 1] == bufs[ci]);
        }
        lemma_find_chunk_at(bufs.drop_first(), interval, ci - 1);
    }
}

/// The first index whose sequence buffer belongs to a producer is where no
/// earlier buffer does.
pub proof fn lemma_find_seq_at(seqs: Seq<SeqChunkBufferView>, seq_id: SeqId, si: int)
    requires
        0 <= si <= seqs.len(),
        forall|j: int| 0 <= j < si ==> (#[trigger] seqs[j]).seq_id != seq_id,
        si < seqs.len() ==> seqs[si].seq_id == seq_id,
    ensures
        find_seq(seqs, seq_id) == si,
    decreases si, seqs.len(),
{
    if seqs.len() == 0 {
    } else if si == 0 {
        if seqs.len() > 0 && seqs[0].seq_id != seq_id {
            assert(false);
        }
    } else {
        assert(seqs[0].seq_id != seq_id);
        assert(forall|j: int|
            0 <= j < si - 1 ==> (#[trigger] seqs.drop_first()[j]).seq_id != seq_id);
        if si - 1 < seqs.drop_first().len() {
            assert(seqs.drop_first()[si - 1] == seqs[si]);
        }
        lemma_find_seq_at(seqs.drop_first(), seq_id, si - 1);
    }
}

/// The interval computed for a bounded timestamp has a bounded base and a
/// bounded absolute end.
pub proof fn lemma_writer_bounds(interval: ChunkInterval, timestamp: AbsTimestamp, period: u64)
    requires
        timestamp.is_valid(),
        timestamp.secs < 200_000_000_000,
        ChunkInterval::valid_period(period),
        period <= u32::MAX,
        interval == ChunkInterval::interval_spec(timestamp, period),
    ensures
        interval.base_time.secs < 200_000_000_000,
        interval_end_abs_micros(interval) + 1_000_000 <= u64::MAX,
{
    crate::timestamp::lemma_interval_contains_rel(timestamp, period);
    assert(interval.base_time.secs <= timestamp.secs);
    assert(interval.end_time.micros <= period + MICROS_PER_SEC);
    assert(interval.base_time.secs * (MICROS_PER_SEC as int) <= 200_000_000_000int
        * (MICROS_PER_SEC as int)) by (nonlinear_arith)
        requires
            interval.base_time.secs <= 200_000_000_000,
    ;
}

/// The aggregate extremes bound every child's extremes: the recomputed
/// chunk header covers each sequence buffer it persists.
pub proof fn lemma_chunk_header_bounds_children(v: ChunkBufferView)
    ensures
        forall|i: int|
            0 <= i < v.seq_chunks.len() ==> chunk_buffer_header(v).earliest_timestamp.micros <= (
            #[trigger] v.seq_chunks[i]).earliest_timestamp.micros,
        forall|i: int|
            0 <= i < v.seq_chunks.len() ==> chunk_buffer_header(v).latest_timestamp.micros >= (
            #[trigger] v.seq_chunks[i]).latest_timestamp.micros,
{
    lemma_agg_earliest_bounds(v.seq_chunks, v.interval.end_time);
    lemma_agg_latest_bounds(v.seq_chunks, v.interval.start_time);
}

/// The folded earliest timestamp is at or below every child's earliest.
proof fn lemma_agg_earliest_bounds(chunks: Seq<SeqChunkBufferView>, init: ChunkTimestamp)
    ensures
        agg_earliest(chunks, init).micros <= init.micros,
        forall|i: int|
            0 <= i < chunks.len() ==> agg_earliest(chunks, init).micros <= (#[trigger] chunks[
            i]).earliest_timestamp.micros,
    decreases chunks.len(),
{
    if chunks.len() > 0 {
        lemma_agg_earliest_bounds(chunks.drop_last(), init);
        assert(forall|i: int| 0 <= i < chunks.len() - 1 ==> chunks.drop_last()[i] == chunks[i]);
    }
}

/// The folded latest timestamp is at or above every child's latest.
proof fn lemma_agg_latest_bounds(chunks: Seq<SeqChunkBufferView>, init: ChunkTimestamp)
    ensures
        agg_latest(chunks, init).micros >= init.micros,
        forall|i: int|
            0 <= i < chunks.len() ==> agg_latest(chunks, init).micros >= (#[trigger] chunks[
            i]).latest_timestamp.micros,
    decreases chunks.len(),
{
    if chunks.len() > 0 {
        lemma_agg_latest_bounds(chunks.drop_last(), init);
        assert(forall|i: int| 0 <= i < chunks.len() - 1 ==> chunks.drop_last()[i] == chunks[i]);
    }
}

} // verus!
