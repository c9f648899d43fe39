//! The reshape engine.
//!
//! A recording stores events per sequence; trace viewers want them per
//! task. The engine discovers tasks across all sequence chunks, fans each
//! record out to the timelines it concerns, links wake operations to the
//! polls that consume them with per-task wake counters, synthesizes spawn
//! records on the spawning task's timeline, and sorts every timeline by
//! time.

use vstd::multiset::Multiset;
use vstd::prelude::*;

use crate::chunked::read::{ChunkLoader, ChunkLoaderState, ChunkView, Recording};
use crate::chunked::record::{Object, ObjectView, RecordData, RecordDataView, RecordView};
use crate::chunked::sequence::{SeqChunkHeader, SeqChunkView, SeqId};
use crate::common::{InstrumentationId, Task, TaskView, Waker};
use crate::timestamp::{AbsTimestamp, AbsTimestampSecs, ChunkTimestamp};

verus! {

/// A compact identifier for tasks, assigned in first-sight order.
///
/// The identifier is compact, unlike an instrumentation id, because it is
/// masked together with other values into the flow identifiers that link
/// trace events.
#[derive(Debug, Clone, Copy, PartialEq, Eq, Structural)]
pub struct DynamicId(pub u64);

impl DynamicId {
    /// The `u64` representation of the dynamic id.
    pub fn as_u64(&self) -> (r: u64)
        ensures
            r == self.0,
    {
        self.0
    }

    /// Advance to the next dynamic id.
    pub fn inc(&mut self)
        requires
            old(self).0 < u64::MAX,
        ensures
            final(self).0 == old(self).0 + 1,
    {
        self.0 = self.0 + 1;
    }
}

/// A per-task counter differentiating wake operations, so that a wake can
/// be linked to the next poll that consumes it. Zero means the owning task
/// is unknown.
#[derive(Debug, Clone, Copy, PartialEq, Eq, Structural)]
pub struct WakeId(pub u64);

impl WakeId {
    /// The wake id meaning that the owning task is unknown.
    pub fn zero() -> (r: WakeId)
        ensures
            r.0 == 0,
    {
        WakeId(0)
    }

    /// The `u64` representation of the wake id.
    pub fn as_u64(&self) -> (r: u64)
        ensures
            r == self.0,
    {
        self.0
    }

    /// Advance the counter and return its new value.
    pub fn inc(&mut self) -> (r: WakeId)
        requires
            old(self).0 < u64::MAX,
        ensures
            final(self).0 == old(self).0 + 1,
            r == *final(self),
    {
        self.0 = self.0 + 1;
        WakeId(self.0)
    }
}

/// How a waker was invoked.
#[derive(Debug, Clone, Copy, PartialEq, Eq, Structural)]
pub enum WakerAction {
    /// A consuming wake.
    Consume,
    /// A non-consuming wake, by reference.
    ByRef,
}

/// Record data reshaped for per-task timelines.
#[derive(Debug, Clone, PartialEq, Eq, Structural)]
pub enum Data {
    /// A new task; the first record for a task.
    TaskNew {
        /// The task's instrumentation id.
        iid: InstrumentationId,
    },
    /// The task was dropped; the last record for a task.
    TaskDrop {
        /// The task's instrumentation id.
        iid: InstrumentationId,
    },
    /// A task poll started.
    TaskPollStart {
        /// The task's instrumentation id.
        iid: InstrumentationId,
    },
    /// A task poll ended.
    TaskPollEnd {
        /// The task's instrumentation id.
        iid: InstrumentationId,
    },
    /// The task was woken; the record appears on the woken task's
    /// timeline.
    WakerWoken {
        /// The task the wake came from, when known.
        woken_by: Option<InstrumentationId>,
        /// How the waker was invoked.
        action: WakerAction,
        /// The wake counter linking this wake to the next poll.
        wid: WakeId,
    },
    /// The task invoked a waker, waking another task; the record appears
    /// on the waking task's timeline.
    WakerWake {
        /// The task that was woken.
        woken: InstrumentationId,
        /// How the waker was invoked.
        action: WakerAction,
        /// The wake counter shared with the woken task's record.
        wid: WakeId,
    },
    /// A waker was cloned: one more waker exists for the task.
    WakerClone {
        /// The waker's subject.
        waker: Waker,
    },
    /// A waker was dropped: one fewer waker exists for the task.
    WakerDrop {
        /// The waker's subject.
        waker: Waker,
    },
    /// A task was spawned; the record appears on the spawning task's
    /// timeline.
    Spawn {
        /// The task that was spawned.
        spawned_iid: InstrumentationId,
        /// The task that spawned it.
        by_iid: InstrumentationId,
    },
}

/// A reshaped record: an absolute moment and what happened.
#[derive(Debug, Clone, PartialEq, Eq, Structural)]
pub struct Record {
    /// When the event happened.
    pub timestamp: AbsTimestamp,
    /// What happened.
    pub data: Data,
}

/// Wall-clock order on reshaped records: by whole seconds, then by the
/// sub-second component.
pub open spec fn record_le(a: Record, b: Record) -> bool {
    a.timestamp.secs < b.timestamp.secs || (a.timestamp.secs == b.timestamp.secs
        && a.timestamp.subsec_micros <= b.timestamp.subsec_micros)
}

/// Records belonging to a task: everything that shows on its timeline.
#[derive(Debug, Clone, PartialEq)]
pub struct TaskRecords {
    /// The task itself.
    pub task: Task,
    /// The task's compact identifier, in first-sight order.
    pub did: DynamicId,
    /// The largest wake counter handed out for the task.
    pub greatest_wid: WakeId,
    /// When the task's timeline starts.
    pub start: AbsTimestamp,
    /// When the task was dropped, once known.
    pub end: Option<AbsTimestamp>,
    /// The task's records.
    pub records: Vec<Record>,
}

impl TaskRecords {
    /// Records for a newly discovered task.
    pub fn new(task: Task, did: DynamicId, start: AbsTimestamp) -> (r: TaskRecords)
        ensures
            r.task == task,
            r.did == did,
            r.greatest_wid.0 == 0,
            r.start == start,
            r.end is None,
            r.records@ =~= Seq::<Record>::empty(),
    {
        TaskRecords {
            task,
            did,
            greatest_wid: WakeId::zero(),
            start,
            end: None,
            records: Vec::new(),
        }
    }

    /// Add a record to the task's timeline.
    ///
    /// The first record, when it is the task's creation, fixes the
    /// timeline's start; a drop fixes its end.
    pub fn add_record(&mut self, record: Record)
        ensures
            final(self).records@ == old(self).records@.push(record),
            final(self).task == old(self).task,
            final(self).did == old(self).did,
            final(self).greatest_wid == old(self).greatest_wid,
            final(self).start == (if old(self).records@.len() == 0 && record.data matches
                Data::TaskNew { .. } {
                record.timestamp
            } else {
                old(self).start
            }),
            final(self).end == (if record.data matches Data::TaskDrop { .. } {
                Some(record.timestamp)
            } else {
                old(self).end
            }),
    {
        let is_new = matches!(record.data, Data::TaskNew { .. });
        let is_drop = matches!(record.data, Data::TaskDrop { .. });
        if self.records.len() == 0 && is_new {
            self.start = record.timestamp;
        }
        if is_drop {
            self.end = Some(record.timestamp);
        }
        self.records.push(record);
    }
}

/// Records that do not belong to any task, collected by sequence.
#[derive(Debug, Clone, PartialEq)]
pub struct SeqRecords {
    /// The header of the sequence the records came from.
    pub header: SeqChunkHeader,
    /// When the first record happened, once one exists.
    pub start: Option<AbsTimestamp>,
    /// When the last record happened, once one exists.
    pub end: Option<AbsTimestamp>,
    /// The sequence's records.
    pub records: Vec<Record>,
}

impl SeqRecords {
    /// Records for a newly seen sequence.
    pub fn new(header: SeqChunkHeader) -> (r: SeqRecords)
        ensures
            r.header == header,
            r.start is None,
            r.end is None,
            r.records@ =~= Seq::<Record>::empty(),
    {
        SeqRecords { header, start: None, end: None, records: Vec::new() }
    }

    /// Add a record to the sequence's list.
    pub fn add_record(&mut self, record: Record)
        ensures
            final(self).records@ == old(self).records@.push(record),
            final(self).header == old(self).header,
            final(self).start == (if old(self).records@.len() == 0 {
                Some(record.timestamp)
            } else {
                old(self).start
            }),
            final(self).end == Some(record.timestamp),
    {
        if self.records.len() == 0 {
            self.start = Some(record.timestamp);
        }
        self.end = Some(record.timestamp);
        self.records.push(record);
    }
}

/// The mathematical value of a task's timeline.
pub struct TaskRecordsView {
    /// The task itself.
    pub task: crate::common::TaskView,
    /// The task's compact identifier, in first-sight order.
    pub did: DynamicId,
    /// The largest wake counter handed out for the task.
    pub greatest_wid: WakeId,
    /// When the task's timeline starts.
    pub start: AbsTimestamp,
    /// When the task was dropped, once known.
    pub end: Option<AbsTimestamp>,
    /// The task's records.
    pub records: Seq<Record>,
}

impl View for TaskRecords {
    type V = TaskRecordsView;

    open spec fn view(&self) -> TaskRecordsView {
        TaskRecordsView {
            task: self.task@,
            did: self.did,
            greatest_wid: self.greatest_wid,
            start: self.start,
            end: self.end,
            records: self.records@,
        }
    }
}

/// The mathematical value of a sequence's leftover records.
pub struct SeqRecordsView {
    /// The header of the sequence the records came from.
    pub header: SeqChunkHeader,
    /// When the first record happened, once one exists.
    pub start: Option<AbsTimestamp>,
    /// When the last record happened, once one exists.
    pub end: Option<AbsTimestamp>,
    /// The sequence's records.
    pub records: Seq<Record>,
}

impl View for SeqRecords {
    type V = SeqRecordsView;

    open spec fn view(&self) -> SeqRecordsView {
        SeqRecordsView {
            header: self.header,
            start: self.start,
            end: self.end,
            records: self.records@,
        }
    }
}

/// Data collected for conversion: records grouped by task or sequence, so
/// that they can be emitted as per-task timelines.
#[derive(Debug)]
pub struct CollectedData {
    /// The records of each discovered task, keyed by the task's
    /// instrumentation id and ordered by first sight.
    pub tasks: Vec<TaskRecords>,
    /// The records that belong to no task, one entry per sequence.
    pub sequences: Vec<SeqRecords>,
    /// The largest dynamic id handed out.
    pub largest_did: DynamicId,
}

/// An error collecting a recording's tasks.
#[derive(Debug, Clone, Copy, PartialEq, Eq, Structural)]
pub enum CollectError {
    /// No chunk of the recording could be loaded.
    NoChunks,
}

/// The state grown while collecting: task timelines and per-sequence
/// leftovers.
pub struct CollectView {
    /// The discovered timelines, in first-sight order.
    pub tasks: Seq<TaskRecordsView>,
    /// The per-sequence entries, in first-sight order.
    pub sequences: Seq<SeqRecordsView>,
}

/// The state before anything was discovered.
pub open spec fn empty_collect() -> CollectView {
    CollectView { tasks: Seq::empty(), sequences: Seq::empty() }
}

/// The mathematical values of a list of task timelines.
pub open spec fn task_views(tasks: Seq<TaskRecords>) -> Seq<TaskRecordsView> {
    tasks.map_values(|t: TaskRecords| t@)
}

/// The mathematical values of a list of sequence entries.
pub open spec fn sequence_views(sequences: Seq<SeqRecords>) -> Seq<SeqRecordsView> {
    sequences.map_values(|s: SeqRecords| s@)
}

/// The collected state a pair of lists holds.
pub open spec fn collect_view_of(tasks: Seq<TaskRecords>, sequences: Seq<SeqRecords>) -> CollectView {
    CollectView { tasks: task_views(tasks), sequences: sequence_views(sequences) }
}

/// Whether some timeline carries the instrumentation id.
pub open spec fn task_found(tasks: Seq<TaskRecordsView>, iid: InstrumentationId) -> bool {
    exists|j: int| 0 <= j < tasks.len() && (#[trigger] tasks[j]).task.iid == iid
}

/// The first timeline carrying the instrumentation id.
pub open spec fn task_index(tasks: Seq<TaskRecordsView>, iid: InstrumentationId) -> int
    decreases tasks.len(),
{
    if tasks.len() == 0 {
        0
    } else if tasks[0].task.iid == iid {
        0
    } else {
        1 + task_index(tasks.drop_first(), iid)
    }
}

/// Whether some sequence entry carries the sequence id.
pub open spec fn seq_found(sequences: Seq<SeqRecordsView>, seq_id: SeqId) -> bool {
    exists|j: int|
        0 <= j < sequences.len() && (#[trigger] sequences[j]).header.seq_id == seq_id
}

/// The first sequence entry carrying the sequence id.
pub open spec fn seq_index(sequences: Seq<SeqRecordsView>, seq_id: SeqId) -> int
    decreases sequences.len(),
{
    if sequences.len() == 0 {
        0
    } else if sequences[0].header.seq_id == seq_id {
        0
    } else {
        1 + seq_index(sequences.drop_first(), seq_id)
    }
}

/// The timeline of a newly discovered task.
pub open spec fn fresh_task_entry(task: TaskView, did: DynamicId, start: AbsTimestamp) -> TaskRecordsView {
    TaskRecordsView {
        task,
        did,
        greatest_wid: WakeId(0),
        start,
        end: None,
        records: Seq::empty(),
    }
}

/// The entry of a newly seen sequence.
pub open spec fn fresh_seq_entry(header: SeqChunkHeader) -> SeqRecordsView {
    SeqRecordsView { header, start: None, end: None, records: Seq::empty() }
}

/// A timeline after one record lands on it: the first record, when it is
/// the task's creation, fixes the start, and a drop fixes the end.
pub open spec fn entry_with_record(e: TaskRecordsView, record: Record) -> TaskRecordsView {
    TaskRecordsView {
        records: e.records.push(record),
        start: if e.records.len() == 0 && (record.data matches Data::TaskNew { .. }) {
            record.timestamp
        } else {
            e.start
        },
        end: if record.data matches Data::TaskDrop { .. } {
            Some(record.timestamp)
        } else {
            e.end
        },
        ..e
    }
}

/// A sequence entry after one record lands on it.
pub open spec fn seq_entry_with_record(e: SeqRecordsView, record: Record) -> SeqRecordsView {
    SeqRecordsView {
        records: e.records.push(record),
        start: if e.records.len() == 0 {
            Some(record.timestamp)
        } else {
            e.start
        },
        end: Some(record.timestamp),
        ..e
    }
}

/// The timelines after a record addressed to one task lands on its
/// timeline, when the task was discovered, and is dropped otherwise.
pub open spec fn tasks_with_record(
    tasks: Seq<TaskRecordsView>,
    iid: InstrumentationId,
    record: Record,
) -> Seq<TaskRecordsView> {
    if task_found(tasks, iid) {
        tasks.update(
            task_index(tasks, iid),
            entry_with_record(tasks[task_index(tasks, iid)], record),
        )
    } else {
        tasks
    }
}

/// The state after a record addressed to one task lands on its timeline,
/// when the task was discovered, and is dropped otherwise.
pub open spec fn fan_out_to_task(st: CollectView, iid: InstrumentationId, record: Record) -> CollectView {
    CollectView { tasks: tasks_with_record(st.tasks, iid, record), ..st }
}

/// The state after a wake fans out.
///
/// The woken task's wake counter advances, and its timeline takes a
/// `WakerWoken`; under the same counter the waking task's timeline, or
/// the owning sequence when the waker is anonymous, takes the matching
/// `WakerWake`. A zero counter means the woken task is unknown.
pub open spec fn fan_out_wake_state(
    st: CollectView,
    seq_idx: Option<int>,
    ts: AbsTimestamp,
    waker: Waker,
    action: WakerAction,
) -> CollectView {
    let known = task_found(st.tasks, waker.task_iid);
    let ti = task_index(st.tasks, waker.task_iid);
    let counted = known && st.tasks[ti].greatest_wid.0 < u64::MAX;
    let wid = if counted {
        WakeId((st.tasks[ti].greatest_wid.0 + 1) as u64)
    } else {
        WakeId(0)
    };
    let t1 = if counted {
        st.tasks.update(ti, (TaskRecordsView { greatest_wid: wid, ..st.tasks[ti] }))
    } else {
        st.tasks
    };
    let t2 = tasks_with_record(
        t1,
        waker.task_iid,
        Record { timestamp: ts, data: Data::WakerWoken { woken_by: waker.context, action, wid } },
    );
    let wake_record = Record {
        timestamp: ts,
        data: Data::WakerWake { woken: waker.task_iid, action, wid },
    };
    match waker.context {
        Some(waking_iid) => (CollectView {
            tasks: tasks_with_record(t2, waking_iid, wake_record),
            ..st
        }),
        None => match seq_idx {
            Some(q) => (CollectView {
                tasks: t2,
                sequences: st.sequences.update(
                    q,
                    seq_entry_with_record(st.sequences[q], wake_record),
                ),
            }),
            None => (CollectView { tasks: t2, ..st }),
        },
    }
}

/// The state after one record fans out to the timelines it concerns.
///
/// Lifecycle records land on their own task, with a spawn synthesized on
/// the discovered context task when a task is created; wakes fan out as
/// `fan_out_wake_state` says; records of tasks never discovered, and span
/// or generic event records, are dropped.
pub open spec fn fan_out_data(
    st: CollectView,
    seq_idx: Option<int>,
    ts: AbsTimestamp,
    data: RecordDataView,
) -> CollectView {
    match data {
        RecordDataView::TaskNew { iid } => {
            if task_found(st.tasks, iid) {
                let ti = task_index(st.tasks, iid);
                let t1 = match st.tasks[ti].task.context {
                    Some(ctx) => tasks_with_record(
                        st.tasks,
                        ctx,
                        Record {
                            timestamp: ts,
                            data: Data::Spawn { spawned_iid: iid, by_iid: ctx },
                        },
                    ),
                    None => st.tasks,
                };
                CollectView {
                    tasks: tasks_with_record(
                        t1,
                        iid,
                        Record { timestamp: ts, data: Data::TaskNew { iid } },
                    ),
                    ..st
                }
            } else {
                st
            }
        },
        RecordDataView::TaskPollStart { iid } => fan_out_to_task(
            st,
            iid,
            Record { timestamp: ts, data: Data::TaskPollStart { iid } },
        ),
        RecordDataView::TaskPollEnd { iid } => fan_out_to_task(
            st,
            iid,
            Record { timestamp: ts, data: Data::TaskPollEnd { iid } },
        ),
        RecordDataView::TaskDrop { iid } => fan_out_to_task(
            st,
            iid,
            Record { timestamp: ts, data: Data::TaskDrop { iid } },
        ),
        RecordDataView::WakerWake { waker } => fan_out_wake_state(
            st,
            seq_idx,
            ts,
            waker,
            WakerAction::Consume,
        ),
        RecordDataView::WakerWakeByRef { waker } => fan_out_wake_state(
            st,
            seq_idx,
            ts,
            waker,
            WakerAction::ByRef,
        ),
        RecordDataView::WakerClone { waker } => fan_out_to_task(
            st,
            waker.task_iid,
            Record { timestamp: ts, data: Data::WakerClone { waker } },
        ),
        RecordDataView::WakerDrop { waker } => fan_out_to_task(
            st,
            waker.task_iid,
            Record { timestamp: ts, data: Data::WakerDrop { waker } },
        ),
        _ => st,
    }
}

/// The absolute moment a chunk timestamp denotes over a base time,
/// saturating at the largest representable moment.
pub open spec fn abs_saturating(base: AbsTimestampSecs, ct: ChunkTimestamp) -> AbsTimestamp {
    AbsTimestamp {
        secs: if base.secs + ct.micros / 1_000_000 <= u64::MAX {
            (base.secs + ct.micros / 1_000_000) as u64
        } else {
            u64::MAX
        },
        subsec_micros: (ct.micros % 1_000_000) as u32,
    }
}

/// The state after the records of one sequence chunk fan out, in order.
pub open spec fn fan_out_records(
    st: CollectView,
    seq_idx: Option<int>,
    base: AbsTimestampSecs,
    records: Seq<RecordView>,
) -> CollectView
    decreases records.len(),
{
    if records.len() == 0 {
        st
    } else {
        let prev = fan_out_records(st, seq_idx, base, records.drop_last());
        let rec = records.last();
        fan_out_data(prev, seq_idx, abs_saturating(base, rec.meta.timestamp), rec.data)
    }
}

/// The state after one sequence chunk fans out: its records address the
/// sequence entry of its producer.
pub open spec fn fan_out_seq_chunk(st: CollectView, base: AbsTimestampSecs, sc: SeqChunkView) -> CollectView {
    let seq_idx = if seq_found(st.sequences, sc.header.seq_id) {
        Some(seq_index(st.sequences, sc.header.seq_id))
    } else {
        None
    };
    fan_out_records(st, seq_idx, base, sc.records)
}

/// The state after the sequence chunks of one chunk fan out, in order.
pub open spec fn fan_out_seq_chunks(st: CollectView, base: AbsTimestampSecs, scs: Seq<SeqChunkView>) -> CollectView
    decreases scs.len(),
{
    if scs.len() == 0 {
        st
    } else {
        fan_out_seq_chunk(fan_out_seq_chunks(st, base, scs.drop_last()), base, scs.last())
    }
}

/// The payload of a loaded chunk.
pub open spec fn loaded_chunk(cl: ChunkLoader) -> ChunkView {
    match cl.state {
        ChunkLoaderState::Chunk(c) => c@,
        _ => arbitrary(),
    }
}

/// The state after one chunk's records fan out; a chunk not loaded
/// contributes nothing.
pub open spec fn fan_out_chunk(st: CollectView, cl: ChunkLoader) -> CollectView {
    if cl.state is Chunk {
        let c = loaded_chunk(cl);
        fan_out_seq_chunks(st, c.header.interval.base_time, c.seq_chunks)
    } else {
        st
    }
}

/// The state after every chunk's records fan out, in order.
pub open spec fn fan_out_chunks(st: CollectView, chunks: Seq<ChunkLoader>) -> CollectView
    decreases chunks.len(),
{
    if chunks.len() == 0 {
        st
    } else {
        fan_out_chunk(fan_out_chunks(st, chunks.drop_last()), chunks.last())
    }
}

/// One object seen during discovery: a task object not yet known opens a
/// timeline under the next dynamic id, up to the discovery cap.
pub open spec fn discover_object(st: CollectView, o: ObjectView, start: AbsTimestamp) -> CollectView {
    match o {
        ObjectView::Task(t) => {
            if st.tasks.len() < 1_000_000_000 && !task_found(st.tasks, t.iid) {
                CollectView {
                    tasks: st.tasks.push(
                        fresh_task_entry(t, DynamicId((st.tasks.len() + 1) as u64), start),
                    ),
                    ..st
                }
            } else {
                st
            }
        },
        _ => st,
    }
}

/// The state after the objects of one sequence chunk are discovered, in
/// order.
pub open spec fn discover_objects(st: CollectView, objects: Seq<ObjectView>, start: AbsTimestamp) -> CollectView
    decreases objects.len(),
{
    if objects.len() == 0 {
        st
    } else {
        discover_object(discover_objects(st, objects.drop_last(), start), objects.last(), start)
    }
}

/// One sequence chunk during discovery: a sequence entry on first sight
/// of its producer, then its task objects.
pub open spec fn discover_seq_chunk(st: CollectView, sc: SeqChunkView, start: AbsTimestamp) -> CollectView {
    let st1 = if seq_found(st.sequences, sc.header.seq_id) {
        st
    } else {
        CollectView { sequences: st.sequences.push(fresh_seq_entry(sc.header)), ..st }
    };
    discover_objects(st1, sc.objects, start)
}

/// The state after the sequence chunks of one chunk are discovered, in
/// order.
pub open spec fn discover_seq_chunks(st: CollectView, scs: Seq<SeqChunkView>, start: AbsTimestamp) -> CollectView
    decreases scs.len(),
{
    if scs.len() == 0 {
        st
    } else {
        discover_seq_chunk(discover_seq_chunks(st, scs.drop_last(), start), scs.last(), start)
    }
}

/// One chunk during discovery; a chunk not loaded contributes nothing.
pub open spec fn discover_chunk(st: CollectView, cl: ChunkLoader, start: AbsTimestamp) -> CollectView {
    if cl.state is Chunk {
        discover_seq_chunks(st, loaded_chunk(cl).seq_chunks, start)
    } else {
        st
    }
}

/// The state after every chunk is discovered, in order.
pub open spec fn discover_chunks(st: CollectView, chunks: Seq<ChunkLoader>, start: AbsTimestamp) -> CollectView
    decreases chunks.len(),
{
    if chunks.len() == 0 {
        st
    } else {
        discover_chunk(discover_chunks(st, chunks.drop_last(), start), chunks.last(), start)
    }
}

/// The position of the first loaded chunk; the number of chunks when none
/// is loaded.
pub open spec fn first_loaded_index(chunks: Seq<ChunkLoader>) -> int
    decreases chunks.len(),
{
    if chunks.len() == 0 {
        0
    } else if chunks[0].state is Chunk {
        0
    } else {
        1 + first_loaded_index(chunks.drop_first())
    }
}

/// The moment every discovered timeline begins at: the first loaded
/// chunk's smallest record timestamp, as an absolute moment.
pub open spec fn collect_start(chunks: Seq<ChunkLoader>) -> AbsTimestamp {
    let c = loaded_chunk(chunks[first_loaded_index(chunks)]);
    abs_saturating(c.header.interval.base_time, c.header.earliest_timestamp)
}

/// The collected state of a recording: every task and sequence discovered
/// across the loaded chunks, then every record fanned out to the timelines
/// it concerns, in chunk, sequence-chunk and record order.
pub open spec fn collect_state(chunks: Seq<ChunkLoader>) -> CollectView {
    fan_out_chunks(discover_chunks(empty_collect(), chunks, collect_start(chunks)), chunks)
}

/// The relation between an emitted timeline and its collected form: the
/// same entry, with its records ordered by time and otherwise preserved.
pub open spec fn sorted_timeline_of(e: TaskRecordsView, s: TaskRecordsView) -> bool {
    &&& e == (TaskRecordsView { records: e.records, ..s })
    &&& records_sorted(e.records)
    &&& e.records.to_multiset() == s.records.to_multiset()
}

/// A position with no earlier match is what `task_index` finds: the first
/// matching timeline, or the length when none matches.
proof fn lemma_task_index_at(tasks: Seq<TaskRecordsView>, iid: InstrumentationId, i: int)
    requires
        0 <= i <= tasks.len(),
        forall|j: int| 0 <= j < i ==> (#[trigger] tasks[j]).task.iid != iid,
        i < tasks.len() ==> tasks[i].task.iid == iid,
    ensures
        i < tasks.len() ==> task_found(tasks, iid) && task_index(tasks, iid) == i,
        i == tasks.len() ==> !task_found(tasks, iid),
    decreases i + 1,
{
    if i == 0 {
        if i < tasks.len() {
            assert(task_found(tasks, iid));
        } else {
            assert(tasks.len() == 0);
            assert(!task_found(tasks, iid));
        }
    } else {
        let rest = tasks.drop_first();
        assert(forall|j: int| 0 <= j < i - 1 ==> (#[trigger] rest[j]).task.iid != iid) by {
            assert(forall|j: int| 0 <= j < rest.len() ==> rest[j] == #[trigger] tasks[j + 1]);
        }
        assert(i - 1 < rest.len() ==> rest[i - 1].task.iid == iid);
        lemma_task_index_at(rest, iid, i - 1);
        assert(tasks[0].task.iid != iid);
        if i < tasks.len() {
            assert(task_found(tasks, iid)) by {
                assert(tasks[i].task.iid == iid);
            }
        } else {
            if task_found(tasks, iid) {
                let j = choose|j: int| 0 <= j < tasks.len() && (#[trigger] tasks[j]).task.iid == iid;
                assert(j >= 1);
                assert(rest[j - 1] == tasks[j]);
                assert(task_found(rest, iid));
                assert(false);
            }
        }
    }
}

/// A position with no earlier match is what `seq_index` finds: the first
/// matching sequence entry, or the length when none matches.
proof fn lemma_seq_index_at(sequences: Seq<SeqRecordsView>, seq_id: SeqId, i: int)
    requires
        0 <= i <= sequences.len(),
        forall|j: int| 0 <= j < i ==> (#[trigger] sequences[j]).header.seq_id != seq_id,
        i < sequences.len() ==> sequences[i].header.seq_id == seq_id,
    ensures
        i < sequences.len() ==> seq_found(sequences, seq_id) && seq_index(sequences, seq_id) == i,
        i == sequences.len() ==> !seq_found(sequences, seq_id),
    decreases i + 1,
{
    if i == 0 {
        if i < sequences.len() {
            assert(seq_found(sequences, seq_id));
        } else {
            assert(sequences.len() == 0);
            assert(!seq_found(sequences, seq_id));
        }
    } else {
        let rest = sequences.drop_first();
        assert(forall|j: int| 0 <= j < i - 1 ==> (#[trigger] rest[j]).header.seq_id != seq_id)
            by {
            assert(forall|j: int|
                0 <= j < rest.len() ==> rest[j] == #[trigger] sequences[j + 1]);
        }
        assert(i - 1 < rest.len() ==> rest[i - 1].header.seq_id == seq_id);
        lemma_seq_index_at(rest, seq_id, i - 1);
        assert(sequences[0].header.seq_id != seq_id);
        if i < sequences.len() {
            assert(seq_found(sequences, seq_id)) by {
                assert(sequences[i].header.seq_id == seq_id);
            }
        } else {
            if seq_found(sequences, seq_id) {
                let j = choose|j: int|
                    0 <= j < sequences.len() && (#[trigger] sequences[j]).header.seq_id == seq_id;
                assert(j >= 1);
                assert(rest[j - 1] == sequences[j]);
                assert(seq_found(rest, seq_id));
                assert(false);
            }
        }
    }
}

/// A loaded chunk with no loaded chunk before it is the one
/// `first_loaded_index` finds.
proof fn lemma_first_loaded_at(chunks: Seq<ChunkLoader>, i: int)
    requires
        0 <= i < chunks.len(),
        forall|j: int| 0 <= j < i ==> !((#[trigger] chunks[j]).state is Chunk),
        chunks[i].state is Chunk,
    ensures
        first_loaded_index(chunks) == i,
    decreases i + 1,
{
    if i == 0 {
    } else {
        let rest = chunks.drop_first();
        assert(forall|j: int| 0 <= j < i - 1 ==> !((#[trigger] rest[j]).state is Chunk)) by {
            assert(forall|j: int| 0 <= j < rest.len() ==> rest[j] == #[trigger] chunks[j + 1]);
        }
        assert(rest[i - 1] == chunks[i]);
        lemma_first_loaded_at(rest, i - 1);
        assert(!(chunks[0].state is Chunk));
    }
}

/// Find the first task entry for an instrumentation id.
fn find_task(tasks: &Vec<TaskRecords>, iid: InstrumentationId) -> (r: Option<usize>)
    ensures
        match r {
            Some(i) => i < tasks@.len() && tasks@[i as int].task.iid == iid && (forall|j: int|
                0 <= j < i ==> (#[trigger] tasks@[j]).task.iid != iid),
            None => forall|j: int|
                0 <= j < tasks@.len() ==> (#[trigger] tasks@[j]).task.iid != iid,
        },
{
    let mut i: usize = 0;
    while i < tasks.len()
        invariant
            i <= tasks@.len(),
            forall|j: int| 0 <= j < i ==> (#[trigger] tasks@[j]).task.iid != iid,
        decreases tasks@.len() - i,
    {
        if tasks[i].task.iid.0 == iid.0 {
            return Some(i);
        }
        i = i + 1;
    }
    None
}

/// Add a record to the task at an index, leaving every other entry and the
/// task's identity untouched.
fn add_record_to_task(tasks: &mut Vec<TaskRecords>, idx: usize, record: Record)
    requires
        idx < old(tasks)@.len(),
    ensures
        final(tasks)@.len() == old(tasks)@.len(),
        forall|j: int|
            0 <= j < final(tasks)@.len() && j != idx ==> final(tasks)@[j] == #[trigger] old(
                tasks,
            )@[j],
        final(tasks)@[idx as int].records@ == old(tasks)@[idx as int].records@.push(record),
        final(tasks)@[idx as int].task == old(tasks)@[idx as int].task,
        final(tasks)@[idx as int].did == old(tasks)@[idx as int].did,
        final(tasks)@[idx as int].greatest_wid == old(tasks)@[idx as int].greatest_wid,
        final(tasks)@[idx as int]@ == entry_with_record(old(tasks)@[idx as int]@, record),
        task_views(final(tasks)@) == task_views(old(tasks)@).update(
            idx as int,
            entry_with_record(old(tasks)@[idx as int]@, record),
        ),
{
    let mut entry = tasks.remove(idx);
    entry.add_record(record);
    tasks.insert(idx, entry);
    proof {
        assert(forall|j: int|
            0 <= j < tasks@.len() && j != idx ==> tasks@[j] == #[trigger] old(tasks)@[j]);
        assert(tasks@[idx as int]@ == entry_with_record(old(tasks)@[idx as int]@, record));
        assert(task_views(tasks@) =~= task_views(old(tasks)@).update(
            idx as int,
            entry_with_record(old(tasks)@[idx as int]@, record),
        ));
    }
}

/// Advance the wake counter of the task at an index and return the new
/// value, leaving everything else untouched.
fn bump_wake_counter(tasks: &mut Vec<TaskRecords>, idx: usize) -> (r: WakeId)
    requires
        idx < old(tasks)@.len(),
        old(tasks)@[idx as int].greatest_wid.0 < u64::MAX,
    ensures
        final(tasks)@.len() == old(tasks)@.len(),
        forall|j: int|
            0 <= j < final(tasks)@.len() && j != idx ==> final(tasks)@[j] == #[trigger] old(
                tasks,
            )@[j],
        final(tasks)@[idx as int].greatest_wid.0 == old(tasks)@[idx as int].greatest_wid.0 + 1,
        r == final(tasks)@[idx as int].greatest_wid,
        final(tasks)@[idx as int].records == old(tasks)@[idx as int].records,
        final(tasks)@[idx as int].task == old(tasks)@[idx as int].task,
        final(tasks)@[idx as int].did == old(tasks)@[idx as int].did,
        task_views(final(tasks)@) == task_views(old(tasks)@).update(
            idx as int,
            (TaskRecordsView {
                greatest_wid: WakeId((old(tasks)@[idx as int]@.greatest_wid.0 + 1) as u64),
                ..old(tasks)@[idx as int]@
            }),
        ),
{
    let mut entry = tasks.remove(idx);
    let wid = entry.greatest_wid.inc();
    tasks.insert(idx, entry);
    proof {
        assert(forall|j: int|
            0 <= j < tasks@.len() && j != idx ==> tasks@[j] == #[trigger] old(tasks)@[j]);
        assert(tasks@[idx as int]@ == (TaskRecordsView {
            greatest_wid: WakeId((old(tasks)@[idx as int]@.greatest_wid.0 + 1) as u64),
            ..old(tasks)@[idx as int]@
        }));
        assert(task_views(tasks@) =~= task_views(old(tasks)@).update(
            idx as int,
            (TaskRecordsView {
                greatest_wid: WakeId((old(tasks)@[idx as int]@.greatest_wid.0 + 1) as u64),
                ..old(tasks)@[idx as int]@
            }),
        ));
    }
    wid
}

/// Whether every task entry carries the dynamic id of its position, in
/// first-sight order, under a distinct instrumentation id.
pub open spec fn tasks_well_indexed(tasks: Seq<TaskRecords>) -> bool {
    &&& forall|i: int| 0 <= i < tasks.len() ==> (#[trigger] tasks[i]).did.0 == i + 1
    &&& forall|i: int, j: int|
        0 <= i < j < tasks.len() ==> (#[trigger] tasks[i]).task.iid != (
        #[trigger] tasks[j]).task.iid
}

/// Whether a sequence of records is ordered by time.
pub open spec fn records_sorted(records: Seq<Record>) -> bool {
    forall|i: int, j: int| 0 <= i < j < records.len() ==> record_le(records[i], records[j])
}

/// Sort a task's records by time, preserving them as a multiset.
#[verifier::loop_isolation(false)]
fn sort_records(records: &mut Vec<Record>)
    ensures
        records_sorted(final(records)@),
        final(records)@.to_multiset() == old(records)@.to_multiset(),
{
    let ghost orig = records@;
    let mut sorted: Vec<Record> = Vec::new();
    proof {
        broadcast use vstd::seq_lib::group_to_multiset_ensures;

        assert(sorted@.to_multiset().add(records@.to_multiset()) =~= orig.to_multiset());
    }
    while records.len() > 0
        invariant
            records_sorted(sorted@),
            sorted@.to_multiset().add(records@.to_multiset()) == orig.to_multiset(),
            forall|a: int, b: int|
                0 <= a < sorted@.len() && 0 <= b < records@.len() ==> record_le(
                    #[trigger] sorted@[a],
                    #[trigger] records@[b],
                ),
        decreases records@.len(),
    {
        proof {
            broadcast use vstd::seq_lib::group_to_multiset_ensures;

        }
        // take the earliest remaining record
        let mut best: usize = 0;
        let mut i: usize = 1;
        while i < records.len()
            invariant
                best < records@.len(),
                i <= records@.len(),
                forall|j: int|
                    0 <= j < i ==> record_le(records@[best as int], #[trigger] records@[j]),
            decreases records@.len() - i,
        {
            let ri = &records[i];
            let rb = &records[best];
            if ri.timestamp.secs < rb.timestamp.secs || (ri.timestamp.secs == rb.timestamp.secs
                && ri.timestamp.subsec_micros < rb.timestamp.subsec_micros) {
                proof {
                    assert(record_le(records@[i as int], records@[best as int]));
                    assert(forall|j: int|
                        0 <= j < i ==> record_le(records@[i as int], #[trigger] records@[j]));
                }
                best = i;
            }
            i = i + 1;
        }
        let ghost before = records@;
        let next = records.remove(best);
        proof {
            assert(forall|j: int|
                0 <= j < before.len() ==> record_le(next, #[trigger] before[j]));
            assert(records@.to_multiset() =~= before.to_multiset().remove(next));
            assert forall|j: int| 0 <= j < records@.len() implies record_le(next,
                #[trigger] records@[j]) by {
                if j < best {
                    assert(records@[j] == before[j]);
                } else {
                    assert(records@[j] == before[j + 1]);
                }
            }
        }
        let ghost sorted_before = sorted@;
        sorted.push(next);
        proof {
            assert(sorted@.to_multiset() =~= sorted_before.to_multiset().insert(next));
            assert(sorted@.drop_last() =~= sorted_before);
            assert forall|a: int, b: int| 0 <= a < sorted@.len() && 0 <= b < records@.len()
                implies record_le(#[trigger] sorted@[a], #[trigger] records@[b]) by {
                if a < sorted_before.len() {
                    assert(sorted@[a] == sorted_before[a]);
                    assert(record_le(sorted_before[a], records@[b]));
                } else {
                    assert(sorted@[a] == next);
                }
            }
            assert forall|a: int, b: int| 0 <= a < b < sorted@.len() implies record_le(
                #[trigger] sorted@[a], #[trigger] sorted@[b]) by {
                if b < sorted_before.len() {
                } else {
                    assert(sorted@[b] == next);
                    assert(before.to_multiset().contains(next));
                    if a < sorted_before.len() {
                        assert(sorted@[a] == sorted_before[a]);
                        assert(record_le(sorted_before[a], before[best as int]));
                    }
                }
            }
            assert(sorted@.to_multiset().add(records@.to_multiset()) =~= orig.to_multiset());
        }
    }
    proof {
        broadcast use vstd::seq_lib::group_to_multiset_ensures;

        assert(records@ =~= Seq::<Record>::empty());
        assert(records@.to_multiset() =~= Multiset::<Record>::empty());
        assert(sorted@.to_multiset() =~= orig.to_multiset());
    }
    *records = sorted;
}


/// Copy a task kind.
fn clone_task_kind(kind: &crate::common::TaskKind) -> (r: crate::common::TaskKind)
    ensures
        r@ == kind@,
{
    match kind {
        crate::common::TaskKind::Task => crate::common::TaskKind::Task,
        crate::common::TaskKind::Local => crate::common::TaskKind::Local,
        crate::common::TaskKind::Blocking => crate::common::TaskKind::Blocking,
        crate::common::TaskKind::BlockOn => crate::common::TaskKind::BlockOn,
        crate::common::TaskKind::Other(name) => crate::common::TaskKind::Other(name.clone()),
    }
}

/// Copy a task.
fn clone_task(task: &Task) -> (r: Task)
    ensures
        r@ == task@,
        r.iid == task.iid,
        r.context == task.context,
{
    Task {
        iid: task.iid,
        callsite_id: task.callsite_id,
        task_id: task.task_id,
        task_name: task.task_name.clone(),
        task_kind: clone_task_kind(&task.task_kind),
        context: task.context,
    }
}

/// The absolute moment a chunk timestamp denotes over a base time, clamped
/// to the largest representable moment.
fn abs_timestamp_saturating(
    base: crate::timestamp::AbsTimestampSecs,
    ct: crate::timestamp::ChunkTimestamp,
) -> (r: AbsTimestamp)
    ensures
        r.is_valid(),
        r == abs_saturating(base, ct),
        base.secs + ct.micros / 1_000_000 <= u64::MAX ==> r == ct.to_abs_spec(base),
{
    let extra = ct.micros / 1_000_000;
    let secs = if base.secs <= u64::MAX - extra {
        base.secs + extra
    } else {
        u64::MAX
    };
    AbsTimestamp { secs, subsec_micros: (ct.micros % 1_000_000) as u32 }
}

/// The first sequence entry for a sequence id.
fn find_sequence(sequences: &Vec<SeqRecords>, seq_id: crate::chunked::sequence::SeqId) -> (r:
    Option<usize>)
    ensures
        match r {
            Some(i) => i < sequences@.len() && sequences@[i as int].header.seq_id == seq_id
                && (forall|j: int|
                0 <= j < i ==> (#[trigger] sequences@[j]).header.seq_id != seq_id),
            None => forall|j: int|
                0 <= j < sequences@.len() ==> (#[trigger] sequences@[j]).header.seq_id != seq_id,
        },
{
    let mut i: usize = 0;
    while i < sequences.len()
        invariant
            i <= sequences@.len(),
            forall|j: int| 0 <= j < i ==> (#[trigger] sequences@[j]).header.seq_id != seq_id,
        decreases sequences@.len() - i,
    {
        if sequences[i].header.seq_id.0 == seq_id.0 {
            return Some(i);
        }
        i = i + 1;
    }
    None
}

/// Add a record to the sequence at an index, leaving other entries
/// untouched.
fn add_record_to_sequence(sequences: &mut Vec<SeqRecords>, idx: usize, record: Record)
    requires
        idx < old(sequences)@.len(),
    ensures
        final(sequences)@.len() == old(sequences)@.len(),
        forall|j: int|
            0 <= j < final(sequences)@.len() && j != idx ==> final(sequences)@[j] == #[trigger] old(
                sequences,
            )@[j],
        final(sequences)@[idx as int].records@ == old(sequences)@[
            idx as int].records@.push(record),
        final(sequences)@[idx as int].header == old(sequences)@[idx as int].header,
        sequence_views(final(sequences)@) == sequence_views(old(sequences)@).update(
            idx as int,
            seq_entry_with_record(old(sequences)@[idx as int]@, record),
        ),
{
    let mut entry = sequences.remove(idx);
    entry.add_record(record);
    sequences.insert(idx, entry);
    proof {
        assert(forall|j: int|
            0 <= j < sequences@.len() && j != idx ==> sequences@[j] == #[trigger] old(
                sequences,
            )@[j]);
        assert(sequences@[idx as int]@ == seq_entry_with_record(
            old(sequences)@[idx as int]@,
            record,
        ));
        assert(sequence_views(sequences@) =~= sequence_views(old(sequences)@).update(
            idx as int,
            seq_entry_with_record(old(sequences)@[idx as int]@, record),
        ));
    }
}

/// Collect a recording's records into per-task timelines.
///
/// Tasks are discovered across all loaded chunks in first-sight order and
/// given compact dynamic ids starting at one. Each record is then fanned
/// out to the timelines it concerns: lifecycle records to their own task;
/// a wake to the woken task and, under a fresh wake counter of the woken
/// task, to the waking task's timeline or to its sequence when the waker
/// is anonymous; and a synthesized spawn record to the spawning task.
/// Every timeline is finally ordered by time. Discovery opens at most a
/// billion timelines, far below the flow-id bound of two to the
/// fifty-third; a task object seen past that cap opens no timeline.
#[verifier::rlimit(100)]
#[verifier::loop_isolation(false)]
pub fn collect_tasks(recording: &Recording) -> (r: Result<CollectedData, CollectError>)
    ensures
        match r {
            Ok(data) => {
                &&& exists|i: int|
                    0 <= i < recording.chunks@.len() && (#[trigger] recording.chunks@[i]).state
                        is Chunk
                &&& tasks_well_indexed(data.tasks@)
                &&& data.largest_did.0 == data.tasks@.len()
                &&& forall|i: int|
                    0 <= i < data.tasks@.len() ==> records_sorted(
                        (#[trigger] data.tasks@[i]).records@,
                    )
                &&& data.tasks@.len() == collect_state(recording.chunks@).tasks.len()
                &&& forall|i: int|
                    0 <= i < data.tasks@.len() ==> sorted_timeline_of(
                        (#[trigger] data.tasks@[i])@,
                        collect_state(recording.chunks@).tasks[i],
                    )
                &&& sequence_views(data.sequences@) == collect_state(recording.chunks@).sequences
            },
            Err(CollectError::NoChunks) => forall|i: int|
                0 <= i < recording.chunks@.len() ==> !((#[trigger] recording.chunks@[i]).state
                    is Chunk),
        },
{
    let ghost chunks = recording.chunks@;
    let ghost startv = collect_start(chunks);
    let mut tasks: Vec<TaskRecords> = Vec::new();
    let mut sequences: Vec<SeqRecords> = Vec::new();
    let mut earliest: Option<AbsTimestamp> = None;
    proof {
        assert(chunks.take(0) =~= Seq::<ChunkLoader>::empty());
        assert(task_views(tasks@) =~= Seq::<TaskRecordsView>::empty());
        assert(sequence_views(sequences@) =~= Seq::<SeqRecordsView>::empty());
        assert(collect_view_of(tasks@, sequences@) == discover_chunks(
            empty_collect(),
            chunks.take(0),
            startv,
        ));
    }
    // discovery: find every task object and sequence across loaded chunks
    let mut ci: usize = 0;
    while ci < recording.chunks.len()
        invariant
            ci <= chunks.len(),
            tasks_well_indexed(tasks@),
            tasks@.len() < u64::MAX,
            collect_view_of(tasks@, sequences@) == discover_chunks(
                empty_collect(),
                chunks.take(ci as int),
                startv,
            ),
            (earliest is None) == (forall|i: int|
                0 <= i < ci ==> !((#[trigger] chunks[i]).state is Chunk)),
            earliest matches Some(e) ==> e == startv && e.is_valid(),
        decreases chunks.len() - ci,
    {
        match &recording.chunks[ci].state {
            ChunkLoaderState::Chunk(chunk) => {
                let ghost st_c = discover_chunks(empty_collect(), chunks.take(ci as int), startv);
                let ghost cv = chunk@;
                proof {
                    assert(chunks[ci as int].state is Chunk);
                    assert(loaded_chunk(chunks[ci as int]) == cv);
                }
                let e = abs_timestamp_saturating(
                    chunk.header().interval.base_time,
                    chunk.header().earliest_timestamp,
                );
                if matches!(earliest, None) {
                    proof {
                        lemma_first_loaded_at(chunks, ci as int);
                        assert(e == collect_start(chunks));
                    }
                    earliest = Some(e);
                }
                let start = match &earliest {
                    Some(e2) => *e2,
                    None => e,
                };
                proof {
                    assert(start == startv);
                }
                let seq_chunks = chunk.seq_chunks();
                let ghost scs = cv.seq_chunks;
                let mut si: usize = 0;
                while si < seq_chunks.len()
                    invariant
                        si <= scs.len(),
                        seq_chunks@.len() == scs.len(),
                        tasks_well_indexed(tasks@),
                        tasks@.len() < u64::MAX,
                        collect_view_of(tasks@, sequences@) == discover_seq_chunks(
                            st_c,
                            scs.take(si as int),
                            startv,
                        ),
                    decreases scs.len() - si,
                {
                    let seq_chunk = &seq_chunks[si];
                    let ghost scv = scs[si as int];
                    let ghost st_sc_start = discover_seq_chunks(st_c, scs.take(si as int), startv);
                    let ghost pre_seqs = sequences@;
                    proof {
                        assert(scv == seq_chunk@);
                        assert(forall|j: int|
                            0 <= j < pre_seqs.len() ==> (#[trigger] sequence_views(pre_seqs)[j])
                                == pre_seqs[j]@);
                    }
                    match find_sequence(&sequences, seq_chunk.header.seq_id) {
                        None => {
                            proof {
                                lemma_seq_index_at(
                                    sequence_views(pre_seqs),
                                    seq_chunk.header.seq_id,
                                    pre_seqs.len() as int,
                                );
                            }
                            sequences.push(SeqRecords::new(seq_chunk.header));
                            proof {
                                assert(sequence_views(sequences@) =~= sequence_views(
                                    pre_seqs,
                                ).push(fresh_seq_entry(scv.header)));
                            }
                        },
                        Some(fi) => {
                            proof {
                                lemma_seq_index_at(
                                    sequence_views(pre_seqs),
                                    seq_chunk.header.seq_id,
                                    fi as int,
                                );
                            }
                        },
                    }
                    let ghost st_s1 = (if seq_found(st_sc_start.sequences, scv.header.seq_id) {
                        st_sc_start
                    } else {
                        CollectView {
                            sequences: st_sc_start.sequences.push(fresh_seq_entry(scv.header)),
                            ..st_sc_start
                        }
                    });
                    proof {
                        assert(collect_view_of(tasks@, sequences@) == st_s1);
                        assert(scv.objects.take(0) =~= Seq::<ObjectView>::empty());
                    }
                    let mut oi: usize = 0;
                    while oi < seq_chunk.objects.len()
                        invariant
                            oi <= scv.objects.len(),
                            seq_chunk.objects@.len() == scv.objects.len(),
                            tasks_well_indexed(tasks@),
                            tasks@.len() < u64::MAX,
                            collect_view_of(tasks@, sequences@) == discover_objects(
                                st_s1,
                                scv.objects.take(oi as int),
                                startv,
                            ),
                        decreases scv.objects.len() - oi,
                    {
                        match &seq_chunk.objects[oi] {
                            Object::Task(task) => {
                                proof {
                                    assert(scv.objects[oi as int] == ObjectView::Task(task@));
                                }
                                if tasks.len() < 1_000_000_000 {
                                    let ghost pre_tasks = tasks@;
                                    proof {
                                        assert(forall|j: int|
                                            0 <= j < pre_tasks.len() ==> (
                                            #[trigger] task_views(pre_tasks)[j]) == pre_tasks[j]@);
                                    }
                                    match find_task(&tasks, task.iid) {
                                        None => {
                                            proof {
                                                lemma_task_index_at(
                                                    task_views(pre_tasks),
                                                    task.iid,
                                                    pre_tasks.len() as int,
                                                );
                                            }
                                            let did = DynamicId(tasks.len() as u64 + 1);
                                            tasks.push(
                                                TaskRecords::new(clone_task(task), did, start),
                                            );
                                            proof {
                                                assert(tasks@.drop_last() =~= pre_tasks);
                                                assert(tasks_well_indexed(tasks@));
                                                assert(tasks@[pre_tasks.len() as int]@
                                                    == fresh_task_entry(
                                                    task@,
                                                    DynamicId((pre_tasks.len() + 1) as u64),
                                                    startv,
                                                ));
                                                assert(task_views(tasks@) =~= task_views(
                                                    pre_tasks,
                                                ).push(
                                                    fresh_task_entry(
                                                        task@,
                                                        DynamicId((pre_tasks.len() + 1) as u64),
                                                        startv,
                                                    ),
                                                ));
                                            }
                                        },
                                        Some(fi) => {
                                            proof {
                                                lemma_task_index_at(
                                                    task_views(pre_tasks),
                                                    task.iid,
                                                    fi as int,
                                                );
                                            }
                                        },
                                    }
                                }
                            },
                            Object::Span(_) => (),
                        }
                        proof {
                            assert(scv.objects.take(oi + 1).drop_last() =~= scv.objects.take(
                                oi as int,
                            ));
                            assert(scv.objects.take(oi + 1).last() == scv.objects[oi as int]);
                            assert(collect_view_of(tasks@, sequences@) == discover_objects(
                                st_s1,
                                scv.objects.take(oi + 1),
                                startv,
                            ));
                        }
                        oi = oi + 1;
                    }
                    proof {
                        assert(scv.objects.take(scv.objects.len() as int) =~= scv.objects);
                        assert(collect_view_of(tasks@, sequences@) == discover_seq_chunk(
                            st_sc_start,
                            scv,
                            startv,
                        ));
                        assert(scs.take(si + 1).drop_last() =~= scs.take(si as int));
                        assert(scs.take(si + 1).last() == scs[si as int]);
                        assert(collect_view_of(tasks@, sequences@) == discover_seq_chunks(
                            st_c,
                            scs.take(si + 1),
                            startv,
                        ));
                    }
                    si = si + 1;
                }
                proof {
                    assert(scs.take(scs.len() as int) =~= scs);
                    assert(collect_view_of(tasks@, sequences@) == discover_chunk(
                        st_c,
                        chunks[ci as int],
                        startv,
                    ));
                }
            },
            _ => (),
        }
        proof {
            assert(chunks.take(ci + 1).drop_last() =~= chunks.take(ci as int));
            assert(chunks.take(ci + 1).last() == chunks[ci as int]);
            assert(collect_view_of(tasks@, sequences@) == discover_chunks(
                empty_collect(),
                chunks.take(ci + 1),
                startv,
            ));
        }
        ci = ci + 1;
    }
    if matches!(earliest, None) {
        return Err(CollectError::NoChunks);
    }
    // fan-out: address every record to the timelines it concerns
    let ghost st_d = discover_chunks(empty_collect(), chunks, startv);
    proof {
        assert(chunks.take(chunks.len() as int) =~= chunks);
        assert(collect_view_of(tasks@, sequences@) == st_d);
    }
    let mut ci: usize = 0;
    while ci < recording.chunks.len()
        invariant
            ci <= chunks.len(),
            tasks_well_indexed(tasks@),
            collect_view_of(tasks@, sequences@) == fan_out_chunks(st_d, chunks.take(ci as int)),
        decreases chunks.len() - ci,
    {
        match &recording.chunks[ci].state {
            ChunkLoaderState::Chunk(chunk) => {
                let ghost st_fc = fan_out_chunks(st_d, chunks.take(ci as int));
                let ghost cv = chunk@;
                proof {
                    assert(chunks[ci as int].state is Chunk);
                    assert(loaded_chunk(chunks[ci as int]) == cv);
                }
                let base = chunk.header().interval.base_time;
                let seq_chunks = chunk.seq_chunks();
                let ghost scs = cv.seq_chunks;
                let mut si: usize = 0;
                while si < seq_chunks.len()
                    invariant
                        si <= scs.len(),
                        seq_chunks@.len() == scs.len(),
                        tasks_well_indexed(tasks@),
                        collect_view_of(tasks@, sequences@) == fan_out_seq_chunks(
                            st_fc,
                            base,
                            scs.take(si as int),
                        ),
                    decreases scs.len() - si,
                {
                    let seq_chunk = &seq_chunks[si];
                    let ghost scv = scs[si as int];
                    let ghost st_sc = fan_out_seq_chunks(st_fc, base, scs.take(si as int));
                    let ghost pre_seqs = sequences@;
                    proof {
                        assert(scv == seq_chunk@);
                        assert(forall|j: int|
                            0 <= j < pre_seqs.len() ==> (#[trigger] sequence_views(pre_seqs)[j])
                                == pre_seqs[j]@);
                    }
                    let seq_idx = find_sequence(&sequences, seq_chunk.header.seq_id);
                    let ghost sidx: Option<int> = (match seq_idx {
                        Some(q) => Some(q as int),
                        None => None::<int>,
                    });
                    proof {
                        match seq_idx {
                            Some(q) => {
                                lemma_seq_index_at(
                                    sequence_views(pre_seqs),
                                    scv.header.seq_id,
                                    q as int,
                                );
                            },
                            None => {
                                lemma_seq_index_at(
                                    sequence_views(pre_seqs),
                                    scv.header.seq_id,
                                    pre_seqs.len() as int,
                                );
                            },
                        }
                        assert(scv.records.take(0) =~= Seq::<RecordView>::empty());
                    }
                    let mut ri: usize = 0;
                    while ri < seq_chunk.records.len()
                        invariant
                            ri <= scv.records.len(),
                            seq_chunk.records@.len() == scv.records.len(),
                            tasks_well_indexed(tasks@),
                            match seq_idx {
                                Some(q) => q < sequences@.len(),
                                None => true,
                            },
                            collect_view_of(tasks@, sequences@) == fan_out_records(
                                st_sc,
                                sidx,
                                base,
                                scv.records.take(ri as int),
                            ),
                        decreases scv.records.len() - ri,
                    {
                        let record = &seq_chunk.records[ri];
                        let ts = abs_timestamp_saturating(base, record.meta.timestamp);
                        proof {
                            assert(scv.records[ri as int] == record@);
                            assert(ts == abs_saturating(base, record@.meta.timestamp));
                        }
                        fan_out_record(
                            &mut tasks,
                            &mut sequences,
                            seq_idx,
                            ts,
                            &record.data,
                        );
                        proof {
                            assert(scv.records.take(ri + 1).drop_last() =~= scv.records.take(
                                ri as int,
                            ));
                            assert(scv.records.take(ri + 1).last() == scv.records[ri as int]);
                            assert(collect_view_of(tasks@, sequences@) == fan_out_records(
                                st_sc,
                                sidx,
                                base,
                                scv.records.take(ri + 1),
                            ));
                        }
                        ri = ri + 1;
                    }
                    proof {
                        assert(scv.records.take(scv.records.len() as int) =~= scv.records);
                        assert(collect_view_of(tasks@, sequences@) == fan_out_seq_chunk(
                            st_sc,
                            base,
                            scv,
                        ));
                        assert(scs.take(si + 1).drop_last() =~= scs.take(si as int));
                        assert(scs.take(si + 1).last() == scs[si as int]);
                        assert(collect_view_of(tasks@, sequences@) == fan_out_seq_chunks(
                            st_fc,
                            base,
                            scs.take(si + 1),
                        ));
                    }
                    si = si + 1;
                }
                proof {
                    assert(scs.take(scs.len() as int) =~= scs);
                    assert(collect_view_of(tasks@, sequences@) == fan_out_chunk(
                        st_fc,
                        chunks[ci as int],
                    ));
                }
            },
            _ => (),
        }
        proof {
            assert(chunks.take(ci + 1).drop_last() =~= chunks.take(ci as int));
            assert(chunks.take(ci + 1).last() == chunks[ci as int]);
            assert(collect_view_of(tasks@, sequences@) == fan_out_chunks(
                st_d,
                chunks.take(ci + 1),
            ));
        }
        ci = ci + 1;
    }
    // order every timeline by time
    let ghost stf = collect_state(chunks);
    proof {
        assert(chunks.take(chunks.len() as int) =~= chunks);
        assert(collect_view_of(tasks@, sequences@) == stf);
        assert(forall|i: int| 0 <= i < tasks@.len() ==> (#[trigger] tasks@[i])@ == stf.tasks[i]);
    }
    let mut ti: usize = 0;
    while ti < tasks.len()
        invariant
            ti <= tasks@.len(),
            tasks@.len() == stf.tasks.len(),
            sequence_views(sequences@) == stf.sequences,
            tasks_well_indexed(tasks@),
            forall|i: int| ti <= i < tasks@.len() ==> (#[trigger] tasks@[i])@ == stf.tasks[i],
            forall|i: int|
                0 <= i < ti ==> sorted_timeline_of((#[trigger] tasks@[i])@, stf.tasks[i]),
            forall|i: int| 0 <= i < ti ==> records_sorted((#[trigger] tasks@[i]).records@),
        decreases tasks@.len() - ti,
    {
        let ghost pre_tasks = tasks@;
        let mut entry = tasks.remove(ti);
        sort_records(&mut entry.records);
        tasks.insert(ti, entry);
        proof {
            assert(forall|j: int|
                0 <= j < tasks@.len() && j != ti ==> tasks@[j] == #[trigger] pre_tasks[j]);
            assert(tasks@[ti as int].did == pre_tasks[ti as int].did);
            assert(tasks@[ti as int].task.iid == pre_tasks[ti as int].task.iid);
            assert(sorted_timeline_of(tasks@[ti as int]@, stf.tasks[ti as int]));
        }
        ti = ti + 1;
    }
    let largest_did = DynamicId(tasks.len() as u64);
    proof {
        assert(!(forall|i: int|
            0 <= i < chunks.len() ==> !((#[trigger] chunks[i]).state is Chunk)));
    }
    Ok(CollectedData { tasks, sequences, largest_did })
}

/// Land a record addressed to one task on its timeline, when the task was
/// discovered, and drop it otherwise.
fn fan_out_simple(tasks: &mut Vec<TaskRecords>, iid: InstrumentationId, record: Record)
    requires
        tasks_well_indexed(old(tasks)@),
    ensures
        tasks_well_indexed(final(tasks)@),
        final(tasks)@.len() == old(tasks)@.len(),
        task_views(final(tasks)@) == tasks_with_record(task_views(old(tasks)@), iid, record),
{
    let ghost pre = tasks@;
    proof {
        assert(forall|j: int| 0 <= j < pre.len() ==> (#[trigger] task_views(pre)[j]) == pre[j]@);
    }
    match find_task(tasks, iid) {
        Some(ti) => {
            proof {
                lemma_task_index_at(task_views(pre), iid, ti as int);
            }
            add_record_to_task(tasks, ti, record);
            proof {
                lemma_indexing_stable(pre, tasks@);
            }
        },
        None => {
            proof {
                lemma_task_index_at(task_views(pre), iid, pre.len() as int);
            }
        },
    }
}

/// Fan one record out to the timelines it concerns.
///
/// Lifecycle records go to their own task, with a spawn synthesized on the
/// spawning task when a task is created. A wake addresses the woken task
/// and, under the woken task's next wake counter, the waking task or the
/// owning sequence. Records of tasks never discovered, and span or generic
/// event records, are dropped.
#[verifier::loop_isolation(false)]
fn fan_out_record(
    tasks: &mut Vec<TaskRecords>,
    sequences: &mut Vec<SeqRecords>,
    seq_idx: Option<usize>,
    ts: AbsTimestamp,
    data: &RecordData,
)
    requires
        tasks_well_indexed(old(tasks)@),
        match seq_idx {
            Some(q) => q < old(sequences)@.len(),
            None => true,
        },
    ensures
        tasks_well_indexed(final(tasks)@),
        final(tasks)@.len() == old(tasks)@.len(),
        final(sequences)@.len() == old(sequences)@.len(),
        collect_view_of(final(tasks)@, final(sequences)@) == fan_out_data(
            collect_view_of(old(tasks)@, old(sequences)@),
            (match seq_idx {
                Some(q) => Some(q as int),
                None => None::<int>,
            }),
            ts,
            (*data)@,
        ),
{
    let ghost pre = tasks@;
    let ghost st0 = collect_view_of(tasks@, sequences@);
    proof {
        assert(forall|j: int| 0 <= j < pre.len() ==> (#[trigger] task_views(pre)[j]) == pre[j]@);
    }
    match data {
        RecordData::TaskNew { iid } => {
            match find_task(tasks, *iid) {
                Some(ti) => {
                    proof {
                        lemma_task_index_at(task_views(pre), *iid, ti as int);
                    }
                    // synthesize the spawn on the spawning task's timeline
                    let context = tasks[ti].task.context;
                    match context {
                        Some(ctx) => {
                            fan_out_simple(
                                tasks,
                                ctx,
                                Record {
                                    timestamp: ts,
                                    data: Data::Spawn { spawned_iid: *iid, by_iid: ctx },
                                },
                            );
                        },
                        None => (),
                    }
                    fan_out_simple(
                        tasks,
                        *iid,
                        Record { timestamp: ts, data: Data::TaskNew { iid: *iid } },
                    );
                },
                None => {
                    proof {
                        lemma_task_index_at(task_views(pre), *iid, pre.len() as int);
                    }
                },
            }
        },
        RecordData::TaskPollStart { iid } => {
            fan_out_simple(
                tasks,
                *iid,
                Record { timestamp: ts, data: Data::TaskPollStart { iid: *iid } },
            );
        },
        RecordData::TaskPollEnd { iid } => {
            fan_out_simple(
                tasks,
                *iid,
                Record { timestamp: ts, data: Data::TaskPollEnd { iid: *iid } },
            );
        },
        RecordData::TaskDrop { iid } => {
            fan_out_simple(
                tasks,
                *iid,
                Record { timestamp: ts, data: Data::TaskDrop { iid: *iid } },
            );
        },
        RecordData::WakerWake { waker } => {
            fan_out_wake(tasks, sequences, seq_idx, ts, waker, WakerAction::Consume);
        },
        RecordData::WakerWakeByRef { waker } => {
            fan_out_wake(tasks, sequences, seq_idx, ts, waker, WakerAction::ByRef);
        },
        RecordData::WakerClone { waker } => {
            fan_out_simple(
                tasks,
                waker.task_iid,
                Record { timestamp: ts, data: Data::WakerClone { waker: *waker } },
            );
        },
        RecordData::WakerDrop { waker } => {
            fan_out_simple(
                tasks,
                waker.task_iid,
                Record { timestamp: ts, data: Data::WakerDrop { waker: *waker } },
            );
        },
        _ => (),
    }
    proof {
        assert(collect_view_of(tasks@, sequences@) == fan_out_data(
            st0,
            (match seq_idx {
                Some(q) => Some(q as int),
                None => None::<int>,
            }),
            ts,
            (*data)@,
        ));
    }
}

/// Fan a wake out to the woken task and to where the wake came from.
#[verifier::loop_isolation(false)]
fn fan_out_wake(
    tasks: &mut Vec<TaskRecords>,
    sequences: &mut Vec<SeqRecords>,
    seq_idx: Option<usize>,
    ts: AbsTimestamp,
    waker: &Waker,
    action: WakerAction,
)
    requires
        tasks_well_indexed(old(tasks)@),
        match seq_idx {
            Some(q) => q < old(sequences)@.len(),
            None => true,
        },
    ensures
        tasks_well_indexed(final(tasks)@),
        final(tasks)@.len() == old(tasks)@.len(),
        final(sequences)@.len() == old(sequences)@.len(),
        collect_view_of(final(tasks)@, final(sequences)@) == fan_out_wake_state(
            collect_view_of(old(tasks)@, old(sequences)@),
            (match seq_idx {
                Some(q) => Some(q as int),
                None => None::<int>,
            }),
            ts,
            *waker,
            action,
        ),
{
    let ghost pre = tasks@;
    let ghost pre_s = sequences@;
    proof {
        assert(forall|j: int| 0 <= j < pre.len() ==> (#[trigger] task_views(pre)[j]) == pre[j]@);
    }
    // the wake counter is the woken task's; zero when it is unknown
    let wid = match find_task(tasks, waker.task_iid) {
        Some(ti) => {
            proof {
                lemma_task_index_at(task_views(pre), waker.task_iid, ti as int);
            }
            if tasks[ti].greatest_wid.0 < u64::MAX {
                let wid = bump_wake_counter(tasks, ti);
                proof {
                    lemma_indexing_stable(pre, tasks@);
                }
                wid
            } else {
                WakeId::zero()
            }
        },
        None => {
            proof {
                lemma_task_index_at(task_views(pre), waker.task_iid, pre.len() as int);
            }
            WakeId::zero()
        },
    };
    fan_out_simple(
        tasks,
        waker.task_iid,
        Record { timestamp: ts, data: Data::WakerWoken { woken_by: waker.context, action, wid } },
    );
    let wake_record = Record {
        timestamp: ts,
        data: Data::WakerWake { woken: waker.task_iid, action, wid },
    };
    match waker.context {
        Some(waking_iid) => {
            fan_out_simple(tasks, waking_iid, wake_record);
        },
        None => {
            match seq_idx {
                Some(q) => {
                    add_record_to_sequence(sequences, q, wake_record);
                },
                None => (),
            }
        },
    }
    proof {
        assert(collect_view_of(tasks@, sequences@) == fan_out_wake_state(
            collect_view_of(pre, pre_s),
            (match seq_idx {
                Some(q) => Some(q as int),
                None => None::<int>,
            }),
            ts,
            *waker,
            action,
        ));
    }
}

/// Task indexing survives record additions: the helpers leave every
/// entry's dynamic id and task identity in place.
proof fn lemma_indexing_stable(pre: Seq<TaskRecords>, post: Seq<TaskRecords>)
    requires
        tasks_well_indexed(pre),
        post.len() == pre.len(),
        forall|i: int|
            0 <= i < post.len() ==> (#[trigger] post[i]).did == pre[i].did && post[i].task.iid
                == pre[i].task.iid,
    ensures
        tasks_well_indexed(post),
{
}

} // verus!
