//! Records and referenced objects of a chunked recording.
//!
//! A record is a single timestamped event. Records refer to tasks and spans
//! by instrumentation id; the referred objects are embedded once per
//! sequence chunk so that records stay small.

use vstd::prelude::*;

use crate::codec::{
    dec_event, dec_iid, dec_span, dec_task, dec_waker, decode_event, decode_iid,
    decode_span, decode_task, decode_waker, enc_event, enc_iid, enc_span, enc_task, enc_waker,
    lemma_event_round_trip, lemma_iid_round_trip, lemma_span_round_trip, lemma_task_round_trip,
    lemma_waker_round_trip, wf_event, wf_span, wf_task,
};
use crate::common::{EventView, InstrumentationId, SpanView, TaskView, Waker};
use crate::timestamp::ChunkTimestamp;
use crate::wire::{
    dec_u32, dec_u64, decode_u32, decode_u64, encode_u64, lemma_varint_round_trip, varint_enc,
    DecodeFailure, SpecDec,
};

verus! {

/// Metadata for a [`Record`].
#[derive(Debug, Clone, Copy, PartialEq, Eq, Structural)]
pub struct Meta {
    /// The timestamp that the record occurs at.
    pub timestamp: ChunkTimestamp,
}

/// The data for a discrete recorded event.
#[derive(Debug, Clone, PartialEq)]
pub enum RecordData {
    /// A span was created.
    SpanNew {
        /// The span's instrumentation id.
        iid: InstrumentationId,
    },
    /// A span was entered.
    SpanEnter {
        /// The span's instrumentation id.
        iid: InstrumentationId,
    },
    /// A span was exited.
    SpanExit {
        /// The span's instrumentation id.
        iid: InstrumentationId,
    },
    /// A span was closed.
    SpanClose {
        /// The span's instrumentation id.
        iid: InstrumentationId,
    },
    /// A point-in-time event was emitted.
    Event {
        /// The event.
        event: crate::common::Event,
    },
    /// A task was created.
    TaskNew {
        /// The task's instrumentation id.
        iid: InstrumentationId,
    },
    /// A task began being polled.
    TaskPollStart {
        /// The task's instrumentation id.
        iid: InstrumentationId,
    },
    /// A task finished being polled.
    TaskPollEnd {
        /// The task's instrumentation id.
        iid: InstrumentationId,
    },
    /// A task was dropped.
    TaskDrop {
        /// The task's instrumentation id.
        iid: InstrumentationId,
    },
    /// A waker was invoked, consuming it.
    WakerWake {
        /// The waker's subject.
        waker: Waker,
    },
    /// A waker was invoked by reference.
    WakerWakeByRef {
        /// The waker's subject.
        waker: Waker,
    },
    /// A waker was cloned.
    WakerClone {
        /// The waker's subject.
        waker: Waker,
    },
    /// A waker was dropped.
    WakerDrop {
        /// The waker's subject.
        waker: Waker,
    },
}

/// The mathematical value of record data.
pub enum RecordDataView {
    /// A span was created.
    SpanNew { iid: InstrumentationId },
    /// A span was entered.
    SpanEnter { iid: InstrumentationId },
    /// A span was exited.
    SpanExit { iid: InstrumentationId },
    /// A span was closed.
    SpanClose { iid: InstrumentationId },
    /// A point-in-time event was emitted.
    Event { event: EventView },
    /// A task was created.
    TaskNew { iid: InstrumentationId },
    /// A task began being polled.
    TaskPollStart { iid: InstrumentationId },
    /// A task finished being polled.
    TaskPollEnd { iid: InstrumentationId },
    /// A task was dropped.
    TaskDrop { iid: InstrumentationId },
    /// A waker was invoked, consuming it.
    WakerWake { waker: Waker },
    /// A waker was invoked by reference.
    WakerWakeByRef { waker: Waker },
    /// A waker was cloned.
    WakerClone { waker: Waker },
    /// A waker was dropped.
    WakerDrop { waker: Waker },
}

impl View for RecordData {
    type V = RecordDataView;

    open spec fn view(&self) -> RecordDataView {
        match self {
            RecordData::SpanNew { iid } => RecordDataView::SpanNew { iid: *iid },
            RecordData::SpanEnter { iid } => RecordDataView::SpanEnter { iid: *iid },
            RecordData::SpanExit { iid } => RecordDataView::SpanExit { iid: *iid },
            RecordData::SpanClose { iid } => RecordDataView::SpanClose { iid: *iid },
            RecordData::Event { event } => RecordDataView::Event { event: event@ },
            RecordData::TaskNew { iid } => RecordDataView::TaskNew { iid: *iid },
            RecordData::TaskPollStart { iid } => RecordDataView::TaskPollStart { iid: *iid },
            RecordData::TaskPollEnd { iid } => RecordDataView::TaskPollEnd { iid: *iid },
            RecordData::TaskDrop { iid } => RecordDataView::TaskDrop { iid: *iid },
            RecordData::WakerWake { waker } => RecordDataView::WakerWake { waker: *waker },
            RecordData::WakerWakeByRef { waker } => RecordDataView::WakerWakeByRef {
                waker: *waker,
            },
            RecordData::WakerClone { waker } => RecordDataView::WakerClone { waker: *waker },
            RecordData::WakerDrop { waker } => RecordDataView::WakerDrop { waker: *waker },
        }
    }
}

/// A record containing timing metadata and record data.
#[derive(Debug, Clone, PartialEq)]
pub struct Record {
    /// The record's timing metadata.
    pub meta: Meta,
    /// The recorded event.
    pub data: RecordData,
}

/// The mathematical value of a record.
pub struct RecordView {
    /// The record's timing metadata.
    pub meta: Meta,
    /// The recorded event.
    pub data: RecordDataView,
}

impl View for Record {
    type V = RecordView;

    open spec fn view(&self) -> RecordView {
        RecordView { meta: self.meta, data: self.data@ }
    }
}

/// A tagged object referenced by records: a task or a span.
#[derive(Debug, Clone, PartialEq)]
pub enum Object {
    /// A span object.
    Span(crate::common::Span),
    /// A task object.
    Task(crate::common::Task),
}

/// The mathematical value of an object.
pub enum ObjectView {
    /// A span object.
    Span(SpanView),
    /// A task object.
    Task(TaskView),
}

impl View for Object {
    type V = ObjectView;

    open spec fn view(&self) -> ObjectView {
        match self {
            Object::Span(s) => ObjectView::Span(s@),
            Object::Task(t) => ObjectView::Task(t@),
        }
    }
}

impl Object {
    /// The instrumentation id the object is referred to by.
    pub open spec fn iid_spec(&self) -> InstrumentationId {
        match self {
            Object::Span(s) => s.iid,
            Object::Task(t) => t.iid,
        }
    }

    /// The instrumentation id the object is referred to by.
    pub fn iid(&self) -> (r: InstrumentationId)
        ensures
            r == self.iid_spec(),
    {
        match self {
            Object::Span(s) => s.iid,
            Object::Task(t) => t.iid,
        }
    }
}

impl ObjectView {
    /// The instrumentation id the object is referred to by.
    pub open spec fn iid(&self) -> InstrumentationId {
        match self {
            ObjectView::Span(s) => s.iid,
            ObjectView::Task(t) => t.iid,
        }
    }
}

/// The instrumentation ids referenced by record data.
///
/// Task and span lifecycle records reference their own id. A waker record
/// references the woken task, and the operating task when it is known and
/// distinct from the woken one. Generic events reference nothing.
pub open spec fn record_refs(d: RecordDataView) -> Seq<InstrumentationId> {
    match d {
        RecordDataView::SpanNew { iid } => seq![iid],
        RecordDataView::SpanEnter { iid } => seq![iid],
        RecordDataView::SpanExit { iid } => seq![iid],
        RecordDataView::SpanClose { iid } => seq![iid],
        RecordDataView::Event { .. } => Seq::<InstrumentationId>::empty(),
        RecordDataView::TaskNew { iid } => seq![iid],
        RecordDataView::TaskPollStart { iid } => seq![iid],
        RecordDataView::TaskPollEnd { iid } => seq![iid],
        RecordDataView::TaskDrop { iid } => seq![iid],
        RecordDataView::WakerWake { waker } => waker_refs(waker),
        RecordDataView::WakerWakeByRef { waker } => waker_refs(waker),
        RecordDataView::WakerClone { waker } => waker_refs(waker),
        RecordDataView::WakerDrop { waker } => waker_refs(waker),
    }
}

/// The instrumentation ids referenced by a waker record.
pub open spec fn waker_refs(waker: Waker) -> Seq<InstrumentationId> {
    match waker.context {
        Some(context) => if context == waker.task_iid {
            seq![waker.task_iid]
        } else {
            seq![waker.task_iid, context]
        },
        None => seq![waker.task_iid],
    }
}

/// Whether record data can be encoded.
pub open spec fn wf_record_data(d: RecordDataView) -> bool {
    match d {
        RecordDataView::Event { event } => wf_event(event),
        _ => true,
    }
}

/// The encoding of record data: the variant index, then the payload.
pub open spec fn enc_record_data(d: RecordDataView) -> Seq<u8> {
    match d {
        RecordDataView::SpanNew { iid } => varint_enc(0) + enc_iid(iid),
        RecordDataView::SpanEnter { iid } => varint_enc(1) + enc_iid(iid),
        RecordDataView::SpanExit { iid } => varint_enc(2) + enc_iid(iid),
        RecordDataView::SpanClose { iid } => varint_enc(3) + enc_iid(iid),
        RecordDataView::Event { event } => varint_enc(4) + enc_event(event),
        RecordDataView::TaskNew { iid } => varint_enc(5) + enc_iid(iid),
        RecordDataView::TaskPollStart { iid } => varint_enc(6) + enc_iid(iid),
        RecordDataView::TaskPollEnd { iid } => varint_enc(7) + enc_iid(iid),
        RecordDataView::TaskDrop { iid } => varint_enc(8) + enc_iid(iid),
        RecordDataView::WakerWake { waker } => varint_enc(9) + enc_waker(waker),
        RecordDataView::WakerWakeByRef { waker } => varint_enc(10) + enc_waker(waker),
        RecordDataView::WakerClone { waker } => varint_enc(11) + enc_waker(waker),
        RecordDataView::WakerDrop { waker } => varint_enc(12) + enc_waker(waker),
    }
}

/// Decode record data.
#[verifier::opaque]
pub open spec fn dec_record_data(s: Seq<u8>) -> SpecDec<RecordDataView> {
    match dec_u32(s) {
        SpecDec::Val(d, n) => {
            let t = s.skip(n);
            if d <= 3 || (5 <= d && d <= 8) {
                match dec_iid(t) {
                    SpecDec::Val(iid, m) => SpecDec::Val(iid_data(d, iid), n + m),
                    SpecDec::More => SpecDec::More,
                    SpecDec::Bad => SpecDec::Bad,
                }
            } else if d == 4 {
                match dec_event(t) {
                    SpecDec::Val(event, m) => SpecDec::Val(
                        RecordDataView::Event { event },
                        n + m,
                    ),
                    SpecDec::More => SpecDec::More,
                    SpecDec::Bad => SpecDec::Bad,
                }
            } else if d <= 12 {
                match dec_waker(t) {
                    SpecDec::Val(waker, m) => SpecDec::Val(waker_data(d, waker), n + m),
                    SpecDec::More => SpecDec::More,
                    SpecDec::Bad => SpecDec::Bad,
                }
            } else {
                SpecDec::Bad
            }
        },
        SpecDec::More => SpecDec::More,
        SpecDec::Bad => SpecDec::Bad,
    }
}

/// The record data variant for an id-carrying variant index.
pub open spec fn iid_data(d: nat, iid: InstrumentationId) -> RecordDataView {
    if d == 0 {
        RecordDataView::SpanNew { iid }
    } else if d == 1 {
        RecordDataView::SpanEnter { iid }
    } else if d == 2 {
        RecordDataView::SpanExit { iid }
    } else if d == 3 {
        RecordDataView::SpanClose { iid }
    } else if d == 5 {
        RecordDataView::TaskNew { iid }
    } else if d == 6 {
        RecordDataView::TaskPollStart { iid }
    } else if d == 7 {
        RecordDataView::TaskPollEnd { iid }
    } else {
        RecordDataView::TaskDrop { iid }
    }
}

/// The record data variant for a waker-carrying variant index.
pub open spec fn waker_data(d: nat, waker: Waker) -> RecordDataView {
    if d == 9 {
        RecordDataView::WakerWake { waker }
    } else if d == 10 {
        RecordDataView::WakerWakeByRef { waker }
    } else if d == 11 {
        RecordDataView::WakerClone { waker }
    } else {
        RecordDataView::WakerDrop { waker }
    }
}

/// Append the encoding of record data to the output.
pub fn encode_record_data(out: &mut Vec<u8>, d: &RecordData)
    ensures
        final(out)@ == old(out)@ + enc_record_data(d@),
{
    match d {
        RecordData::SpanNew { iid } => {
            encode_u64(out, 0);
            encode_u64(out, iid.0);
        },
        RecordData::SpanEnter { iid } => {
            encode_u64(out, 1);
            encode_u64(out, iid.0);
        },
        RecordData::SpanExit { iid } => {
            encode_u64(out, 2);
            encode_u64(out, iid.0);
        },
        RecordData::SpanClose { iid } => {
            encode_u64(out, 3);
            encode_u64(out, iid.0);
        },
        RecordData::Event { event } => {
            encode_u64(out, 4);
            crate::codec::encode_event(out, event);
        },
        RecordData::TaskNew { iid } => {
            encode_u64(out, 5);
            encode_u64(out, iid.0);
        },
        RecordData::TaskPollStart { iid } => {
            encode_u64(out, 6);
            encode_u64(out, iid.0);
        },
        RecordData::TaskPollEnd { iid } => {
            encode_u64(out, 7);
            encode_u64(out, iid.0);
        },
        RecordData::TaskDrop { iid } => {
            encode_u64(out, 8);
            encode_u64(out, iid.0);
        },
        RecordData::WakerWake { waker } => {
            encode_u64(out, 9);
            crate::codec::encode_waker(out, waker);
        },
        RecordData::WakerWakeByRef { waker } => {
            encode_u64(out, 10);
            crate::codec::encode_waker(out, waker);
        },
        RecordData::WakerClone { waker } => {
            encode_u64(out, 11);
            crate::codec::encode_waker(out, waker);
        },
        RecordData::WakerDrop { waker } => {
            encode_u64(out, 12);
            crate::codec::encode_waker(out, waker);
        },
    }
    proof {
        assert(out@ =~= old(out)@ + enc_record_data(d@));
    }
}

/// Decode record data from `bytes` at `pos`.
pub fn decode_record_data(bytes: &Vec<u8>, pos: usize) -> (r: Result<
    (RecordData, usize),
    DecodeFailure,
>)
    requires
        pos <= bytes@.len(),
    ensures
        match r {
            Ok((v, next)) => dec_record_data(bytes@.skip(pos as int)) == SpecDec::Val(
                v@,
                next - pos,
            ) && pos < next <= bytes@.len(),
            Err(DecodeFailure::Incomplete) => dec_record_data(bytes@.skip(pos as int))
                == SpecDec::<RecordDataView>::More,
            Err(DecodeFailure::Malformed) => dec_record_data(bytes@.skip(pos as int))
                == SpecDec::<RecordDataView>::Bad,
        },
{
    proof {
        reveal(dec_record_data);
    }
    let ghost s = bytes@.skip(pos as int);
    let (d, mid) = match decode_u32(bytes, pos) {
        Ok(v) => v,
        Err(e) => {
            return Err(e);
        },
    };
    proof {
        assert(s.skip(mid - pos) =~= bytes@.skip(mid as int));
    }
    if d <= 3 || (5 <= d && d <= 8) {
        match decode_iid(bytes, mid) {
            Ok((iid, next)) => {
                let data = if d == 0 {
                    RecordData::SpanNew { iid }
                } else if d == 1 {
                    RecordData::SpanEnter { iid }
                } else if d == 2 {
                    RecordData::SpanExit { iid }
                } else if d == 3 {
                    RecordData::SpanClose { iid }
                } else if d == 5 {
                    RecordData::TaskNew { iid }
                } else if d == 6 {
                    RecordData::TaskPollStart { iid }
                } else if d == 7 {
                    RecordData::TaskPollEnd { iid }
                } else {
                    RecordData::TaskDrop { iid }
                };
                Ok((data, next))
            },
            Err(e) => Err(e),
        }
    } else if d == 4 {
        match decode_event(bytes, mid) {
            Ok((event, next)) => Ok((RecordData::Event { event }, next)),
            Err(e) => Err(e),
        }
    } else if d <= 12 {
        match decode_waker(bytes, mid) {
            Ok((waker, next)) => {
                let data = if d == 9 {
                    RecordData::WakerWake { waker }
                } else if d == 10 {
                    RecordData::WakerWakeByRef { waker }
                } else if d == 11 {
                    RecordData::WakerClone { waker }
                } else {
                    RecordData::WakerDrop { waker }
                };
                Ok((data, next))
            },
            Err(e) => Err(e),
        }
    } else {
        Err(DecodeFailure::Malformed)
    }
}

/// The round-trip law for record data.
#[verifier::rlimit(100)]
pub proof fn lemma_record_data_round_trip(d: RecordDataView, rest: Seq<u8>)
    requires
        wf_record_data(d),
    ensures
        dec_record_data(enc_record_data(d) + rest) == SpecDec::Val(
            d,
            enc_record_data(d).len() as int,
        ),
{
    reveal(dec_record_data);
    let s = enc_record_data(d) + rest;
    match d {
        RecordDataView::SpanNew { iid } => {
            assert(s =~= varint_enc(0) + (enc_iid(iid) + rest));
            lemma_varint_round_trip(0, enc_iid(iid) + rest, 10, u64::MAX as nat);
            assert(s.skip(1) =~= enc_iid(iid) + rest);
            lemma_iid_round_trip(iid, rest);
        },
        RecordDataView::SpanEnter { iid } => {
            assert(s =~= varint_enc(1) + (enc_iid(iid) + rest));
            lemma_varint_round_trip(1, enc_iid(iid) + rest, 10, u64::MAX as nat);
            assert(s.skip(1) =~= enc_iid(iid) + rest);
            lemma_iid_round_trip(iid, rest);
        },
        RecordDataView::SpanExit { iid } => {
            assert(s =~= varint_enc(2) + (enc_iid(iid) + rest));
            lemma_varint_round_trip(2, enc_iid(iid) + rest, 10, u64::MAX as nat);
            assert(s.skip(1) =~= enc_iid(iid) + rest);
            lemma_iid_round_trip(iid, rest);
        },
        RecordDataView::SpanClose { iid } => {
            assert(s =~= varint_enc(3) + (enc_iid(iid) + rest));
            lemma_varint_round_trip(3, enc_iid(iid) + rest, 10, u64::MAX as nat);
            assert(s.skip(1) =~= enc_iid(iid) + rest);
            lemma_iid_round_trip(iid, rest);
        },
        RecordDataView::Event { event } => {
            assert(s =~= varint_enc(4) + (enc_event(event) + rest));
            lemma_varint_round_trip(4, enc_event(event) + rest, 10, u64::MAX as nat);
            assert(s.skip(1) =~= enc_event(event) + rest);
            lemma_event_round_trip(event, rest);
        },
        RecordDataView::TaskNew { iid } => {
            assert(s =~= varint_enc(5) + (enc_iid(iid) + rest));
            lemma_varint_round_trip(5, enc_iid(iid) + rest, 10, u64::MAX as nat);
            assert(s.skip(1) =~= enc_iid(iid) + rest);
            lemma_iid_round_trip(iid, rest);
        },
        RecordDataView::TaskPollStart { iid } => {
            assert(s =~= varint_enc(6) + (enc_iid(iid) + rest));
            lemma_varint_round_trip(6, enc_iid(iid) + rest, 10, u64::MAX as nat);
            assert(s.skip(1) =~= enc_iid(iid) + rest);
            lemma_iid_round_trip(iid, rest);
        },
        RecordDataView::TaskPollEnd { iid } => {
            assert(s =~= varint_enc(7) + (enc_iid(iid) + rest));
            lemma_varint_round_trip(7, enc_iid(iid) + rest, 10, u64::MAX as nat);
            assert(s.skip(1) =~= enc_iid(iid) + rest);
            lemma_iid_round_trip(iid, rest);
        },
        RecordDataView::TaskDrop { iid } => {
            assert(s =~= varint_enc(8) + (enc_iid(iid) + rest));
            lemma_varint_round_trip(8, enc_iid(iid) + rest, 10, u64::MAX as nat);
            assert(s.skip(1) =~= enc_iid(iid) + rest);
            lemma_iid_round_trip(iid, rest);
        },
        RecordDataView::WakerWake { waker } => {
            assert(s =~= varint_enc(9) + (enc_waker(waker) + rest));
            lemma_varint_round_trip(9, enc_waker(waker) + rest, 10, u64::MAX as nat);
            assert(s.skip(1) =~= enc_waker(waker) + rest);
            lemma_waker_round_trip(waker, rest);
        },
        RecordDataView::WakerWakeByRef { waker } => {
            assert(s =~= varint_enc(10) + (enc_waker(waker) + rest));
            lemma_varint_round_trip(10, enc_waker(waker) + rest, 10, u64::MAX as nat);
            assert(s.skip(1) =~= enc_waker(waker) + rest);
            lemma_waker_round_trip(waker, rest);
        },
        RecordDataView::WakerClone { waker } => {
            assert(s =~= varint_enc(11) + (enc_waker(waker) + rest));
            lemma_varint_round_trip(11, enc_waker(waker) + rest, 10, u64::MAX as nat);
            assert(s.skip(1) =~= enc_waker(waker) + rest);
            lemma_waker_round_trip(waker, rest);
        },
        RecordDataView::WakerDrop { waker } => {
            assert(s =~= varint_enc(12) + (enc_waker(waker) + rest));
            lemma_varint_round_trip(12, enc_waker(waker) + rest, 10, u64::MAX as nat);
            assert(s.skip(1) =~= enc_waker(waker) + rest);
            lemma_waker_round_trip(waker, rest);
        },
    }
}

/// Whether a record can be encoded.
pub open spec fn wf_record(r: RecordView) -> bool {
    wf_record_data(r.data)
}

/// The encoding of a record: its timestamp, then its data.
pub open spec fn enc_record(r: RecordView) -> Seq<u8> {
    varint_enc(r.meta.timestamp.micros as nat) + enc_record_data(r.data)
}

/// Decode a record.
#[verifier::opaque]
pub open spec fn dec_record(s: Seq<u8>) -> SpecDec<RecordView> {
    match dec_u64(s) {
        SpecDec::Val(ts, n) => match dec_record_data(s.skip(n)) {
            SpecDec::Val(data, m) => SpecDec::Val(
                RecordView {
                    meta: Meta { timestamp: ChunkTimestamp { micros: ts as u64 } },
                    data,
                },
                n + m,
            ),
            SpecDec::More => SpecDec::More,
            SpecDec::Bad => SpecDec::Bad,
        },
        SpecDec::More => SpecDec::More,
        SpecDec::Bad => SpecDec::Bad,
    }
}

/// Append the encoding of a record to the output.
pub fn encode_record(out: &mut Vec<u8>, r: &Record)
    ensures
        final(out)@ == old(out)@ + enc_record(r@),
{
    encode_u64(out, r.meta.timestamp.micros);
    encode_record_data(out, &r.data);
    proof {
        assert(out@ =~= old(out)@ + enc_record(r@));
    }
}

/// Decode a record from `bytes` at `pos`.
pub fn decode_record(bytes: &Vec<u8>, pos: usize) -> (r: Result<(Record, usize), DecodeFailure>)
    requires
        pos <= bytes@.len(),
    ensures
        match r {
            Ok((v, next)) => dec_record(bytes@.skip(pos as int)) == SpecDec::Val(v@, next - pos)
                && pos < next <= bytes@.len(),
            Err(DecodeFailure::Incomplete) => dec_record(bytes@.skip(pos as int))
                == SpecDec::<RecordView>::More,
            Err(DecodeFailure::Malformed) => dec_record(bytes@.skip(pos as int))
                == SpecDec::<RecordView>::Bad,
        },
{
    proof {
        reveal(dec_record);
    }
    let ghost s = bytes@.skip(pos as int);
    let (ts, mid) = match decode_u64(bytes, pos) {
        Ok(v) => v,
        Err(e) => {
            return Err(e);
        },
    };
    proof {
        assert(s.skip(mid - pos) =~= bytes@.skip(mid as int));
    }
    match decode_record_data(bytes, mid) {
        Ok((data, next)) => Ok(
            (Record { meta: Meta { timestamp: ChunkTimestamp { micros: ts } }, data }, next),
        ),
        Err(e) => Err(e),
    }
}

/// The round-trip law for records.
pub proof fn lemma_record_round_trip(r: RecordView, rest: Seq<u8>)
    requires
        wf_record(r),
    ensures
        dec_record(enc_record(r) + rest) == SpecDec::Val(r, enc_record(r).len() as int),
{
    reveal(dec_record);
    let e1 = varint_enc(r.meta.timestamp.micros as nat);
    let s = enc_record(r) + rest;
    assert(s =~= e1 + (enc_record_data(r.data) + rest));
    crate::wire::lemma_u64_round_trip(r.meta.timestamp.micros, enc_record_data(r.data) + rest);
    assert(s.skip(e1.len() as int) =~= enc_record_data(r.data) + rest);
    lemma_record_data_round_trip(r.data, rest);
}

/// Whether an object can be encoded.
pub open spec fn wf_object(o: ObjectView) -> bool {
    match o {
        ObjectView::Span(s) => wf_span(s),
        ObjectView::Task(t) => wf_task(t),
    }
}

/// The encoding of an object: the variant index, then the span or task.
pub open spec fn enc_object(o: ObjectView) -> Seq<u8> {
    match o {
        ObjectView::Span(sp) => varint_enc(0) + enc_span(sp),
        ObjectView::Task(t) => varint_enc(1) + enc_task(t),
    }
}

/// Decode an object.
#[verifier::opaque]
pub open spec fn dec_object(s: Seq<u8>) -> SpecDec<ObjectView> {
    match dec_u32(s) {
        SpecDec::Val(d, n) => if d == 0 {
            match dec_span(s.skip(n)) {
                SpecDec::Val(sp, m) => SpecDec::Val(ObjectView::Span(sp), n + m),
                SpecDec::More => SpecDec::More,
                SpecDec::Bad => SpecDec::Bad,
            }
        } else if d == 1 {
            match dec_task(s.skip(n)) {
                SpecDec::Val(t, m) => SpecDec::Val(ObjectView::Task(t), n + m),
                SpecDec::More => SpecDec::More,
                SpecDec::Bad => SpecDec::Bad,
            }
        } else {
            SpecDec::Bad
        },
        SpecDec::More => SpecDec::More,
        SpecDec::Bad => SpecDec::Bad,
    }
}

/// Append the encoding of an object to the output.
pub fn encode_object(out: &mut Vec<u8>, o: &Object)
    ensures
        final(out)@ == old(out)@ + enc_object(o@),
{
    match o {
        Object::Span(sp) => {
            encode_u64(out, 0);
            crate::codec::encode_span(out, sp);
        },
        Object::Task(t) => {
            encode_u64(out, 1);
            crate::codec::encode_task(out, t);
        },
    }
    proof {
        assert(out@ =~= old(out)@ + enc_object(o@));
    }
}

/// Decode an object from `bytes` at `pos`.
pub fn decode_object(bytes: &Vec<u8>, pos: usize) -> (r: Result<(Object, usize), DecodeFailure>)
    requires
        pos <= bytes@.len(),
    ensures
        match r {
            Ok((v, next)) => dec_object(bytes@.skip(pos as int)) == SpecDec::Val(v@, next - pos)
                && pos < next <= bytes@.len(),
            Err(DecodeFailure::Incomplete) => dec_object(bytes@.skip(pos as int))
                == SpecDec::<ObjectView>::More,
            Err(DecodeFailure::Malformed) => dec_object(bytes@.skip(pos as int))
                == SpecDec::<ObjectView>::Bad,
        },
{
    proof {
        reveal(dec_object);
    }
    let ghost s = bytes@.skip(pos as int);
    let (d, mid) = match decode_u32(bytes, pos) {
        Ok(v) => v,
        Err(e) => {
            return Err(e);
        },
    };
    proof {
        assert(s.skip(mid - pos) =~= bytes@.skip(mid as int));
    }
    if d == 0 {
        match decode_span(bytes, mid) {
            Ok((sp, next)) => Ok((Object::Span(sp), next)),
            Err(e) => Err(e),
        }
    } else if d == 1 {
        match decode_task(bytes, mid) {
            Ok((t, next)) => Ok((Object::Task(t), next)),
            Err(e) => Err(e),
        }
    } else {
        Err(DecodeFailure::Malformed)
    }
}

/// The round-trip law for objects.
pub proof fn lemma_object_round_trip(o: ObjectView, rest: Seq<u8>)
    requires
        wf_object(o),
    ensures
        dec_object(enc_object(o) + rest) == SpecDec::Val(o, enc_object(o).len() as int),
{
    reveal(dec_object);
    let s = enc_object(o) + rest;
    match o {
        ObjectView::Span(sp) => {
            vstd::seq_lib::lemma_concat_associative(varint_enc(0), enc_span(sp), rest);
            assert(s == varint_enc(0) + (enc_span(sp) + rest));
            lemma_varint_round_trip(0, enc_span(sp) + rest, 10, u64::MAX as nat);
            crate::codec::lemma_concat_skip(varint_enc(0), enc_span(sp) + rest);
            assert(s.skip(1) == enc_span(sp) + rest);
            lemma_span_round_trip(sp, rest);
        },
        ObjectView::Task(t) => {
            vstd::seq_lib::lemma_concat_associative(varint_enc(1), enc_task(t), rest);
            assert(s == varint_enc(1) + (enc_task(t) + rest));
            lemma_varint_round_trip(1, enc_task(t) + rest, 10, u64::MAX as nat);
            crate::codec::lemma_concat_skip(varint_enc(1), enc_task(t) + rest);
            assert(s.skip(1) == enc_task(t) + rest);
            lemma_task_round_trip(t, rest);
        },
    }
}

} // verus!
