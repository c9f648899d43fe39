//! The common data model: instrumented objects and their fields.
//!
//! Tasks and spans are the objects that records refer to. Each carries the
//! identifier of the callsite it was emitted from and the per-instance
//! instrumentation id that records use to refer back to it.

use vstd::prelude::*;

use crate::callsite::CallsiteId;

verus! {

/// The level of a span or event.
///
/// Levels are numeric: 10 trace, 20 debug, 30 info, 40 warn, 50 error.
#[derive(Debug, Clone, Copy, PartialEq, Eq, Structural)]
pub struct Level(pub u8);

/// The kind of a callsite.
///
/// This indicates the type of instrumentation that is emitted from that
/// location in the application code.
#[derive(Debug, Clone, Copy, PartialEq, Eq, Structural)]
pub enum Kind {
    /// An unknown instrumentation type.
    Unknown,
    /// An event representing a point in time.
    Event,
    /// A span representing potentially disjoint periods of time.
    Span,
}

/// The name (key) of a field.
#[derive(Debug, Clone, PartialEq, Eq)]
pub struct FieldName(pub String);

/// The value of a field.
#[derive(Debug, Clone, PartialEq)]
pub enum FieldValue {
    /// The IEEE 754 bit pattern of a 64-bit floating point number, kept as
    /// raw bits so that it can be carried and persisted exactly.
    F64Bits(u64),
    /// 64-bit signed integer.
    I64(i64),
    /// 64-bit unsigned integer.
    U64(u64),
    /// 128-bit signed integer.
    I128(i128),
    /// 128-bit unsigned integer.
    U128(u128),
    /// Boolean.
    Bool(bool),
    /// String.
    Str(String),
}

/// A complete field containing the name and value together.
#[derive(Debug, Clone, PartialEq)]
pub struct Field {
    /// The name of the field.
    pub name: FieldName,
    /// The value of the field.
    pub value: FieldValue,
}

/// The identifier of one instrumented instance, such as a specific task's
/// span. Unique within a recording.
#[derive(Debug, Clone, Copy, Hash, PartialEq, Eq, Structural)]
pub struct InstrumentationId(pub u64);

impl InstrumentationId {
    /// The `u64` representation of the instrumentation id.
    pub fn as_u64(&self) -> (r: u64)
        ensures
            r == self.0,
    {
        self.0
    }
}

impl From<u64> for InstrumentationId {
    /// Create an instrumentation id from a `u64` value.
    fn from(value: u64) -> (r: InstrumentationId) {
        InstrumentationId(value)
    }
}

impl vstd::std_specs::convert::FromSpecImpl<u64> for InstrumentationId {
    open spec fn obeys_from_spec() -> bool {
        true
    }

    open spec fn from_spec(value: u64) -> InstrumentationId {
        InstrumentationId(value)
    }
}

/// The runtime-assigned identity of a task. Across re-spawns, several
/// instrumentation ids may refer to the same task id.
#[derive(Debug, Clone, Copy, Hash, PartialEq, Eq, Structural)]
pub struct TaskId(pub u64);

impl TaskId {
    /// The `u64` representation of the task id.
    pub fn as_u64(&self) -> (r: u64)
        ensures
            r == self.0,
    {
        self.0
    }
}

impl From<u64> for TaskId {
    /// Create a task id from a `u64` value.
    fn from(value: u64) -> (r: TaskId) {
        TaskId(value)
    }
}

impl vstd::std_specs::convert::FromSpecImpl<u64> for TaskId {
    open spec fn obeys_from_spec() -> bool {
        true
    }

    open spec fn from_spec(value: u64) -> TaskId {
        TaskId(value)
    }
}

/// The parent of a span or event.
#[derive(Debug, Clone, PartialEq, Eq, Structural)]
pub enum Parent {
    /// The parent is the span current at the time of emission.
    Current,
    /// The span or event has no parent.
    Root,
    /// The parent is the span with the given instrumentation id.
    Explicit {
        /// The parent span's instrumentation id.
        iid: InstrumentationId,
    },
}

/// A span: a period of time instrumented by the application.
#[derive(Debug, Clone, PartialEq)]
pub struct Span {
    /// The instrumentation id of this span instance.
    pub iid: InstrumentationId,
    /// The callsite the span was emitted from.
    pub callsite_id: CallsiteId,
    /// The span's parent.
    pub parent: Parent,
    /// Values for the callsite's split field names, in order.
    pub split_field_values: Vec<FieldValue>,
    /// Fields not declared at the callsite.
    pub dynamic_fields: Vec<Field>,
}

/// An event: a point in time instrumented by the application.
#[derive(Debug, Clone, PartialEq)]
pub struct Event {
    /// The callsite the event was emitted from.
    pub callsite_id: CallsiteId,
    /// The event's parent.
    pub parent: Parent,
    /// Values for the callsite's split field names, in order.
    pub split_field_values: Vec<FieldValue>,
    /// Fields not declared at the callsite.
    pub dynamic_fields: Vec<Field>,
}

/// The kind of a task.
#[derive(Debug, Clone, PartialEq, Eq)]
pub enum TaskKind {
    /// An ordinary asynchronous task.
    Task,
    /// A task bound to the local thread.
    Local,
    /// A blocking task.
    Blocking,
    /// A block-on task.
    BlockOn,
    /// Some other, named kind of task.
    Other(String),
}

/// A task known to the runtime.
#[derive(Debug, Clone, PartialEq)]
pub struct Task {
    /// The per-instance identifier of the task.
    pub iid: InstrumentationId,
    /// The callsite the task's span was emitted from.
    pub callsite_id: CallsiteId,
    /// The runtime-assigned task identity.
    pub task_id: TaskId,
    /// The task's name.
    pub task_name: String,
    /// The task's kind.
    pub task_kind: TaskKind,
    /// The instrumentation id of the spawning task, when known.
    pub context: Option<InstrumentationId>,
}

/// A waker operation's subject: the task the waker belongs to, and the task
/// in whose context the operation happened, when known.
#[derive(Debug, Clone, Copy, PartialEq, Eq, Structural)]
pub struct Waker {
    /// The instrumentation id of the task the waker wakes.
    pub task_iid: InstrumentationId,
    /// The instrumentation id of the task performing the operation.
    pub context: Option<InstrumentationId>,
}

/// The mathematical value of a field value: a string is a character
/// sequence.
pub enum FieldValueView {
    /// The bit pattern of a 64-bit float.
    F64Bits(u64),
    /// 64-bit signed integer.
    I64(i64),
    /// 64-bit unsigned integer.
    U64(u64),
    /// 128-bit signed integer.
    I128(i128),
    /// 128-bit unsigned integer.
    U128(u128),
    /// Boolean.
    Bool(bool),
    /// String.
    Str(Seq<char>),
}

impl View for FieldValue {
    type V = FieldValueView;

    open spec fn view(&self) -> FieldValueView {
        match self {
            FieldValue::F64Bits(b) => FieldValueView::F64Bits(*b),
            FieldValue::I64(x) => FieldValueView::I64(*x),
            FieldValue::U64(x) => FieldValueView::U64(*x),
            FieldValue::I128(x) => FieldValueView::I128(*x),
            FieldValue::U128(x) => FieldValueView::U128(*x),
            FieldValue::Bool(b) => FieldValueView::Bool(*b),
            FieldValue::Str(t) => FieldValueView::Str(t@),
        }
    }
}

impl View for FieldName {
    type V = Seq<char>;

    open spec fn view(&self) -> Seq<char> {
        self.0@
    }
}

/// The mathematical value of a complete field.
pub struct FieldView {
    /// The name of the field.
    pub name: Seq<char>,
    /// The value of the field.
    pub value: FieldValueView,
}

impl View for Field {
    type V = FieldView;

    open spec fn view(&self) -> FieldView {
        FieldView { name: self.name@, value: self.value@ }
    }
}

/// The mathematical value of a task kind.
pub enum TaskKindView {
    /// An ordinary asynchronous task.
    Task,
    /// A task bound to the local thread.
    Local,
    /// A blocking task.
    Blocking,
    /// A block-on task.
    BlockOn,
    /// Some other, named kind of task.
    Other(Seq<char>),
}

impl View for TaskKind {
    type V = TaskKindView;

    open spec fn view(&self) -> TaskKindView {
        match self {
            TaskKind::Task => TaskKindView::Task,
            TaskKind::Local => TaskKindView::Local,
            TaskKind::Blocking => TaskKindView::Blocking,
            TaskKind::BlockOn => TaskKindView::BlockOn,
            TaskKind::Other(t) => TaskKindView::Other(t@),
        }
    }
}

/// The mathematical value of a task.
pub struct TaskView {
    /// The per-instance identifier of the task.
    pub iid: InstrumentationId,
    /// The callsite the task's span was emitted from.
    pub callsite_id: CallsiteId,
    /// The runtime-assigned task identity.
    pub task_id: TaskId,
    /// The task's name.
    pub task_name: Seq<char>,
    /// The task's kind.
    pub task_kind: TaskKindView,
    /// The instrumentation id of the spawning task, when known.
    pub context: Option<InstrumentationId>,
}

impl View for Task {
    type V = TaskView;

    open spec fn view(&self) -> TaskView {
        TaskView {
            iid: self.iid,
            callsite_id: self.callsite_id,
            task_id: self.task_id,
            task_name: self.task_name@,
            task_kind: self.task_kind@,
            context: self.context,
        }
    }
}

/// The mathematical value of a span.
pub struct SpanView {
    /// The instrumentation id of this span instance.
    pub iid: InstrumentationId,
    /// The callsite the span was emitted from.
    pub callsite_id: CallsiteId,
    /// The span's parent.
    pub parent: Parent,
    /// Values for the callsite's split field names, in order.
    pub split_field_values: Seq<FieldValueView>,
    /// Fields not declared at the callsite.
    pub dynamic_fields: Seq<FieldView>,
}

impl View for Span {
    type V = SpanView;

    open spec fn view(&self) -> SpanView {
        SpanView {
            iid: self.iid,
            callsite_id: self.callsite_id,
            parent: self.parent,
            split_field_values: self.split_field_values@.map_values(|v: FieldValue| v@),
            dynamic_fields: self.dynamic_fields@.map_values(|f: Field| f@),
        }
    }
}

/// The mathematical value of an event.
pub struct EventView {
    /// The callsite the event was emitted from.
    pub callsite_id: CallsiteId,
    /// The event's parent.
    pub parent: Parent,
    /// Values for the callsite's split field names, in order.
    pub split_field_values: Seq<FieldValueView>,
    /// Fields not declared at the callsite.
    pub dynamic_fields: Seq<FieldView>,
}

impl View for Event {
    type V = EventView;

    open spec fn view(&self) -> EventView {
        EventView {
            callsite_id: self.callsite_id,
            parent: self.parent,
            split_field_values: self.split_field_values@.map_values(|v: FieldValue| v@),
            dynamic_fields: self.dynamic_fields@.map_values(|f: Field| f@),
        }
    }
}

} // verus!
