//! A flight-recorder library for asynchronous runtimes.
//!
//! Structured traces of task lifecycle events, poll intervals and waker
//! operations are captured in memory, partitioned into fixed-duration chunks
//! by wall-clock interval and producer sequence, and persisted as a binary
//! archive. A tolerant reader recovers the chunks, and a reshape layer joins
//! the per-sequence event streams into per-task timelines with a derived
//! task-state machine.

pub mod chunked;
pub mod callsite;
pub mod common;
pub mod codec;
pub mod collect;
pub mod flow;
pub mod identifier;
pub mod timestamp;
pub mod wire;

pub use common::{
    Event, Field, FieldName, FieldValue, InstrumentationId, Kind, Level, Parent, Span, Task,
    TaskId, TaskKind, Waker,
};
pub use identifier::{FormatIdentifier, FormatVariant, ParseFormatVersionError};

pub use timestamp::{AbsTimestamp, AbsTimestampSecs, ChunkInterval, ChunkTimestamp, WinTimestamp};
