//! Chunked recordings.
//!
//! A chunked recording partitions live events into fixed-duration chunks by
//! wall-clock interval and by producer sequence. On disk it is a directory
//! holding a meta file, an incrementally appended callsites file, and one
//! chunk file per interval.

pub mod callsite;
pub mod read;
pub mod meta;
pub mod record;
pub mod sequence;
pub mod write;

pub use crate::callsite::{Callsite, CallsiteId};
pub use crate::timestamp::{AbsTimestampSecs, ChunkInterval, ChunkTimestamp};
pub use callsite::{CallsitesTryFromIoError, ChunkedCallsites, ChunkedCallsitesWriter, FlushCallsitesError, PushCallsiteResult};
pub use meta::{ChunkedMeta, ChunkedMetaHeader, MetaTryFromIoError};
pub use read::{Chunk, ChunkHeader, ChunkLoader, ChunkLoaderState, ChunkPath, ChunkReadError, Recording, RecordingReadError};
pub use record::{Meta, Object, Record, RecordData};
pub use sequence::{SeqChunk, SeqChunkBuffer, SeqChunkHeader, SeqId};
pub use write::{ChunkedWriter, NewChunkedWriterError, WaitForWriteError, WriteChunksError};
