use rfr::chunked::read::{read_chunk_from_io, ChunkLoader, ChunkLoaderState, ChunkPath};
use rfr::chunked::{ChunkedWriter, Meta, Object, Record, RecordData};
use rfr::common::{InstrumentationId, Task, TaskId, TaskKind};
use rfr::callsite::{Callsite, CallsiteId};
use rfr::common::{Kind, Level};
use rfr::timestamp::AbsTimestamp;
use rfr::chunked::sequence::SeqId;

fn start_time() -> AbsTimestamp {
    AbsTimestamp {
        secs: 1_700_000_000,
        subsec_micros: 100_000,
    }
}

fn test_task(iid: u64) -> Task {
    Task {
        iid: InstrumentationId::from(iid),
        callsite_id: CallsiteId::from(1_u64),
        task_id: TaskId::from(iid),
        task_name: "worker".into(),
        task_kind: TaskKind::Task,
        context: None,
    }
}

#[test]
fn record_single_event() {
    let (mut writer, meta_bytes) = ChunkedWriter::try_new(start_time());
    assert!(!meta_bytes.is_empty());

    writer.register_callsite(Callsite {
        callsite_id: CallsiteId::from(1_u64),
        level: Level(10),
        kind: Kind::Event,
        const_fields: vec![],
        split_field_names: vec![],
    });

    let task = test_task(3);
    let resolver_task = task.clone();
    writer.append_record(
        start_time(),
        SeqId::from(1),
        RecordData::TaskNew { iid: task.iid },
        |_iids: &Vec<InstrumentationId>| vec![Some(Object::Task(resolver_task))],
    );

    // a moment in the next second, well past the write buffer
    let later = AbsTimestamp {
        secs: 1_700_000_002,
        subsec_micros: 0,
    };
    let outcome = writer.write_completed_chunks(later);
    assert_eq!(outcome.files.len(), 1);
    assert_eq!(
        outcome.files[0].relative_path,
        "2023-11/14-22/chunk-13-20.rfr"
    );

    let chunk = read_chunk_from_io(&outcome.files[0].bytes).unwrap();
    assert_eq!(chunk.seq_chunks.len(), 1);
    let seq_chunk = &chunk.seq_chunks[0];
    assert_eq!(seq_chunk.header.seq_id, SeqId::from(1));
    assert_eq!(seq_chunk.objects.len(), 1);
    assert_eq!(seq_chunk.objects[0], Object::Task(task.clone()));
    assert_eq!(seq_chunk.records.len(), 1);
    assert_eq!(
        seq_chunk.records[0],
        Record {
            meta: Meta {
                timestamp: rfr::timestamp::ChunkTimestamp { micros: 100_000 },
            },
            data: RecordData::TaskNew { iid: task.iid },
        }
    );

    // the callsite made it into the callsites file bytes
    let callsites =
        rfr::chunked::ChunkedCallsites::try_from_io(writer.callsites_file_bytes()).unwrap();
    assert_eq!(callsites.callsites.len(), 1);
}

#[test]
fn open_chunks_are_kept_until_completed() {
    let (mut writer, _meta_bytes) = ChunkedWriter::try_new(start_time());

    let task = test_task(5);
    let resolver_task = task.clone();
    writer.append_record(
        start_time(),
        SeqId::from(1),
        RecordData::TaskNew { iid: task.iid },
        |_iids: &Vec<InstrumentationId>| vec![Some(Object::Task(resolver_task))],
    );

    // only 50 milliseconds later: within the write buffer, nothing flushes
    let soon = AbsTimestamp {
        secs: 1_700_000_001,
        subsec_micros: 50_000,
    };
    let outcome = writer.write_completed_chunks(soon);
    assert!(outcome.files.is_empty());

    // but a full write still produces the open chunk
    let files = writer.write_all_chunks();
    assert_eq!(files.len(), 1);
}

#[test]
fn notifiers_are_signalled_for_covered_moments() {
    let (mut writer, _meta_bytes) = ChunkedWriter::try_new(start_time());

    let task = test_task(5);
    let resolver_task = task.clone();
    writer.append_record(
        start_time(),
        SeqId::from(1),
        RecordData::TaskNew { iid: task.iid },
        |_iids: &Vec<InstrumentationId>| vec![Some(Object::Task(resolver_task))],
    );

    let waiter = writer.register_notifier(start_time());
    let late_waiter = writer.register_notifier(AbsTimestamp {
        secs: 1_700_000_050,
        subsec_micros: 0,
    });

    let later = AbsTimestamp {
        secs: 1_700_000_002,
        subsec_micros: 0,
    };
    let outcome = writer.write_completed_chunks(later);
    assert_eq!(outcome.files.len(), 1);
    assert_eq!(outcome.written_notifiers, vec![waiter]);

    let drained = writer.close();
    assert!(writer.is_closed());
    assert_eq!(drained, vec![late_waiter]);
}

#[test]
fn reader_tolerates_truncated_tail() {
    let (mut writer, _meta_bytes) = ChunkedWriter::try_new(start_time());

    for iid in 1..=2_u64 {
        let task = test_task(iid);
        let resolver_task = task.clone();
        writer.append_record(
            start_time(),
            SeqId::from(iid),
            RecordData::TaskNew { iid: task.iid },
            |_iids: &Vec<InstrumentationId>| vec![Some(Object::Task(resolver_task))],
        );
    }

    let files = writer.write_all_chunks();
    assert_eq!(files.len(), 1);
    let full = &files[0].bytes;

    // the complete file holds both sequence chunks
    let complete = read_chunk_from_io(full).unwrap();
    assert_eq!(complete.seq_chunks.len(), 2);

    // truncating within the last sequence chunk loses only that chunk
    let truncated: Vec<u8> = full[..full.len() - 5].to_vec();
    let partial = read_chunk_from_io(&truncated).unwrap();
    assert_eq!(partial.seq_chunks.len(), 1);
    assert_eq!(partial.header, complete.header);
    assert_eq!(partial.seq_chunks[0], complete.seq_chunks[0]);
}

#[test]
fn chunk_loader_promotes_lazily() {
    let (mut writer, _meta_bytes) = ChunkedWriter::try_new(start_time());
    let task = test_task(1);
    let resolver_task = task.clone();
    writer.append_record(
        start_time(),
        SeqId::from(1),
        RecordData::TaskNew { iid: task.iid },
        |_iids: &Vec<InstrumentationId>| vec![Some(Object::Task(resolver_task))],
    );
    let files = writer.write_all_chunks();
    let bytes = &files[0].bytes;

    let mut loader = ChunkLoader::from_path(ChunkPath::new(files[0].relative_path.clone()));
    assert!(matches!(loader.state, ChunkLoaderState::Unloaded));

    loader.ensure_header(bytes);
    match &loader.state {
        ChunkLoaderState::Header(header) => {
            assert_eq!(header.interval.base_time.secs, 1_700_000_000);
        }
        other => panic!("unexpected loader state: {:?}", other),
    }

    loader.ensure_chunk(bytes);
    match &loader.state {
        ChunkLoaderState::Chunk(chunk) => {
            assert_eq!(chunk.seq_chunks.len(), 1);
        }
        other => panic!("unexpected loader state: {:?}", other),
    }
}
