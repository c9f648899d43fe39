use rfr::chunked::{ChunkInterval, Meta, Object, Record, RecordData, SeqChunkBuffer, SeqId};
use rfr::common::{InstrumentationId, Task, TaskId, TaskKind};
use rfr::callsite::CallsiteId;
use rfr::timestamp::AbsTimestamp;

fn now_timestamp() -> AbsTimestamp {
    // a fixed moment well within the valid range, with a sub-second part
    AbsTimestamp {
        secs: 1_700_000_000,
        subsec_micros: 250_000,
    }
}

#[test]
fn round_trip() {
    let mut buffer = Vec::new();

    let mut seq_chunk_buffer = SeqChunkBuffer::new(
        ChunkInterval::from_timestamp_and_period(now_timestamp(), 1_000_000),
        SeqId::from(1),
    );

    let task = test_task(2);
    let record = Record {
        meta: Meta {
            timestamp: seq_chunk_buffer.chunk_timestamp(&now_timestamp()),
        },
        data: RecordData::TaskNew { iid: task.iid },
    };
    let resolver_task = task.clone();
    seq_chunk_buffer.append_record(record.clone(), |_iids: &Vec<InstrumentationId>| {
        vec![Some(Object::Task(resolver_task))]
    });
    seq_chunk_buffer.write(&mut buffer);

    assert!(!buffer.is_empty());

    let (seq_chunk, consumed) = rfr::chunked::sequence::decode_seq_chunk(&buffer, 0).unwrap();
    assert_eq!(consumed, buffer.len());
    let header = seq_chunk.header;

    assert_eq!(header.seq_id, seq_chunk_buffer.seq_id());
    assert_eq!(
        header.earliest_timestamp,
        seq_chunk_buffer.earliest_timestamp()
    );
    assert_eq!(header.latest_timestamp, seq_chunk_buffer.latest_timestamp());

    assert_eq!(seq_chunk.objects.len(), 1);
    assert_eq!(seq_chunk.objects[0], Object::Task(task));

    assert_eq!(seq_chunk.records.len(), 1);
    assert_eq!(seq_chunk.records[0], record);
}

#[test]
fn skip_events_with_unknown_objects() {
    let mut seq_chunk_buffer = SeqChunkBuffer::new(
        ChunkInterval::from_timestamp_and_period(now_timestamp(), 1_000_000),
        SeqId::from(1),
    );

    let record = Record {
        meta: Meta {
            timestamp: seq_chunk_buffer.chunk_timestamp(&now_timestamp()),
        },
        data: RecordData::TaskNew {
            iid: InstrumentationId::from(5),
        },
    };
    seq_chunk_buffer.append_record(record, |_iids: &Vec<InstrumentationId>| vec![None]);

    assert_eq!(seq_chunk_buffer.event_count(), 0);
}

#[test]
fn only_requests_object_once() {
    let mut buffer = Vec::new();

    let mut seq_chunk_buffer = SeqChunkBuffer::new(
        ChunkInterval::from_timestamp_and_period(now_timestamp(), 1_000_000),
        SeqId::from(1),
    );

    let task = test_task(2);
    let record_1 = Record {
        meta: Meta {
            timestamp: seq_chunk_buffer.chunk_timestamp(&now_timestamp()),
        },
        data: RecordData::TaskNew { iid: task.iid },
    };
    let resolver_task = task.clone();
    seq_chunk_buffer.append_record(record_1, |iids: &Vec<InstrumentationId>| {
        assert_eq!(iids.len(), 1);
        assert_eq!(iids[0], InstrumentationId::from(2));

        vec![Some(Object::Task(resolver_task))]
    });

    let record_2 = Record {
        meta: Meta {
            timestamp: seq_chunk_buffer.chunk_timestamp(&now_timestamp()),
        },
        data: RecordData::TaskDrop { iid: task.iid },
    };
    seq_chunk_buffer.append_record(record_2, |iids: &Vec<InstrumentationId>| {
        assert!(iids.is_empty());

        vec![]
    });

    seq_chunk_buffer.write(&mut buffer);
    assert_eq!(seq_chunk_buffer.event_count(), 2);
}

#[test]
fn blocked_record_is_dropped_without_asking_again() {
    let mut seq_chunk_buffer = SeqChunkBuffer::new(
        ChunkInterval::from_timestamp_and_period(now_timestamp(), 1_000_000),
        SeqId::from(1),
    );

    let record_1 = Record {
        meta: Meta {
            timestamp: seq_chunk_buffer.chunk_timestamp(&now_timestamp()),
        },
        data: RecordData::TaskNew {
            iid: InstrumentationId::from(9),
        },
    };
    seq_chunk_buffer.append_record(record_1, |_iids: &Vec<InstrumentationId>| vec![None]);
    assert_eq!(seq_chunk_buffer.event_count(), 0);

    let record_2 = Record {
        meta: Meta {
            timestamp: seq_chunk_buffer.chunk_timestamp(&now_timestamp()),
        },
        data: RecordData::TaskPollStart {
            iid: InstrumentationId::from(9),
        },
    };
    seq_chunk_buffer.append_record(record_2, |iids: &Vec<InstrumentationId>| {
        assert!(iids.is_empty());
        vec![]
    });
    assert_eq!(seq_chunk_buffer.event_count(), 0);
}

fn test_task(iid: u64) -> Task {
    Task {
        iid: InstrumentationId::from(iid),
        callsite_id: CallsiteId::from(1_u64),
        task_id: TaskId::from(iid),
        task_name: "Cool task".into(),
        task_kind: TaskKind::Task,
        context: None,
    }
}
