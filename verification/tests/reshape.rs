use rfr::chunked::read::read_chunk_from_io;
use rfr::chunked::sequence::SeqId;
use rfr::chunked::{ChunkedWriter, Object, RecordData};
use rfr::collect::{collect_tasks, Data, DynamicId, WakeId, WakerAction};
use rfr::common::{InstrumentationId, Task, TaskId, TaskKind, Waker};
use rfr::callsite::CallsiteId;
use rfr::flow::{task_state_transition, FlowId, TaskState};
use rfr::chunked::read::{ChunkLoader, ChunkLoaderState, ChunkPath, Recording};
use rfr::chunked::ChunkedMeta;
use rfr::timestamp::AbsTimestamp;

fn at(offset_micros: u32) -> AbsTimestamp {
    AbsTimestamp {
        secs: 1_700_000_000,
        subsec_micros: 100_000 + offset_micros,
    }
}

fn task(iid: u64, context: Option<u64>) -> Task {
    Task {
        iid: InstrumentationId::from(iid),
        callsite_id: CallsiteId::from(1_u64),
        task_id: TaskId::from(iid),
        task_name: "worker".into(),
        task_kind: TaskKind::Task,
        context: context.map(InstrumentationId::from),
    }
}

/// Record a couple of tasks and reassemble them into a loaded recording.
fn record_and_load(events: Vec<(AbsTimestamp, RecordData)>, tasks: Vec<Task>) -> Recording {
    let (mut writer, _meta_bytes) = ChunkedWriter::try_new(at(0));
    for (ts, data) in events {
        let resolver_tasks = tasks.clone();
        writer.append_record(ts, SeqId::from(1), data, |iids: &Vec<InstrumentationId>| {
            iids.iter()
                .map(|iid| {
                    resolver_tasks
                        .iter()
                        .find(|t| t.iid == *iid)
                        .cloned()
                        .map(Object::Task)
                })
                .collect()
        });
    }
    let files = writer.write_all_chunks();
    assert_eq!(files.len(), 1);
    let chunk = read_chunk_from_io(&files[0].bytes).unwrap();

    let meta = ChunkedMeta::new(at(0), vec![rfr::chunked::read::chunk_format_version()]);
    let mut loader = ChunkLoader::from_path(ChunkPath::new(files[0].relative_path.clone()));
    loader.state = ChunkLoaderState::Chunk(chunk);
    Recording::from_parts(meta, vec![loader]).unwrap()
}

#[test]
fn spawn_linkage_appears_on_the_spawning_task() {
    let task_a = task(1, None);
    let task_b = task(2, Some(1));
    let recording = record_and_load(
        vec![
            (at(10), RecordData::TaskNew { iid: task_a.iid }),
            (at(20), RecordData::TaskNew { iid: task_b.iid }),
        ],
        vec![task_a.clone(), task_b.clone()],
    );

    let data = collect_tasks(&recording).unwrap();
    assert_eq!(data.tasks.len(), 2);
    assert_eq!(data.largest_did, DynamicId(2));

    // dynamic ids are handed out in first-sight order
    let a = &data.tasks[0];
    let b = &data.tasks[1];
    assert_eq!(a.task.iid, task_a.iid);
    assert_eq!(a.did, DynamicId(1));
    assert_eq!(b.task.iid, task_b.iid);
    assert_eq!(b.did, DynamicId(2));

    // the spawning task carries the synthesized spawn record
    assert_eq!(
        a.records
            .iter()
            .filter(|r| matches!(
                r.data,
                Data::Spawn {
                    spawned_iid: InstrumentationId(2),
                    by_iid: InstrumentationId(1),
                }
            ))
            .count(),
        1
    );
    // the spawned task has its own creation record
    assert!(matches!(b.records[0].data, Data::TaskNew { .. }));
}

#[test]
fn wake_records_share_a_fresh_wake_counter() {
    let task_a = task(1, None);
    let task_b = task(2, Some(1));
    let waker = Waker {
        task_iid: task_b.iid,
        context: Some(task_a.iid),
    };
    let recording = record_and_load(
        vec![
            (at(10), RecordData::TaskNew { iid: task_a.iid }),
            (at(20), RecordData::TaskNew { iid: task_b.iid }),
            (at(30), RecordData::WakerWake { waker }),
        ],
        vec![task_a.clone(), task_b.clone()],
    );

    let data = collect_tasks(&recording).unwrap();
    let a = &data.tasks[0];
    let b = &data.tasks[1];

    // the woken task sees the wake under counter one
    assert!(b.records.iter().any(|r| r.data
        == Data::WakerWoken {
            woken_by: Some(task_a.iid),
            action: WakerAction::Consume,
            wid: WakeId(1),
        }));
    // the waking task sees the same wake under the same counter
    assert!(a.records.iter().any(|r| r.data
        == Data::WakerWake {
            woken: task_b.iid,
            action: WakerAction::Consume,
            wid: WakeId(1),
        }));
    assert_eq!(b.greatest_wid, WakeId(1));
}

#[test]
fn state_machine_walks_one_task_lifecycle() {
    let did = DynamicId(2);
    let wid = WakeId(1);

    let mut state = TaskState::Unknown;
    let mut links: Vec<Option<FlowId>> = Vec::new();

    let events = vec![
        Data::TaskNew {
            iid: InstrumentationId::from(2),
        },
        Data::WakerWoken {
            woken_by: Some(InstrumentationId::from(1)),
            action: WakerAction::Consume,
            wid,
        },
        Data::TaskPollStart {
            iid: InstrumentationId::from(2),
        },
        Data::TaskPollEnd {
            iid: InstrumentationId::from(2),
        },
        Data::TaskDrop {
            iid: InstrumentationId::from(2),
        },
    ];

    let mut states = vec![state];
    for event in &events {
        let (next, link) = task_state_transition(state, did, event);
        state = next;
        links.push(link);
        states.push(state);
    }

    let wake_flow = FlowId(2 + (1 << 53));
    assert_eq!(
        states,
        vec![
            TaskState::Unknown,
            TaskState::Idle,
            TaskState::IdleScheduled {
                wake_flow_id: wake_flow
            },
            TaskState::Polling,
            TaskState::Idle,
            TaskState::Dropped,
        ]
    );
    // the poll that consumes the wake carries its flow identifier
    assert_eq!(links, vec![None, None, Some(wake_flow), None, None]);
}

#[test]
fn flow_ids_separate_spawns_and_wakes() {
    assert_eq!(FlowId::spawn(DynamicId(5)).0, 5 | (1 << 63));
    assert_eq!(FlowId::wake(DynamicId(5), WakeId(3)).0, 5 | (3 << 53));
    assert_eq!(FlowId::max_dynamic_id(), 1 << 53);
}
