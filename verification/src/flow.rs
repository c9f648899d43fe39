//! Flow identifiers and the derived task-state machine.
//!
//! Trace viewers link related events by a single 64-bit flow identifier.
//! The identifier multiplexes three meanings into one namespace: the top
//! bit marks a spawn link, the next ten bits carry a wake counter, and the
//! remaining bits carry the task's compact dynamic id. The state machine
//! replays a task's records and says which timeline slice each moment
//! belongs to, carrying the flow identifier that links a wake to the poll
//! consuming it.

use vstd::prelude::*;

use crate::collect::{Data, DynamicId, WakeId};

verus! {

/// The largest factor a wake counter is shifted by: the flow identifier
/// keeps the dynamic id below this.
pub const FLOW_DYNAMIC_ID_SPAN: u64 = 0x20_0000_0000_0000;

/// The top bit of a flow identifier, marking a spawn link.
pub const FLOW_SPAWN_MARK: u64 = 0x8000_0000_0000_0000;

/// A 64-bit identifier linking related trace events.
#[derive(Debug, Clone, Copy, PartialEq, Eq, Structural)]
pub struct FlowId(pub u64);

impl FlowId {
    /// The flow identifier linking a spawn to the spawned task: the
    /// dynamic id with the spawn mark set.
    pub fn spawn(spawned_did: DynamicId) -> (r: FlowId)
        requires
            spawned_did.0 < FLOW_DYNAMIC_ID_SPAN,
        ensures
            r.0 == spawned_did.0 + FLOW_SPAWN_MARK,
    {
        FlowId(spawned_did.0 + FLOW_SPAWN_MARK)
    }

    /// The flow identifier linking a wake to the poll that consumes it:
    /// the woken task's dynamic id with the low ten bits of the wake
    /// counter above it.
    pub fn wake(woken_did: DynamicId, wid: WakeId) -> (r: FlowId)
        requires
            woken_did.0 < FLOW_DYNAMIC_ID_SPAN,
        ensures
            r.0 == woken_did.0 + (wid.0 % 1024) * FLOW_DYNAMIC_ID_SPAN,
    {
        proof {
            assert((wid.0 % 1024) * FLOW_DYNAMIC_ID_SPAN <= 1023 * FLOW_DYNAMIC_ID_SPAN) by (
            nonlinear_arith)
                requires
                    wid.0 % 1024 <= 1023,
            ;
        }
        FlowId(woken_did.0 + (wid.0 % 1024) * FLOW_DYNAMIC_ID_SPAN)
    }

    /// The first dynamic id too large to fit in a flow identifier.
    pub fn max_dynamic_id() -> (r: u64)
        ensures
            r == FLOW_DYNAMIC_ID_SPAN,
    {
        FLOW_DYNAMIC_ID_SPAN
    }
}

/// The derived state of a task between records.
#[derive(Debug, Clone, Copy, PartialEq, Eq, Structural)]
pub enum TaskState {
    /// Nothing is known of the task yet.
    Unknown,
    /// The task exists and is neither scheduled nor being polled.
    Idle,
    /// The task has been woken and awaits its next poll, which the carried
    /// flow identifier links back to the wake.
    IdleScheduled {
        /// The flow identifier of the pending wake.
        wake_flow_id: FlowId,
    },
    /// The task is being polled.
    Polling,
    /// The task is being polled and has already been woken again.
    PollingScheduled {
        /// The flow identifier of the pending wake.
        wake_flow_id: FlowId,
    },
    /// The task has been dropped.
    Dropped,
}

/// Replay one record against a task's state.
///
/// A creation puts the task at rest; a wake schedules it, from whatever
/// state it was in; the start of a poll makes it active, returning the
/// pending wake's flow identifier when one was scheduled so the emitter
/// can close the scheduled slice with that link; the end of a poll puts it
/// back at rest, or back to scheduled when it was woken while being
/// polled; a drop ends it. Records that do not concern the task's own
/// lifecycle leave the state as it is.
pub fn task_state_transition(state: TaskState, did: DynamicId, data: &Data) -> (r: (
    TaskState,
    Option<FlowId>,
))
    requires
        did.0 < FLOW_DYNAMIC_ID_SPAN,
    ensures
        ({
            let (next, link) = r;
            match data {
                Data::TaskNew { .. } => next == TaskState::Idle && link is None,
                Data::WakerWoken { wid, .. } => {
                    let flow = FlowId((did.0 + (wid.0 % 1024) * FLOW_DYNAMIC_ID_SPAN) as u64);
                    &&& next == (if state == TaskState::Polling {
                        TaskState::PollingScheduled { wake_flow_id: flow }
                    } else {
                        TaskState::IdleScheduled { wake_flow_id: flow }
                    })
                    &&& link is None
                },
                Data::TaskPollStart { .. } => {
                    &&& next == TaskState::Polling
                    &&& link == (match state {
                        TaskState::IdleScheduled { wake_flow_id } => Some(wake_flow_id),
                        _ => None::<FlowId>,
                    })
                },
                Data::TaskPollEnd { .. } => {
                    &&& next == (match state {
                        TaskState::PollingScheduled { wake_flow_id } => TaskState::IdleScheduled {
                            wake_flow_id,
                        },
                        _ => TaskState::Idle,
                    })
                    &&& link is None
                },
                Data::TaskDrop { .. } => next == TaskState::Dropped && link is None,
                _ => next == state && link is None,
            }
        }),
{
    match data {
        Data::TaskNew { .. } => (TaskState::Idle, None),
        Data::WakerWoken { wid, .. } => {
            let flow = FlowId::wake(did, *wid);
            match state {
                TaskState::Polling => (TaskState::PollingScheduled { wake_flow_id: flow }, None),
                _ => (TaskState::IdleScheduled { wake_flow_id: flow }, None),
            }
        },
        Data::TaskPollStart { .. } => {
            match state {
                TaskState::IdleScheduled { wake_flow_id } => (
                    TaskState::Polling,
                    Some(wake_flow_id),
                ),
                _ => (TaskState::Polling, None),
            }
        },
        Data::TaskPollEnd { .. } => {
            match state {
                TaskState::PollingScheduled { wake_flow_id } => (
                    TaskState::IdleScheduled { wake_flow_id },
                    None,
                ),
                _ => (TaskState::Idle, None),
            }
        },
        Data::TaskDrop { .. } => (TaskState::Dropped, None),
        _ => (state, None),
    }
}

} // verus!
