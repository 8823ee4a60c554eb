//! Execution guard and the sweep's per-task decisions. The outside work of a
//! sweep (session lookup, the clock-in action, notifications) is performed
//! by the caller, which hands each task's outcome back as a `SweepEvent`.

use vstd::prelude::*;
use vstd::string::StringExecFns;
use crate::store::{sorted_by_time, sort_by_time_vec, stable_sort_by_time, SchedulerStore};
use crate::types::{ScheduledTask, TaskStatus, TaskV};

verus! {

/// The "sweep in progress" flag. A sweep runs only between a successful
/// `try_acquire` and the matching `release`; a trigger that fails to acquire
/// performs no task processing.
pub struct SweepGuard {
    pub running: bool,
}

impl SweepGuard {
    pub fn new() -> (g: Self)
        ensures
            !g.running,
    {
        SweepGuard { running: false }
    }

    /// Attempts to start a sweep. While one is already in progress the
    /// attempt fails and the guard state is unchanged.
    pub fn try_acquire(&mut self) -> (r: bool)
        ensures
            r == !old(self).running,
            final(self).running,
            old(self).running ==> *final(self) == *old(self),
    {
        if self.running {
            false
        } else {
            self.running = true;
            true
        }
    }

    /// Ends the sweep; always resets the flag, whatever path reached it.
    pub fn release(&mut self)
        ensures
            !final(self).running,
    {
        self.running = false;
    }
}

/// Whether a task is due: pending, with its instant at or before now.
pub open spec fn is_due(t: ScheduledTask, now_ms: i64) -> bool {
    t.status == TaskStatus::Pending && t.scheduled_time <= now_ms
}

/// Snapshot of the tasks a sweep must process: every due task, earliest
/// first, equal due instants in store order.
pub fn due_tasks(store: &SchedulerStore, now_ms: i64) -> (r: Vec<ScheduledTask>)
    requires
        store.wf(),
    ensures
        sorted_by_time(r@),
        r@.to_multiset() == store.tasks@.filter(|t: ScheduledTask| is_due(t, now_ms)).to_multiset(),
        r@ == stable_sort_by_time(store.tasks@.filter(|t: ScheduledTask| is_due(t, now_ms))),
{
    let mut out: Vec<ScheduledTask> = Vec::new();
    let n = store.tasks.len();
    let mut i: usize = 0;
    proof {
        reveal(Seq::filter);
        assert(store.tasks@.take(0).filter(|t: ScheduledTask| is_due(t, now_ms)) =~= Seq::<
            ScheduledTask,
        >::empty());
    }
    while i < n
        invariant
            n == store.tasks@.len(),
            0 <= i <= n,
            out@ == store.tasks@.take(i as int).filter(|t: ScheduledTask| is_due(t, now_ms)),
        decreases n - i,
    {
        proof {
            reveal(Seq::filter);
            assert(store.tasks@.take(i + 1).drop_last() =~= store.tasks@.take(i as int));
            assert(store.tasks@.take(i + 1).last() == store.tasks@[i as int]);
        }
        let t = &store.tasks[i];
        if t.status == TaskStatus::Pending && t.scheduled_time <= now_ms {
            out.push(t.clone());
        }
        i += 1;
    }
    proof {
        assert(store.tasks@.take(n as int) =~= store.tasks@);
    }
    sort_by_time_vec(&mut out);
    out
}

/// What a sweep learned about one due task: its owner's session is missing,
/// the session had expired, or the injected action succeeded or failed.
#[derive(Debug)]
pub enum SweepEvent {
    SessionMissing,
    SessionExpired,
    ActionSucceeded,
    ActionFailed(String),
}

/// The terminal error a sweep outcome records, if any.
pub open spec fn outcome_error_view(event: SweepEvent) -> Option<Seq<char>> {
    match event {
        SweepEvent::SessionMissing => Some("User not found"@),
        SweepEvent::SessionExpired => Some("Session expired"@),
        SweepEvent::ActionSucceeded => None,
        SweepEvent::ActionFailed(e) => Some(e@),
    }
}

/// Folds one task's outcome back into the store: exactly one terminal
/// transition for that id, every other record untouched. A missing or
/// expired session consumes the task with a fixed error; an action failure
/// records the capability's error text; success records none. Returns false
/// exactly when the id is unknown.
pub fn apply_sweep_outcome(
    store: &mut SchedulerStore,
    task_id: &String,
    event: SweepEvent,
    now_ms: i64,
) -> (r: bool)
    requires
        old(store).wf(),
    ensures
        final(store).wf(),
        r == old(store).has_id(task_id@),
        !r ==> final(store).tasks@ == old(store).tasks@,
        forall|i: int|
            0 <= i < old(store).tasks@.len() && old(store).tasks@[i].id@ == task_id@ ==> {
                &&& final(store).tasks@.len() == old(store).tasks@.len()
                &&& (forall|k: int|
                    0 <= k < old(store).tasks@.len() && k != i ==> final(store).tasks@[k] == old(
                        store,
                    ).tasks@[k])
                &&& final(store).tasks@[i]@ == (TaskV {
                    status: if outcome_error_view(event) is Some {
                        TaskStatus::Failed
                    } else {
                        TaskStatus::Executed
                    },
                    executed_at: Some(now_ms as int),
                    error: outcome_error_view(event),
                    ..old(store).tasks@[i]@
                })
                &&& final(store).tasks@[i].status != TaskStatus::Pending
            },
{
    let error: Option<String> = match event {
        SweepEvent::SessionMissing => Some(String::from_str("User not found")),
        SweepEvent::SessionExpired => Some(String::from_str("Session expired")),
        SweepEvent::ActionSucceeded => None,
        SweepEvent::ActionFailed(e) => Some(e),
    };
    store.mark_executed(task_id, error, now_ms)
}

} // verus!
