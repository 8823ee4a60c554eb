//! In-memory task store: insertion, per-owner and pending listings sorted by
//! due time, and terminal-state transitions. Persistence of the collection is
//! a caller concern; `codec` renders and reloads the records.

use vstd::prelude::*;
use crate::types::{Lang, ScheduledTask, TaskStatus, TaskV};

verus! {

/// A single task record is internally consistent: it is pending exactly when
/// no execution instant is stamped, and it carries an error exactly when it
/// failed.
pub open spec fn task_wf(t: TaskV) -> bool {
    &&& (t.status == TaskStatus::Pending <==> t.executed_at is None)
    &&& (t.status == TaskStatus::Failed <==> t.error is Some)
}

/// Listing order: ascending by due instant.
pub open spec fn sorted_by_time(s: Seq<ScheduledTask>) -> bool {
    forall|i: int, j: int|
        0 <= i <= j < s.len() ==> s[i].scheduled_time <= s[j].scheduled_time
}

/// The record a terminal transition produces: success stamps the execution
/// instant and clears the error; failure stamps the instant and records the
/// reason.
pub open spec fn mark_spec(t: ScheduledTask, error: Option<String>, now_ms: i64) -> ScheduledTask {
    match error {
        None => ScheduledTask {
            status: TaskStatus::Executed,
            executed_at: Some(now_ms),
            error: None,
            ..t
        },
        Some(e) => ScheduledTask {
            status: TaskStatus::Failed,
            executed_at: Some(now_ms),
            error: Some(e),
            ..t
        },
    }
}

/// Every task keeps its record invariant and no two records share an id.
pub open spec fn tasks_wf(s: Seq<ScheduledTask>) -> bool {
    &&& forall|i: int| 0 <= i < s.len() ==> task_wf(#[trigger] s[i]@)
    &&& forall|i: int, j: int|
        0 <= i < j < s.len() ==> (#[trigger] s[i]).id@ != (#[trigger] s[j]).id@
}

/// Durable collection of scheduled actions, keyed by generated ids.
#[derive(Debug)]
pub struct SchedulerStore {
    pub tasks: Vec<ScheduledTask>,
}

impl SchedulerStore {
    pub open spec fn wf(self) -> bool {
        tasks_wf(self.tasks@)
    }

    pub open spec fn has_id(self, id: Seq<char>) -> bool {
        exists|i: int| 0 <= i < self.tasks@.len() && (#[trigger] self.tasks@[i]).id@ == id
    }

    /// An empty store.
    pub fn new() -> (s: Self)
        ensures
            s.wf(),
            s.tasks@.len() == 0,
    {
        SchedulerStore { tasks: Vec::new() }
    }

    /// Rebuilds a store from reloaded records. A collection that breaks the
    /// store invariant counts as corrupt and is replaced by an empty one.
    pub fn from_tasks(tasks: Vec<ScheduledTask>) -> (s: Self)
        ensures
            s.wf(),
            tasks_wf(tasks@) ==> s.tasks@ == tasks@,
            !tasks_wf(tasks@) ==> s.tasks@.len() == 0,
    {
        let n = tasks.len();
        let mut ok = true;
        let mut i: usize = 0;
        while i < n
            invariant
                n == tasks@.len(),
                0 <= i <= n,
                ok <==> (forall|k: int| 0 <= k < i ==> task_wf(#[trigger] tasks@[k]@)),
            decreases n - i,
        {
            let t = &tasks[i];
            let pending_matches = (t.status == TaskStatus::Pending) == t.executed_at.is_none();
            let failure_matches = (t.status == TaskStatus::Failed) == t.error.is_some();
            let t_ok = pending_matches && failure_matches;
            proof {
                assert(t_ok == task_wf(tasks@[i as int]@));
            }
            ok = ok && t_ok;
            i += 1;
        }
        let mut j: usize = 0;
        while j < n
            invariant
                n == tasks@.len(),
                0 <= j <= n,
                ok <==> (all_records_wf(tasks@) && forall|p: int, q: int|
                    0 <= p < q < j ==> tasks@[p].id@ != tasks@[q].id@),
            decreases n - j,
        {
            let mut k: usize = 0;
            while k < j
                invariant
                    n == tasks@.len(),
                    0 <= k <= j < n,
                    ok <==> (all_records_wf(tasks@) && (forall|p: int, q: int|
                        0 <= p < q < j ==> tasks@[p].id@ != tasks@[q].id@) && forall|p: int|
                        0 <= p < k ==> tasks@[p].id@ != tasks@[j as int].id@),
                decreases j - k,
            {
                if tasks[k].id == tasks[j].id {
                    ok = false;
                }
                k += 1;
            }
            j += 1;
        }
        if ok {
            SchedulerStore { tasks }
        } else {
            SchedulerStore { tasks: Vec::new() }
        }
    }
    /// Inserts a fresh pending task under the given id. The insertion is
    /// refused, and the store left unchanged, only when the id is already
    /// taken.
    pub fn add_task(
        &mut self,
        id: String,
        user_id: i64,
        scheduled_time: i64,
        lang: Lang,
        locale: String,
        time_zone: String,
        now_ms: i64,
    ) -> (r: Option<ScheduledTask>)
        requires
            old(self).wf(),
        ensures
            final(self).wf(),
            match r {
                Some(t) => {
                    &&& !old(self).has_id(id@)
                    &&& t.id@ == id@
                    &&& t.user_id == user_id
                    &&& t.lang == lang
                    &&& t.locale@ == locale@
                    &&& t.time_zone@ == time_zone@
                    &&& t.scheduled_time == scheduled_time
                    &&& t.created_at == now_ms
                    &&& t.executed_at is None
                    &&& t.status == TaskStatus::Pending
                    &&& t.error is None
                    &&& final(self).tasks@ == old(self).tasks@.push(t)
                },
                None => old(self).has_id(id@) && final(self).tasks@ == old(self).tasks@,
            },
    {
        if self.contains_id(&id) {
            return None;
        }
        let task = ScheduledTask {
            id,
            user_id,
            lang,
            locale,
            time_zone,
            scheduled_time,
            created_at: now_ms,
            executed_at: None,
            status: TaskStatus::Pending,
            error: None,
        };
        let copy = task.clone();
        self.tasks.push(task);
        proof {
            assert forall|i: int, j: int|
                0 <= i < j < self.tasks@.len() implies self.tasks@[i].id@ != self.tasks@[j].id@ by {
                if j == self.tasks@.len() - 1 {
                    assert(old(self).tasks@[i].id@ != copy.id@);
                }
            }
        }
        Some(copy)
    }

    /// Inserts a fresh pending task under a newly generated id. `None` is the
    /// (never observed in practice) case of the generated 36-character id
    /// colliding with an existing one, so it can only occur when the store
    /// already holds a record with a 36-character id; on an empty store the
    /// insertion always succeeds.
    pub fn add(
        &mut self,
        user_id: i64,
        scheduled_time: i64,
        lang: Lang,
        locale: String,
        time_zone: String,
        now_ms: i64,
    ) -> (r: Option<ScheduledTask>)
        requires
            old(self).wf(),
        ensures
            final(self).wf(),
            match r {
                Some(t) => {
                    &&& !old(self).has_id(t.id@)
                    &&& t.user_id == user_id
                    &&& t.lang == lang
                    &&& t.locale@ == locale@
                    &&& t.time_zone@ == time_zone@
                    &&& t.scheduled_time == scheduled_time
                    &&& t.created_at == now_ms
                    &&& t.executed_at is None
                    &&& t.status == TaskStatus::Pending
                    &&& t.error is None
                    &&& final(self).tasks@ == old(self).tasks@.push(t)
                },
                None => final(self).tasks@ == old(self).tasks@ && exists|i: int|
                    0 <= i < old(self).tasks@.len() && (#[trigger] old(self).tasks@[i]).id@.len()
                        == 36,
            },
            old(self).tasks@.len() == 0 ==> r is Some,
    {
        let id = fresh_task_id();
        let ghost idv = id@;
        let r = self.add_task(id, user_id, scheduled_time, lang, locale, time_zone, now_ms);
        proof {
            if r is None {
                let i = choose|i: int|
                    0 <= i < old(self).tasks@.len() && (#[trigger] old(self).tasks@[i]).id@ == idv;
                assert(old(self).tasks@[i].id@.len() == 36);
            }
        }
        r
    }

    /// Whether some record carries this id.
    pub fn contains_id(&self, id: &String) -> (r: bool)
        ensures
            r == self.has_id(id@),
    {
        let n = self.tasks.len();
        let mut i: usize = 0;
        while i < n
            invariant
                n == self.tasks@.len(),
                0 <= i <= n,
                forall|k: int| 0 <= k < i ==> #[trigger] self.tasks@[k].id@ != id@,
            decreases n - i,
        {
            if self.tasks[i].id == *id {
                return true;
            }
            i += 1;
        }
        false
    }

    /// Terminal transition: with no error the task becomes `Executed`; with
    /// an error it becomes `Failed` and the reason is recorded. Either way
    /// the execution instant is stamped. Returns false exactly when the id is
    /// unknown, in which case nothing changes. Re-invoking on an already
    /// terminal task overwrites its terminal state.
    pub fn mark_executed(&mut self, id: &String, error: Option<String>, now_ms: i64) -> (r: bool)
        requires
            old(self).wf(),
        ensures
            final(self).wf(),
            r == old(self).has_id(id@),
            !r ==> final(self).tasks@ == old(self).tasks@,
            forall|i: int|
                0 <= i < old(self).tasks@.len() && old(self).tasks@[i].id@ == id@
                    ==> final(self).tasks@ == old(self).tasks@.update(
                    i,
                    mark_spec(old(self).tasks@[i], error, now_ms),
                ),
            final(self).has_id(id@) == old(self).has_id(id@),
    {
        let n = self.tasks.len();
        let mut i: usize = 0;
        while i < n
            invariant
                n == self.tasks@.len(),
                0 <= i <= n,
                *self == *old(self),
                old(self).wf(),
                forall|k: int| 0 <= k < i ==> #[trigger] self.tasks@[k].id@ != id@,
            decreases n - i,
        {
            if self.tasks[i].id == *id {
                match error {
                    Some(e) => {
                        self.tasks[i].status = TaskStatus::Failed;
                        self.tasks[i].executed_at = Some(now_ms);
                        self.tasks[i].error = Some(e);
                    },
                    None => {
                        self.tasks[i].status = TaskStatus::Executed;
                        self.tasks[i].executed_at = Some(now_ms);
                        self.tasks[i].error = None;
                    },
                }
                proof {
                    let ot = old(self).tasks@;
                    let ft = self.tasks@;
                    assert(ft =~= ot.update(i as int, mark_spec(ot[i as int], error, now_ms)));
                    assert(forall|k: int| 0 <= k < ft.len() && k != i ==> ft[k] == ot[k]);
                    assert(ft[i as int].id@ == id@);
                    assert(task_wf(ft[i as int]@));
                    assert forall|k: int| 0 <= k < ft.len() implies task_wf(#[trigger] ft[k]@) by {
                        if k != i {
                            assert(ft[k] == ot[k]);
                            assert(task_wf(ot[k]@));
                        }
                    }
                    assert forall|p: int, q: int|
                        0 <= p < q < ft.len() implies (#[trigger] ft[p]).id@ != (#[trigger] ft[q]).id@ by {
                        assert(ft[p].id@ == ot[p].id@);
                        assert(ft[q].id@ == ot[q].id@);
                    }
                    assert forall|k: int|
                        0 <= k < ot.len() && (#[trigger] ot[k]).id@ == id@ implies k == i by {
                        if k < i {
                            assert(ot[k].id@ != id@);
                        } else if k > i {
                            assert(ot[i as int].id@ != ot[k].id@);
                        }
                    }
                }
                return true;
            }
            i += 1;
        }
        false
    }

    /// Cancels a task: it becomes `Failed` with the fixed sentinel reason,
    /// and its execution instant is stamped. Returns false exactly when the
    /// id is unknown.
    pub fn cancel(&mut self, id: &String, now_ms: i64) -> (r: bool)
        requires
            old(self).wf(),
        ensures
            final(self).wf(),
            r == old(self).has_id(id@),
            !r ==> final(self).tasks@ == old(self).tasks@,
            forall|i: int|
                0 <= i < old(self).tasks@.len() && old(self).tasks@[i].id@ == id@
                    ==> final(self).tasks@.len() == old(self).tasks@.len()
                    && final(self).tasks@[i]@ == (TaskV {
                    status: TaskStatus::Failed,
                    executed_at: Some(now_ms as int),
                    error: Some("cancelled"@),
                    ..old(self).tasks@[i]@
                }) && (forall|k: int|
                    0 <= k < old(self).tasks@.len() && k != i ==> final(self).tasks@[k] == old(
                        self,
                    ).tasks@[k]),
    {
        let reason = String::from_str("cancelled");
        self.mark_executed(id, Some(reason), now_ms)
    }

    /// All pending tasks, earliest due first; records with equal due
    /// instants keep their store order.
    pub fn get_pending(&self) -> (r: Vec<ScheduledTask>)
        requires
            self.wf(),
        ensures
            sorted_by_time(r@),
            r@.to_multiset() == self.tasks@.filter(
                |t: ScheduledTask| t.status == TaskStatus::Pending,
            ).to_multiset(),
            r@ == stable_sort_by_time(
                self.tasks@.filter(|t: ScheduledTask| t.status == TaskStatus::Pending),
            ),
    {
        let mut out: Vec<ScheduledTask> = Vec::new();
        let n = self.tasks.len();
        let mut i: usize = 0;
        while i < n
            invariant
                n == self.tasks@.len(),
                0 <= i <= n,
                out@ == self.tasks@.take(i as int).filter(
                    |t: ScheduledTask| t.status == TaskStatus::Pending,
                ),
            decreases n - i,
        {
            proof {
                reveal(Seq::filter);
                assert(self.tasks@.take(i + 1).drop_last() =~= self.tasks@.take(i as int));
                assert(self.tasks@.take(i + 1).last() == self.tasks@[i as int]);
            }
            if self.tasks[i].status == TaskStatus::Pending {
                out.push(self.tasks[i].clone());
            }
            i += 1;
        }
        proof {
            assert(self.tasks@.take(n as int) =~= self.tasks@);
        }
        sort_by_time_vec(&mut out);
        out
    }

    /// All of one owner's tasks, earliest due first; records with equal due
    /// instants keep their store order.
    pub fn get_by_user(&self, user_id: i64) -> (r: Vec<ScheduledTask>)
        requires
            self.wf(),
        ensures
            sorted_by_time(r@),
            r@.to_multiset() == self.tasks@.filter(
                |t: ScheduledTask| t.user_id == user_id,
            ).to_multiset(),
            r@ == stable_sort_by_time(self.tasks@.filter(|t: ScheduledTask| t.user_id == user_id)),
    {
        let mut out: Vec<ScheduledTask> = Vec::new();
        let n = self.tasks.len();
        let mut i: usize = 0;
        while i < n
            invariant
                n == self.tasks@.len(),
                0 <= i <= n,
                out@ == self.tasks@.take(i as int).filter(
                    |t: ScheduledTask| t.user_id == user_id,
                ),
            decreases n - i,
        {
            proof {
                reveal(Seq::filter);
                assert(self.tasks@.take(i + 1).drop_last() =~= self.tasks@.take(i as int));
                assert(self.tasks@.take(i + 1).last() == self.tasks@[i as int]);
            }
            if self.tasks[i].user_id == user_id {
                out.push(self.tasks[i].clone());
            }
            i += 1;
        }
        proof {
            assert(self.tasks@.take(n as int) =~= self.tasks@);
        }
        sort_by_time_vec(&mut out);
        out
    }
}

/// Every record in the collection satisfies the record invariant.
pub open spec fn all_records_wf(s: Seq<ScheduledTask>) -> bool {
    forall|k: int| 0 <= k < s.len() ==> task_wf(#[trigger] s[k]@)
}

/// A task is pending exactly while no execution instant is stamped, and any
/// terminal transition leaves the pending state for good: the transitioned
/// record is no longer pending, carries an execution instant, and still
/// satisfies the record invariant, so the id can be transitioned again.
pub proof fn lemma_terminal_transition(t: ScheduledTask, error: Option<String>, now_ms: i64)
    ensures
        mark_spec(t, error, now_ms).status != TaskStatus::Pending,
        mark_spec(t, error, now_ms)@.executed_at is Some,
        task_wf(mark_spec(t, error, now_ms)@),
        mark_spec(t, error, now_ms).id == t.id,
{
}

/// Relies on uuid::Uuid::new_v4 and its hyphenated Display form: a fresh
/// random version-4 identifier rendered as 36 characters. Nothing is assumed
/// about distinctness; callers re-check against the ids already present.
#[verifier::external_body]
fn fresh_task_id() -> (r: String)
    ensures
        r@.len() == 36,
{
    uuid::Uuid::new_v4().to_string()
}

/// Where a record enters a sorted listing: before the first strictly later
/// one, so records with equal due instants keep their left-to-right order.
pub open spec fn insert_by_time(s: Seq<ScheduledTask>, t: ScheduledTask) -> Seq<ScheduledTask>
    decreases s.len(),
{
    if s.len() > 0 && s[0].scheduled_time <= t.scheduled_time {
        seq![s[0]] + insert_by_time(s.drop_first(), t)
    } else {
        seq![t] + s
    }
}

/// Stable ascending order by due instant: the listing every store read
/// returns, a function of the records alone.
pub open spec fn stable_sort_by_time(s: Seq<ScheduledTask>) -> Seq<ScheduledTask>
    decreases s.len(),
{
    if s.len() == 0 {
        Seq::empty()
    } else {
        insert_by_time(stable_sort_by_time(s.drop_last()), s.last())
    }
}

/// Inserting before the first strictly later element of a sorted sequence
/// is insertion at that element's index.
proof fn lemma_insert_at(s: Seq<ScheduledTask>, t: ScheduledTask, j: int)
    requires
        sorted_by_time(s),
        0 <= j <= s.len(),
        forall|k: int| 0 <= k < j ==> (#[trigger] s[k]).scheduled_time <= t.scheduled_time,
        j < s.len() ==> s[j].scheduled_time > t.scheduled_time,
    ensures
        insert_by_time(s, t) == s.insert(j, t),
    decreases j,
{
    if j == 0 {
        assert(seq![t] + s =~= s.insert(0, t));
    } else {
        assert(s[0].scheduled_time <= t.scheduled_time);
        let rest = s.drop_first();
        assert(forall|k: int| 0 <= k < rest.len() ==> #[trigger] rest[k] == s[k + 1]);
        assert forall|a: int, b: int|
            0 <= a <= b < rest.len() implies (#[trigger] rest[a]).scheduled_time
            <= (#[trigger] rest[b]).scheduled_time by {
            assert(rest[a] == s[a + 1]);
            assert(rest[b] == s[b + 1]);
        }
        lemma_insert_at(rest, t, j - 1);
        assert(seq![s[0]] + rest.insert(j - 1, t) =~= s.insert(j, t));
    }
}

/// Sorts the records into the stable ascending order, keeping exactly the
/// same collection of records.
pub(crate) fn sort_by_time_vec(v: &mut Vec<ScheduledTask>)
    ensures
        sorted_by_time(final(v)@),
        final(v)@.to_multiset() == old(v)@.to_multiset(),
        final(v)@ == stable_sort_by_time(old(v)@),
{
    broadcast use vstd::seq_lib::group_to_multiset_ensures;

    let n = v.len();
    if n <= 1 {
        proof {
            if v@.len() == 0 {
                assert(stable_sort_by_time(v@) =~= v@);
            } else {
                assert(v@.drop_last() =~= Seq::<ScheduledTask>::empty());
                assert(stable_sort_by_time(Seq::<ScheduledTask>::empty())
                    =~= Seq::<ScheduledTask>::empty());
                assert(insert_by_time(Seq::<ScheduledTask>::empty(), v@.last()) =~= seq![
                    v@.last()]);
                assert(stable_sort_by_time(v@) =~= v@);
            }
        }
        return ;
    }
    let mut i: usize = 1;
    proof {
        let first = v@.take(1);
        assert(first.drop_last() =~= Seq::<ScheduledTask>::empty());
        assert(stable_sort_by_time(Seq::<ScheduledTask>::empty())
            =~= Seq::<ScheduledTask>::empty());
        assert(insert_by_time(Seq::<ScheduledTask>::empty(), first.last()) =~= seq![first.last()]);
        assert(stable_sort_by_time(first) =~= first);
        assert(v@.take(1) == stable_sort_by_time(v@.take(1)));
    }
    while i < n
        invariant
            n == v@.len(),
            n == old(v)@.len(),
            1 <= i <= n,
            sorted_by_time(v@.take(i as int)),
            v@.to_multiset() == old(v)@.to_multiset(),
            v@.take(i as int) == stable_sort_by_time(old(v)@.take(i as int)),
            v@.skip(i as int) == old(v)@.skip(i as int),
        decreases n - i,
    {
        broadcast use vstd::seq_lib::group_to_multiset_ensures;

        let ghost pre = v@;
        let x = v.remove(i);
        let ghost mid = v@;
        proof {
            assert(mid.take(i as int) =~= pre.take(i as int));
        }
        let mut j: usize = 0;
        while j < i && v[j].scheduled_time <= x.scheduled_time
            invariant
                i < n,
                n == mid.len() + 1,
                v@ == mid,
                0 <= j <= i,
                forall|k: int|
                    0 <= k < j ==> (#[trigger] mid[k]).scheduled_time <= x.scheduled_time,
            decreases i - j,
        {
            j += 1;
        }
        v.insert(j, x);
        proof {
            let fin = v@;
            let sp = pre.take(i as int);
            mid.insert_ensures(j as int, x);
            assert(fin == mid.insert(j as int, x));
            assert(fin.to_multiset() == mid.to_multiset().insert(x));
            assert(mid.to_multiset() == pre.to_multiset().remove(x));
            assert(pre.contains(x)) by {
                assert(pre[i as int] == x);
            }
            assert(fin.to_multiset() =~= pre.to_multiset());
            assert(forall|k: int| 0 <= k < i ==> #[trigger] mid[k] == sp[k]);
            assert(fin[j as int] == x);
            assert(j < i ==> mid[j as int].scheduled_time > x.scheduled_time);
            assert forall|k: int| j < k <= i implies (#[trigger] fin[k]).scheduled_time
                >= x.scheduled_time by {
                assert(fin[k] == mid[k - 1]);
                assert(mid[k - 1] == sp[k - 1]);
                assert(sp[j as int].scheduled_time <= sp[k - 1].scheduled_time);
            }
            assert forall|p: int, q: int|
                0 <= p <= q <= i implies (#[trigger] fin[p]).scheduled_time
                <= (#[trigger] fin[q]).scheduled_time by {
                if q < j {
                    assert(fin[p] == sp[p] && fin[q] == sp[q]);
                } else if q == j {
                    if p < j {
                        assert(fin[p] == sp[p]);
                        assert(sp[p].scheduled_time <= x.scheduled_time);
                    }
                } else {
                    assert(fin[q].scheduled_time >= x.scheduled_time);
                    if p < j {
                        assert(fin[p] == sp[p]);
                        assert(sp[p].scheduled_time <= x.scheduled_time);
                    } else if p == j {
                        assert(fin[p] == x);
                    } else {
                        assert(fin[p] == sp[p - 1] && fin[q] == sp[q - 1]);
                        assert(sp[p - 1].scheduled_time <= sp[q - 1].scheduled_time);
                    }
                }
            }
            assert forall|p: int, q: int|
                0 <= p <= q < fin.take(i + 1).len() implies (#[trigger] fin.take(
                i + 1,
            )[p]).scheduled_time <= (#[trigger] fin.take(i + 1)[q]).scheduled_time by {
                assert(fin.take(i + 1)[p] == fin[p]);
                assert(fin.take(i + 1)[q] == fin[q]);
            }
            assert(sorted_by_time(fin.take(i + 1)));
            assert(pre.skip(i as int)[0] == pre[i as int]);
            assert(old(v)@.skip(i as int)[0] == old(v)@[i as int]);
            assert(x == old(v)@[i as int]);
            assert(fin.take(i + 1) =~= sp.insert(j as int, x)) by {
                sp.insert_ensures(j as int, x);
            }
            lemma_insert_at(sp, x, j as int);
            assert(old(v)@.take(i + 1).drop_last() =~= old(v)@.take(i as int));
            assert(old(v)@.take(i + 1).last() == old(v)@[i as int]);
            assert(stable_sort_by_time(old(v)@.take(i + 1)) == insert_by_time(sp, x));
            assert(fin.take(i + 1) == stable_sort_by_time(old(v)@.take(i + 1)));
            assert forall|k: int| 0 <= k < fin.skip(i + 1).len() implies #[trigger] fin.skip(
                i + 1,
            )[k] == old(v)@.skip(i + 1)[k] by {
                assert(fin.skip(i + 1)[k] == fin[k + i + 1]);
                assert(fin[k + i + 1] == mid[k + i]);
                assert(mid[k + i] == pre[k + i + 1]);
                assert(pre.skip(i as int)[k + 1] == pre[k + i + 1]);
                assert(old(v)@.skip(i as int)[k + 1] == old(v)@[k + i + 1]);
                assert(old(v)@.skip(i + 1)[k] == old(v)@[k + i + 1]);
            }
            assert(fin.skip(i + 1) =~= old(v)@.skip(i + 1));
        }
        i += 1;
    }
    proof {
        assert(v@.take(n as int) =~= v@);
        assert(old(v)@.take(n as int) =~= old(v)@);
    }
}

} // verus!
