//! The scheduler proper: dirty scopes, per-scope task buckets, and the
//! merge/pop logic that decides the next unit of work.
//!
//! [`DirtyScopes`] holds two ordered collections: the set of dirty scope
//! orders and the set of [`DirtyTasks`] buckets, both kept strictly sorted by
//! `(height, id)` with pairwise-distinct ids. Contracts are stated over the
//! ghost [`ScheduleModel`], a pair of sequences mirroring those collections.

use crate::order::ScopeId;
use crate::order::ScopeOrder;
use crate::order::Task;
use crate::order::ord_lt;
use vstd::prelude::*;

verus! {

/// Ghost image of one task bucket: the scope order it is keyed by and the
/// tasks queued against it, in arrival order.
#[verifier::ext_equal]
pub ghost struct TaskBucket {
    pub order: ScopeOrder,
    pub tasks: Seq<Task>,
}

/// Ghost image of the whole scheduler: dirty scope orders and task buckets,
/// each strictly sorted by `(height, id)` with pairwise-distinct ids.
#[verifier::ext_equal]
pub ghost struct ScheduleModel {
    pub scopes: Seq<ScopeOrder>,
    pub tasks: Seq<TaskBucket>,
}

/// Ghost image of one unit of work handed to the driver.
#[verifier::ext_equal]
pub ghost struct WorkModel {
    pub scope: ScopeOrder,
    pub rerun_scope: bool,
    pub tasks: Seq<Task>,
}

/// Strictly sorted by `(height, id)`, ids pairwise distinct.
pub open spec fn scopes_wf(s: Seq<ScopeOrder>) -> bool {
    forall|i: int, j: int|
        0 <= i < j < s.len() ==> ord_lt(#[trigger] s[i], #[trigger] s[j]) && s[i].id != s[j].id
}

/// Buckets strictly sorted by their key's `(height, id)`, key ids pairwise
/// distinct.
pub open spec fn buckets_wf(t: Seq<TaskBucket>) -> bool {
    forall|i: int, j: int|
        0 <= i < j < t.len() ==> ord_lt((#[trigger] t[i]).order, (#[trigger] t[j]).order)
            && t[i].order.id != t[j].order.id
}

pub open spec fn wf_model(m: ScheduleModel) -> bool {
    scopes_wf(m.scopes) && buckets_wf(m.tasks)
}

/// Some entry of `s` carries the identity `id`.
pub open spec fn contains_id(s: Seq<ScopeOrder>, id: ScopeId) -> bool {
    exists|i: int| 0 <= i < s.len() && (#[trigger] s[i]).id == id
}

/// Some bucket of `t` is keyed by the identity `id`.
pub open spec fn bucket_contains_id(t: Seq<TaskBucket>, id: ScopeId) -> bool {
    exists|i: int| 0 <= i < t.len() && (#[trigger] t[i]).order.id == id
}

/// `s` with `o` placed at its sorted position.
pub open spec fn insert_ord(s: Seq<ScopeOrder>, o: ScopeOrder) -> Seq<ScopeOrder>
    decreases s.len(),
{
    if s.len() == 0 {
        seq![o]
    } else if ord_lt(o, s[0]) {
        seq![o] + s
    } else {
        seq![s[0]] + insert_ord(s.drop_first(), o)
    }
}

/// What `queue_scope` does to the scope set: an order whose id is already
/// present is dropped (the scope is already dirty, even when the recorded
/// height differs); otherwise it is placed at its sorted position.
pub open spec fn spec_queue_scope(s: Seq<ScopeOrder>, o: ScopeOrder) -> Seq<ScopeOrder> {
    if contains_id(s, o.id) {
        s
    } else {
        insert_ord(s, o)
    }
}

/// `t` with `task` appended to the first bucket keyed by `id`; `t` unchanged
/// when no bucket matches.
pub open spec fn append_to_bucket(t: Seq<TaskBucket>, task: Task, id: ScopeId) -> Seq<TaskBucket>
    decreases t.len(),
{
    if t.len() == 0 {
        t
    } else if t[0].order.id == id {
        seq![TaskBucket { order: t[0].order, tasks: t[0].tasks.push(task) }] + t.drop_first()
    } else {
        seq![t[0]] + append_to_bucket(t.drop_first(), task, id)
    }
}

/// `t` with the bucket `b` placed at its sorted position.
pub open spec fn insert_bucket(t: Seq<TaskBucket>, b: TaskBucket) -> Seq<TaskBucket>
    decreases t.len(),
{
    if t.len() == 0 {
        seq![b]
    } else if ord_lt(b.order, t[0].order) {
        seq![b] + t
    } else {
        seq![t[0]] + insert_bucket(t.drop_first(), b)
    }
}

/// What `queue_task` does to the bucket set: the task joins the bucket that
/// already carries the order's id, or a fresh singleton bucket is placed at
/// its sorted position.
pub open spec fn spec_queue_task(t: Seq<TaskBucket>, task: Task, o: ScopeOrder) -> Seq<TaskBucket> {
    if bucket_contains_id(t, o.id) {
        append_to_bucket(t, task, o.id)
    } else {
        insert_bucket(t, TaskBucket { order: o, tasks: seq![task] })
    }
}

/// `s` without its first entry carrying the identity `id`; under
/// [`scopes_wf`] that entry is the only one.
pub open spec fn remove_id(s: Seq<ScopeOrder>, id: ScopeId) -> Seq<ScopeOrder>
    decreases s.len(),
{
    if s.len() == 0 {
        s
    } else if s[0].id == id {
        s.drop_first()
    } else {
        seq![s[0]] + remove_id(s.drop_first(), id)
    }
}

/// What `pop_work` decides, as a function of the model: the produced work and
/// the state left behind, or nothing when the scheduler is idle.
///
/// The minimum scope order and the minimum bucket order compete; the strictly
/// smaller one is popped alone, and on a tie (same height and id) both are
/// popped together so that a scope that is dirty and holds tasks is serviced
/// exactly once.
pub open spec fn spec_pop_work(m: ScheduleModel) -> Option<(WorkModel, ScheduleModel)> {
    if m.scopes.len() == 0 && m.tasks.len() == 0 {
        None
    } else if m.tasks.len() == 0 || (m.scopes.len() > 0 && ord_lt(m.scopes[0], m.tasks[0].order)) {
        Some(
            (
                WorkModel { scope: m.scopes[0], rerun_scope: true, tasks: Seq::empty() },
                ScheduleModel { scopes: m.scopes.drop_first(), tasks: m.tasks },
            ),
        )
    } else if m.scopes.len() == 0 || ord_lt(m.tasks[0].order, m.scopes[0]) {
        Some(
            (
                WorkModel { scope: m.tasks[0].order, rerun_scope: false, tasks: m.tasks[0].tasks },
                ScheduleModel { scopes: m.scopes, tasks: m.tasks.drop_first() },
            ),
        )
    } else {
        Some(
            (
                WorkModel { scope: m.scopes[0], rerun_scope: true, tasks: m.tasks[0].tasks },
                ScheduleModel { scopes: m.scopes.drop_first(), tasks: m.tasks.drop_first() },
            ),
        )
    }
}

pub(crate) proof fn lemma_scopes_wf_drop(s: Seq<ScopeOrder>)
    requires
        scopes_wf(s),
        s.len() > 0,
    ensures
        scopes_wf(s.drop_first()),
{
    assert forall|i: int, j: int| 0 <= i < j < s.drop_first().len() implies ord_lt(
        #[trigger] s.drop_first()[i],
        #[trigger] s.drop_first()[j],
    ) && s.drop_first()[i].id != s.drop_first()[j].id by {
        assert(s.drop_first()[i] == s[i + 1]);
        assert(s.drop_first()[j] == s[j + 1]);
    }
}

pub(crate) proof fn lemma_buckets_wf_drop(t: Seq<TaskBucket>)
    requires
        buckets_wf(t),
        t.len() > 0,
    ensures
        buckets_wf(t.drop_first()),
{
    assert forall|i: int, j: int| 0 <= i < j < t.drop_first().len() implies ord_lt(
        (#[trigger] t.drop_first()[i]).order,
        (#[trigger] t.drop_first()[j]).order,
    ) && t.drop_first()[i].order.id != t.drop_first()[j].order.id by {
        assert(t.drop_first()[i] == t[i + 1]);
        assert(t.drop_first()[j] == t[j + 1]);
    }
}

proof fn lemma_scopes_wf_remove(s: Seq<ScopeOrder>, i: int)
    requires
        scopes_wf(s),
        0 <= i < s.len(),
    ensures
        scopes_wf(s.remove(i)),
{
    assert forall|p: int, q: int| 0 <= p < q < s.remove(i).len() implies ord_lt(
        #[trigger] s.remove(i)[p],
        #[trigger] s.remove(i)[q],
    ) && s.remove(i)[p].id != s.remove(i)[q].id by {
        let p0: int = if p < i { p } else { p + 1 };
        let q0: int = if q < i { q } else { q + 1 };
        assert(s.remove(i)[p] == s[p0]);
        assert(s.remove(i)[q] == s[q0]);
    }
}

proof fn lemma_insert_ord_at(s: Seq<ScopeOrder>, o: ScopeOrder, j: int)
    requires
        0 <= j <= s.len(),
        forall|k: int| 0 <= k < j ==> !ord_lt(o, #[trigger] s[k]),
        j < s.len() ==> ord_lt(o, s[j]),
    ensures
        insert_ord(s, o) == s.insert(j, o),
    decreases j,
{
    if j == 0 {
        if s.len() == 0 {
            assert(insert_ord(s, o) =~= s.insert(0, o));
        } else {
            assert(ord_lt(o, s[0]));
            assert(seq![o] + s =~= s.insert(0, o));
        }
    } else {
        assert(!ord_lt(o, s[0]));
        lemma_insert_ord_at(s.drop_first(), o, j - 1);
        assert(seq![s[0]] + s.drop_first().insert(j - 1, o) =~= s.insert(j, o));
    }
}

proof fn lemma_scopes_wf_insert(s: Seq<ScopeOrder>, o: ScopeOrder, j: int)
    requires
        scopes_wf(s),
        !contains_id(s, o.id),
        0 <= j <= s.len(),
        forall|k: int| 0 <= k < j ==> !ord_lt(o, #[trigger] s[k]),
        j < s.len() ==> ord_lt(o, s[j]),
    ensures
        scopes_wf(s.insert(j, o)),
{
    assert forall|k: int| 0 <= k < s.len() implies (#[trigger] s[k]).id != o.id by {}
    assert forall|k: int| 0 <= k < j implies ord_lt(#[trigger] s[k], o) by {
        assert(!ord_lt(o, s[k]));
        assert(s[k].id != o.id);
    }
    assert forall|k: int| j <= k < s.len() implies ord_lt(o, #[trigger] s[k]) by {
        assert(ord_lt(o, s[j]));
        if k > j {
            assert(ord_lt(s[j], s[k]));
        }
    }
    let s2 = s.insert(j, o);
    assert forall|p: int, q: int| 0 <= p < q < s2.len() implies ord_lt(
        #[trigger] s2[p],
        #[trigger] s2[q],
    ) && s2[p].id != s2[q].id by {
        if p < j {
            assert(s2[p] == s[p]);
        } else if p == j {
            assert(s2[p] == o);
        } else {
            assert(s2[p] == s[p - 1]);
        }
        if q < j {
            assert(s2[q] == s[q]);
        } else if q == j {
            assert(s2[q] == o);
        } else {
            assert(s2[q] == s[q - 1]);
        }
    }
}

proof fn lemma_insert_bucket_at(t: Seq<TaskBucket>, b: TaskBucket, j: int)
    requires
        0 <= j <= t.len(),
        forall|k: int| 0 <= k < j ==> !ord_lt(b.order, (#[trigger] t[k]).order),
        j < t.len() ==> ord_lt(b.order, t[j].order),
    ensures
        insert_bucket(t, b) == t.insert(j, b),
    decreases j,
{
    if j == 0 {
        if t.len() == 0 {
            assert(insert_bucket(t, b) =~= t.insert(0, b));
        } else {
            assert(ord_lt(b.order, t[0].order));
            assert(seq![b] + t =~= t.insert(0, b));
        }
    } else {
        assert(!ord_lt(b.order, t[0].order));
        lemma_insert_bucket_at(t.drop_first(), b, j - 1);
        assert(seq![t[0]] + t.drop_first().insert(j - 1, b) =~= t.insert(j, b));
    }
}

proof fn lemma_buckets_wf_insert(t: Seq<TaskBucket>, b: TaskBucket, j: int)
    requires
        buckets_wf(t),
        !bucket_contains_id(t, b.order.id),
        0 <= j <= t.len(),
        forall|k: int| 0 <= k < j ==> !ord_lt(b.order, (#[trigger] t[k]).order),
        j < t.len() ==> ord_lt(b.order, t[j].order),
    ensures
        buckets_wf(t.insert(j, b)),
{
    assert forall|k: int| 0 <= k < t.len() implies (#[trigger] t[k]).order.id != b.order.id by {}
    assert forall|k: int| 0 <= k < j implies ord_lt((#[trigger] t[k]).order, b.order) by {
        assert(!ord_lt(b.order, t[k].order));
        assert(t[k].order.id != b.order.id);
    }
    assert forall|k: int| j <= k < t.len() implies ord_lt(b.order, (#[trigger] t[k]).order) by {
        assert(ord_lt(b.order, t[j].order));
        if k > j {
            assert(ord_lt(t[j].order, t[k].order));
        }
    }
    let t2 = t.insert(j, b);
    assert forall|p: int, q: int| 0 <= p < q < t2.len() implies ord_lt(
        (#[trigger] t2[p]).order,
        (#[trigger] t2[q]).order,
    ) && t2[p].order.id != t2[q].order.id by {
        if p < j {
            assert(t2[p] == t[p]);
        } else if p == j {
            assert(t2[p] == b);
        } else {
            assert(t2[p] == t[p - 1]);
        }
        if q < j {
            assert(t2[q] == t[q]);
        } else if q == j {
            assert(t2[q] == b);
        } else {
            assert(t2[q] == t[q - 1]);
        }
    }
}

proof fn lemma_append_to_bucket_at(t: Seq<TaskBucket>, task: Task, id: ScopeId, i: int)
    requires
        0 <= i < t.len(),
        t[i].order.id == id,
        forall|k: int| 0 <= k < i ==> (#[trigger] t[k]).order.id != id,
    ensures
        append_to_bucket(t, task, id) == t.update(
            i,
            TaskBucket { order: t[i].order, tasks: t[i].tasks.push(task) },
        ),
    decreases i,
{
    if i == 0 {
        assert(seq![TaskBucket { order: t[0].order, tasks: t[0].tasks.push(task) }]
            + t.drop_first() =~= t.update(0, TaskBucket { order: t[0].order, tasks: t[0].tasks.push(task) }));
    } else {
        assert(t[0].order.id != id);
        lemma_append_to_bucket_at(t.drop_first(), task, id, i - 1);
        let b2 = TaskBucket { order: t[i].order, tasks: t[i].tasks.push(task) };
        assert(t.drop_first()[i - 1] == t[i]);
        assert(seq![t[0]] + t.drop_first().update(i - 1, b2) =~= t.update(i, b2));
    }
}

proof fn lemma_buckets_wf_update_same_order(t: Seq<TaskBucket>, i: int, b: TaskBucket)
    requires
        buckets_wf(t),
        0 <= i < t.len(),
        b.order == t[i].order,
    ensures
        buckets_wf(t.update(i, b)),
{
    let t2 = t.update(i, b);
    assert forall|p: int, q: int| 0 <= p < q < t2.len() implies ord_lt(
        (#[trigger] t2[p]).order,
        (#[trigger] t2[q]).order,
    ) && t2[p].order.id != t2[q].order.id by {
        assert(t2[p].order == t[p].order);
        assert(t2[q].order == t[q].order);
    }
}

proof fn lemma_remove_id_at(s: Seq<ScopeOrder>, id: ScopeId, i: int)
    requires
        0 <= i < s.len(),
        s[i].id == id,
        forall|k: int| 0 <= k < i ==> (#[trigger] s[k]).id != id,
    ensures
        remove_id(s, id) == s.remove(i),
    decreases i,
{
    if i == 0 {
        assert(remove_id(s, id) == s.drop_first());
        assert(s.drop_first() =~= s.remove(0));
    } else {
        assert(s[0].id != id);
        lemma_remove_id_at(s.drop_first(), id, i - 1);
        assert(remove_id(s, id) == seq![s[0]] + s.drop_first().remove(i - 1));
        assert(seq![s[0]] + s.drop_first().remove(i - 1) =~= s.remove(i));
    }
}

proof fn lemma_remove_id_absent(s: Seq<ScopeOrder>, id: ScopeId)
    requires
        forall|k: int| 0 <= k < s.len() ==> (#[trigger] s[k]).id != id,
    ensures
        remove_id(s, id) == s,
    decreases s.len(),
{
    if s.len() > 0 {
        lemma_remove_id_absent(s.drop_first(), id);
        assert(seq![s[0]] + s.drop_first() =~= s);
    }
}

/// Bucket of pending task handles for exactly one scope order. Comparison of
/// buckets goes by `order` alone; the queued tasks are payload.
pub struct DirtyTasks {
    pub order: ScopeOrder,
    pub tasks_queued: Vec<Task>,
}

impl View for DirtyTasks {
    type V = TaskBucket;

    open spec fn view(&self) -> TaskBucket {
        TaskBucket { order: self.order, tasks: self.tasks_queued@ }
    }
}

impl DirtyTasks {
    /// Fresh bucket for `order` with no tasks yet.
    pub fn new(order: ScopeOrder) -> (r: Self)
        ensures
            r@.order == order,
            r@.tasks == Seq::<Task>::empty(),
    {
        Self { order, tasks_queued: Vec::new() }
    }

    /// Appends `task` to this bucket, keeping arrival order.
    pub fn queue_task(&mut self, task: Task)
        ensures
            final(self)@.order == old(self)@.order,
            final(self)@.tasks == old(self)@.tasks.push(task),
    {
        self.tasks_queued.push(task);
    }
}

/// One resolved unit of scheduled execution: the scope it concerns, whether
/// the driver must re-render that scope, and the tasks to resume.
pub struct Work {
    pub scope: ScopeOrder,
    pub rerun_scope: bool,
    pub tasks: Vec<Task>,
}

impl View for Work {
    type V = WorkModel;

    open spec fn view(&self) -> WorkModel {
        WorkModel { scope: self.scope, rerun_scope: self.rerun_scope, tasks: self.tasks@ }
    }
}

/// Central scheduler state: the ordered set of dirty scope orders and the
/// ordered set of task buckets.
pub struct DirtyScopes {
    scopes: Vec<ScopeOrder>,
    tasks: Vec<DirtyTasks>,
}

impl View for DirtyScopes {
    type V = ScheduleModel;

    closed spec fn view(&self) -> ScheduleModel {
        ScheduleModel {
            scopes: self.scopes@,
            tasks: self.tasks@.map_values(|dt: DirtyTasks| dt@),
        }
    }
}

impl DirtyScopes {
    /// Both collections sorted strictly by `(height, id)` with distinct ids.
    pub open spec fn wf(&self) -> bool {
        wf_model(self@)
    }

    /// True while at least one scope order is marked dirty; the task buckets
    /// are irrelevant to this check.
    pub fn has_dirty_scopes(&self) -> (r: bool)
        ensures
            r == (self@.scopes.len() > 0),
    {
        self.scopes.len() > 0
    }

    /// Removes and returns the minimum dirty scope order, bypassing the merge
    /// logic; the task buckets are untouched.
    pub fn pop_scope(&mut self) -> (r: Option<ScopeOrder>)
        requires
            old(self).wf(),
        ensures
            final(self).wf(),
            final(self)@.tasks == old(self)@.tasks,
            old(self)@.scopes.len() == 0 ==> r is None && final(self)@.scopes == old(self)@.scopes,
            old(self)@.scopes.len() > 0 ==> r == Some(old(self)@.scopes[0])
                && final(self)@.scopes == old(self)@.scopes.drop_first(),
    {
        if self.scopes.len() == 0 {
            None
        } else {
            let first = self.scopes.remove(0);
            proof {
                assert(self@.scopes =~= old(self)@.scopes.drop_first());
                assert(self@.tasks =~= old(self)@.tasks);
                lemma_scopes_wf_drop(old(self)@.scopes);
            }
            Some(first)
        }
    }

    /// Removes and returns the minimum task bucket, bypassing the merge
    /// logic; the dirty scope set is untouched.
    pub fn pop_task(&mut self) -> (r: Option<DirtyTasks>)
        requires
            old(self).wf(),
        ensures
            final(self).wf(),
            final(self)@.scopes == old(self)@.scopes,
            old(self)@.tasks.len() == 0 ==> r is None && final(self)@.tasks == old(self)@.tasks,
            old(self)@.tasks.len() > 0 ==> (r matches Some(dt) && dt@ == old(self)@.tasks[0]
                && final(self)@.tasks == old(self)@.tasks.drop_first()),
    {
        if self.tasks.len() == 0 {
            None
        } else {
            let first = self.tasks.remove(0);
            proof {
                assert(self@.tasks =~= old(self)@.tasks.drop_first());
                lemma_buckets_wf_drop(old(self)@.tasks);
            }
            Some(first)
        }
    }

    /// Queues `task` against `order`: the task joins the bucket already
    /// keyed by the order's identity (its recorded order is kept, even when
    /// the given height differs), or a fresh bucket takes its sorted place.
    /// Tasks for one order accumulate in call order.
    pub fn queue_task(&mut self, task: Task, order: ScopeOrder)
        requires
            old(self).wf(),
        ensures
            final(self).wf(),
            final(self)@.scopes == old(self)@.scopes,
            final(self)@.tasks == spec_queue_task(old(self)@.tasks, task, order),
    {
        let n = self.tasks.len();
        let mut i: usize = 0;
        while i < n && self.tasks[i].order.id.0 != order.id.0
            invariant
                i <= n,
                n == self.tasks.len(),
                forall|k: int| 0 <= k < i ==> (#[trigger] self.tasks@[k]).order.id != order.id,
            decreases n - i,
        {
            i = i + 1;
        }
        if i < n {
            let ghost t0 = self@.tasks;
            let mut bucket = self.tasks.remove(i);
            bucket.tasks_queued.push(task);
            self.tasks.insert(i, bucket);
            proof {
                let b2 = TaskBucket { order: t0[i as int].order, tasks: t0[i as int].tasks.push(task) };
                assert(self@.tasks =~= t0.update(i as int, b2));
                assert(bucket_contains_id(t0, order.id));
                lemma_append_to_bucket_at(t0, task, order.id, i as int);
                lemma_buckets_wf_update_same_order(t0, i as int, b2);
                assert(self@.scopes =~= old(self)@.scopes);
            }
            return ;
        }
        proof {
            assert(!bucket_contains_id(self@.tasks, order.id));
        }
        let mut j: usize = 0;
        while j < n && !order.comes_before(&self.tasks[j].order)
            invariant
                j <= n,
                n == self.tasks.len(),
                forall|k: int| 0 <= k < j ==> !ord_lt(order, (#[trigger] self.tasks@[k]).order),
            decreases n - j,
        {
            j = j + 1;
        }
        let mut fresh = DirtyTasks::new(order);
        fresh.queue_task(task);
        self.tasks.insert(j, fresh);
        proof {
            let b = TaskBucket { order, tasks: seq![task] };
            assert(fresh@ =~= b);
            assert(self@.tasks =~= old(self)@.tasks.insert(j as int, b));
            lemma_insert_bucket_at(old(self)@.tasks, b, j as int);
            lemma_buckets_wf_insert(old(self)@.tasks, b, j as int);
        }
    }

    /// Marks `order` dirty. Idempotent: when an order with the same identity
    /// is already queued the call is a no-op, even when the recorded height
    /// differs; otherwise `order` takes its sorted place.
    pub fn queue_scope(&mut self, order: ScopeOrder)
        requires
            old(self).wf(),
        ensures
            final(self).wf(),
            final(self)@.tasks == old(self)@.tasks,
            final(self)@.scopes == spec_queue_scope(old(self)@.scopes, order),
    {
        let n = self.scopes.len();
        let mut i: usize = 0;
        while i < n && self.scopes[i].id.0 != order.id.0
            invariant
                i <= n,
                n == self.scopes.len(),
                forall|k: int| 0 <= k < i ==> (#[trigger] self.scopes@[k]).id != order.id,
            decreases n - i,
        {
            i = i + 1;
        }
        if i < n {
            proof {
                assert(contains_id(self@.scopes, order.id));
            }
            return ;
        }
        proof {
            assert(!contains_id(self@.scopes, order.id));
        }
        let mut j: usize = 0;
        while j < n && !order.comes_before(&self.scopes[j])
            invariant
                j <= n,
                n == self.scopes.len(),
                forall|k: int| 0 <= k < j ==> !ord_lt(order, #[trigger] self.scopes@[k]),
            decreases n - j,
        {
            j = j + 1;
        }
        self.scopes.insert(j, order);
        proof {
            lemma_insert_ord_at(old(self)@.scopes, order, j as int);
            lemma_scopes_wf_insert(old(self)@.scopes, order, j as int);
            assert(self@.tasks =~= old(self)@.tasks);
        }
    }

    /// Primary primitive: decides and removes the next unit of work, exactly
    /// as [`spec_pop_work`] says. The minimum dirty scope and the minimum
    /// task bucket compete; the strictly smaller order is popped alone, and
    /// on a tie (same height and id) both are popped together, so a scope
    /// that is dirty and holds completed tasks is serviced exactly once.
    /// Returns `None` only when the scheduler is idle.
    pub fn pop_work(&mut self) -> (r: Option<Work>)
        requires
            old(self).wf(),
        ensures
            final(self).wf(),
            spec_pop_work(old(self)@) is None ==> r is None && final(self)@ == old(self)@,
            spec_pop_work(old(self)@) matches Some(p) ==> (r matches Some(w) && w@ == p.0
                && final(self)@ == p.1),
    {
        let has_scope = self.scopes.len() > 0;
        let has_task = self.tasks.len() > 0;
        if !has_scope && !has_task {
            return None;
        }
        if has_scope && (!has_task || self.scopes[0].comes_before(&self.tasks[0].order)) {
            let scope = self.scopes.remove(0);
            proof {
                assert(self@.scopes =~= old(self)@.scopes.drop_first());
                assert(self@.tasks =~= old(self)@.tasks);
                lemma_scopes_wf_drop(old(self)@.scopes);
                assert(self@ =~= spec_pop_work(old(self)@)->Some_0.1);
            }
            Some(Work { scope, rerun_scope: true, tasks: Vec::new() })
        } else if !has_scope || self.tasks[0].order.comes_before(&self.scopes[0]) {
            let bucket = self.tasks.remove(0);
            proof {
                assert(bucket@ == old(self)@.tasks[0]);
                assert(self@.tasks =~= old(self)@.tasks.drop_first());
                assert(self@.scopes =~= old(self)@.scopes);
                lemma_buckets_wf_drop(old(self)@.tasks);
                assert(self@ =~= spec_pop_work(old(self)@)->Some_0.1);
            }
            Some(Work { scope: bucket.order, rerun_scope: false, tasks: bucket.tasks_queued })
        } else {
            let scope = self.scopes.remove(0);
            let bucket = self.tasks.remove(0);
            proof {
                assert(bucket@ == old(self)@.tasks[0]);
                assert(self@.scopes =~= old(self)@.scopes.drop_first());
                assert(self@.tasks =~= old(self)@.tasks.drop_first());
                lemma_scopes_wf_drop(old(self)@.scopes);
                lemma_buckets_wf_drop(old(self)@.tasks);
                assert(self@ =~= spec_pop_work(old(self)@)->Some_0.1);
            }
            Some(Work { scope, rerun_scope: true, tasks: bucket.tasks_queued })
        }
    }

    /// Drops the pending invalidation for `scope`'s identity, if any, without
    /// ever running it. Deliberately leaves any task bucket for the same
    /// order in place: a removed scope's pending tasks still surface later
    /// through `pop_work`.
    pub fn remove(&mut self, scope: &ScopeOrder)
        requires
            old(self).wf(),
        ensures
            final(self).wf(),
            final(self)@.tasks == old(self)@.tasks,
            final(self)@.scopes == remove_id(old(self)@.scopes, scope.id),
    {
        let n = self.scopes.len();
        let mut i: usize = 0;
        while i < n && self.scopes[i].id.0 != scope.id.0
            invariant
                i <= n,
                n == self.scopes.len(),
                forall|k: int| 0 <= k < i ==> (#[trigger] self.scopes@[k]).id != scope.id,
            decreases n - i,
        {
            i = i + 1;
        }
        if i < n {
            self.scopes.remove(i);
            proof {
                lemma_remove_id_at(old(self)@.scopes, scope.id, i as int);
                lemma_scopes_wf_remove(old(self)@.scopes, i as int);
                assert(self@.tasks =~= old(self)@.tasks);
            }
        } else {
            proof {
                lemma_remove_id_absent(self@.scopes, scope.id);
            }
        }
    }
}

impl Default for DirtyScopes {
    /// Idle scheduler: no dirty scopes, no queued tasks.
    fn default() -> (r: Self)
        ensures
            r.wf(),
            r@.scopes == Seq::<ScopeOrder>::empty(),
            r@.tasks == Seq::<TaskBucket>::empty(),
    {
        let r = DirtyScopes { scopes: Vec::new(), tasks: Vec::new() };
        proof {
            assert(r@.tasks =~= Seq::<TaskBucket>::empty());
        }
        r
    }
}

} // verus!
