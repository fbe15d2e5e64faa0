//! The scheduler's laws, proved over the ghost model.
//!
//! Each public proof function here states one guarantee that relates several
//! operations of [`crate::scheduler::DirtyScopes`]; the exec functions'
//! contracts tie their results to the spec functions these laws speak of.

use crate::order::ScopeId;
use crate::order::ScopeOrder;
use crate::order::Task;
use crate::order::ord_lt;
use crate::scheduler::ScheduleModel;
use crate::scheduler::TaskBucket;
use crate::scheduler::WorkModel;
use crate::scheduler::contains_id;
use crate::scheduler::insert_ord;
use crate::scheduler::lemma_buckets_wf_drop;
use crate::scheduler::lemma_scopes_wf_drop;
use crate::scheduler::remove_id;
use crate::scheduler::scopes_wf;
use crate::scheduler::spec_pop_work;
use crate::scheduler::spec_queue_scope;
use crate::scheduler::spec_queue_task;
use crate::scheduler::wf_model;
use vstd::prelude::*;

verus! {

/// How many entries of `s` carry the identity `id`.
pub open spec fn count_id(s: Seq<ScopeOrder>, id: ScopeId) -> nat
    decreases s.len(),
{
    if s.len() == 0 {
        0
    } else {
        (if s[0].id == id {
            1nat
        } else {
            0nat
        }) + count_id(s.drop_first(), id)
    }
}

proof fn lemma_count_id_zero(s: Seq<ScopeOrder>, id: ScopeId)
    requires
        forall|k: int| 0 <= k < s.len() ==> (#[trigger] s[k]).id != id,
    ensures
        count_id(s, id) == 0,
    decreases s.len(),
{
    if s.len() > 0 {
        lemma_count_id_zero(s.drop_first(), id);
    }
}

proof fn lemma_count_id_pos_contains(s: Seq<ScopeOrder>, id: ScopeId)
    requires
        count_id(s, id) > 0,
    ensures
        contains_id(s, id),
    decreases s.len(),
{
    if s.len() > 0 {
        if s[0].id == id {
            assert(contains_id(s, id));
        } else {
            lemma_count_id_pos_contains(s.drop_first(), id);
            let i = choose|i: int|
                0 <= i < s.drop_first().len() && (#[trigger] s.drop_first()[i]).id == id;
            assert(s[i + 1].id == id);
        }
    }
}

proof fn lemma_wf_count_id_one(s: Seq<ScopeOrder>, id: ScopeId)
    requires
        scopes_wf(s),
        contains_id(s, id),
    ensures
        count_id(s, id) == 1,
    decreases s.len(),
{
    let w = choose|i: int| 0 <= i < s.len() && (#[trigger] s[i]).id == id;
    if s[0].id == id {
        assert forall|k: int| 0 <= k < s.drop_first().len() implies (#[trigger] s.drop_first()[k]).id
            != id by {
            assert(s.drop_first()[k] == s[k + 1]);
        }
        lemma_count_id_zero(s.drop_first(), id);
    } else {
        assert(w > 0);
        assert(s.drop_first()[w - 1].id == id);
        lemma_scopes_wf_drop(s);
        lemma_wf_count_id_one(s.drop_first(), id);
    }
}

proof fn lemma_insert_ord_count(s: Seq<ScopeOrder>, o: ScopeOrder, id: ScopeId)
    ensures
        count_id(insert_ord(s, o), id) == count_id(s, id) + (if o.id == id {
            1nat
        } else {
            0nat
        }),
    decreases s.len(),
{
    if s.len() == 0 {
        assert(insert_ord(s, o) == seq![o]);
        assert(seq![o].drop_first() =~= Seq::<ScopeOrder>::empty());
        assert(count_id(seq![o], id) == (if o.id == id {
            1nat
        } else {
            0nat
        }) + count_id(Seq::<ScopeOrder>::empty(), id));
    } else if ord_lt(o, s[0]) {
        let r = seq![o] + s;
        assert(insert_ord(s, o) == r);
        assert(r[0] == o);
        assert(r.drop_first() =~= s);
        assert(count_id(r, id) == (if o.id == id {
            1nat
        } else {
            0nat
        }) + count_id(s, id));
    } else {
        lemma_insert_ord_count(s.drop_first(), o, id);
        let r = seq![s[0]] + insert_ord(s.drop_first(), o);
        assert(insert_ord(s, o) == r);
        assert(r[0] == s[0]);
        assert(r.len() > 0);
        assert(r.drop_first() =~= insert_ord(s.drop_first(), o));
        assert(count_id(r, id) == (if s[0].id == id {
            1nat
        } else {
            0nat
        }) + count_id(insert_ord(s.drop_first(), o), id));
        assert(count_id(s, id) == (if s[0].id == id {
            1nat
        } else {
            0nat
        }) + count_id(s.drop_first(), id));
    }
}

/// Idempotence of marking a scope dirty: queuing the same order twice before
/// any pop changes nothing the second time, and the set holds exactly one
/// entry for that order's identity.
pub proof fn lemma_queue_scope_idempotent(s: Seq<ScopeOrder>, o: ScopeOrder)
    requires
        scopes_wf(s),
    ensures
        spec_queue_scope(spec_queue_scope(s, o), o) == spec_queue_scope(s, o),
        count_id(spec_queue_scope(s, o), o.id) == 1,
{
    if contains_id(s, o.id) {
        lemma_wf_count_id_one(s, o.id);
    } else {
        lemma_count_id_zero(s, o.id);
        lemma_insert_ord_count(s, o, o.id);
        lemma_count_id_pos_contains(insert_ord(s, o), o.id);
    }
}

/// Merge law: marking a scope dirty and queuing a task for the same order,
/// starting idle, yields a single unit of work that carries both signals —
/// rerun the scope and resume the task — and leaves the scheduler idle, never
/// two separate pops.
pub proof fn lemma_merge_law(o: ScopeOrder, t: Task)
    ensures
        ({
            let queued = ScheduleModel {
                scopes: spec_queue_scope(Seq::empty(), o),
                tasks: spec_queue_task(Seq::empty(), t, o),
            };
            spec_pop_work(queued) == Some(
                (
                    WorkModel { scope: o, rerun_scope: true, tasks: seq![t] },
                    ScheduleModel {
                        scopes: Seq::<ScopeOrder>::empty(),
                        tasks: Seq::<TaskBucket>::empty(),
                    },
                ),
            )
        }),
{
    let queued = ScheduleModel {
        scopes: spec_queue_scope(Seq::empty(), o),
        tasks: spec_queue_task(Seq::empty(), t, o),
    };
    assert(queued.scopes == seq![o]);
    assert(queued.tasks == seq![TaskBucket { order: o, tasks: seq![t] }]);
    assert(queued.scopes.drop_first() =~= Seq::<ScopeOrder>::empty());
    assert(queued.tasks.drop_first() =~= Seq::<TaskBucket>::empty());
}

/// Popping preserves well-formedness of the model: both collections stay
/// strictly sorted with distinct ids.
pub proof fn lemma_pop_work_preserves_wf(m: ScheduleModel, w: WorkModel, m1: ScheduleModel)
    requires
        wf_model(m),
        spec_pop_work(m) == Some((w, m1)),
    ensures
        wf_model(m1),
{
    if m.tasks.len() == 0 || (m.scopes.len() > 0 && ord_lt(m.scopes[0], m.tasks[0].order)) {
        lemma_scopes_wf_drop(m.scopes);
    } else if m.scopes.len() == 0 || ord_lt(m.tasks[0].order, m.scopes[0]) {
        lemma_buckets_wf_drop(m.tasks);
    } else {
        lemma_scopes_wf_drop(m.scopes);
        lemma_buckets_wf_drop(m.tasks);
    }
}

/// Scheduling never regresses: two successive pops hand out strictly
/// increasing scope orders in `(height, id)`. Chained over a whole draining
/// run (popping preserves well-formedness), the orders a driver sees are
/// strictly increasing as long as nothing new is queued in between.
pub proof fn lemma_pop_work_monotonic(
    m: ScheduleModel,
    w1: WorkModel,
    m1: ScheduleModel,
    w2: WorkModel,
    m2: ScheduleModel,
)
    requires
        wf_model(m),
        spec_pop_work(m) == Some((w1, m1)),
        spec_pop_work(m1) == Some((w2, m2)),
    ensures
        ord_lt(w1.scope, w2.scope),
{
    if m.tasks.len() == 0 || (m.scopes.len() > 0 && ord_lt(m.scopes[0], m.tasks[0].order)) {
        assert(m1.scopes.len() > 0 ==> ord_lt(w1.scope, m1.scopes[0]));
        assert(m1.tasks.len() > 0 ==> ord_lt(w1.scope, m1.tasks[0].order));
    } else if m.scopes.len() == 0 || ord_lt(m.tasks[0].order, m.scopes[0]) {
        assert(m1.tasks.len() > 0 ==> m1.tasks[0] == m.tasks[1]);
        assert(m1.scopes.len() > 0 ==> ord_lt(w1.scope, m1.scopes[0]));
        assert(m1.tasks.len() > 0 ==> ord_lt(w1.scope, m1.tasks[0].order));
    } else {
        assert(m1.scopes.len() > 0 ==> m1.scopes[0] == m.scopes[1]);
        assert(m1.tasks.len() > 0 ==> m1.tasks[0] == m.tasks[1]);
        assert(m.tasks[0].order == w1.scope);
        assert(m1.scopes.len() > 0 ==> ord_lt(w1.scope, m1.scopes[0]));
        assert(m1.tasks.len() > 0 ==> ord_lt(w1.scope, m1.tasks[0].order));
    }
}

/// After a removal the identity is gone from the dirty-scope set.
pub proof fn lemma_remove_clears_id(s: Seq<ScopeOrder>, id: ScopeId)
    requires
        scopes_wf(s),
    ensures
        !contains_id(remove_id(s, id), id),
    decreases s.len(),
{
    if s.len() > 0 {
        if s[0].id == id {
            assert forall|k: int| 0 <= k < s.drop_first().len() implies (#[trigger] s.drop_first()[
                k
            ]).id != id by {
                assert(s.drop_first()[k] == s[k + 1]);
            }
        } else {
            lemma_scopes_wf_drop(s);
            lemma_remove_clears_id(s.drop_first(), id);
            let r = seq![s[0]] + remove_id(s.drop_first(), id);
            assert forall|k: int| 0 <= k < r.len() implies (#[trigger] r[k]).id != id by {
                if k > 0 {
                    assert(r[k] == remove_id(s.drop_first(), id)[k - 1]);
                }
            }
        }
    }
}

/// A removed scope is never handed out as a scope rerun, and stays out of the
/// dirty-scope set across pops, until a later `queue_scope` re-queues it.
/// (Its pending tasks still surface, with `rerun_scope` false: removal
/// deliberately leaves task buckets in place.)
pub proof fn lemma_pop_work_skips_removed(
    m: ScheduleModel,
    id: ScopeId,
    w: WorkModel,
    m1: ScheduleModel,
)
    requires
        wf_model(m),
        !contains_id(m.scopes, id),
        spec_pop_work(m) == Some((w, m1)),
    ensures
        w.rerun_scope ==> w.scope.id != id,
        !contains_id(m1.scopes, id),
{
    assert forall|k: int| 0 <= k < m.scopes.len() implies (#[trigger] m.scopes[k]).id != id by {}
    if !(m.scopes.len() == 0 || ord_lt(m.tasks[0].order, m.scopes[0]))
        || (m.tasks.len() == 0 || (m.scopes.len() > 0 && ord_lt(m.scopes[0], m.tasks[0].order))) {
        assert(m1.scopes == m.scopes.drop_first());
        assert forall|k: int| 0 <= k < m1.scopes.len() implies (#[trigger] m1.scopes[k]).id
            != id by {
            assert(m1.scopes[k] == m.scopes[k + 1]);
        }
    }
}

} // verus!
