use dirty_scope::DirtyScopes;
use dirty_scope::DirtyTasks;
use dirty_scope::ScopeId;
use dirty_scope::ScopeOrder;
use dirty_scope::Task;

fn ord(height: u32, id: usize) -> ScopeOrder {
    ScopeOrder::new(height, ScopeId(id))
}

#[test]
fn default_is_idle() {
    let mut d = DirtyScopes::default();
    assert!(!d.has_dirty_scopes());
    assert!(d.pop_work().is_none());
    assert!(d.pop_scope().is_none());
    assert!(d.pop_task().is_none());
}

#[test]
fn example_ancestor_first() {
    let mut d = DirtyScopes::default();
    d.queue_scope(ord(1, 10));
    d.queue_scope(ord(0, 20));

    let w1 = d.pop_work().unwrap();
    assert_eq!(w1.scope.height, 0);
    assert_eq!(w1.scope.id, ScopeId(20));
    assert!(w1.rerun_scope);
    assert!(w1.tasks.is_empty());

    let w2 = d.pop_work().unwrap();
    assert_eq!(w2.scope.height, 1);
    assert_eq!(w2.scope.id, ScopeId(10));
    assert!(w2.rerun_scope);
    assert!(w2.tasks.is_empty());

    assert!(d.pop_work().is_none());
}

#[test]
fn example_single_bucket_keeps_insertion_order() {
    let mut d = DirtyScopes::default();
    d.queue_task(Task(1), ord(1, 10));
    d.queue_task(Task(2), ord(1, 10));

    let w = d.pop_work().unwrap();
    assert_eq!(w.scope.height, 1);
    assert_eq!(w.scope.id, ScopeId(10));
    assert!(!w.rerun_scope);
    assert_eq!(w.tasks, vec![Task(1), Task(2)]);

    assert!(d.pop_work().is_none());
}

#[test]
fn example_merge_on_equal_order() {
    let mut d = DirtyScopes::default();
    d.queue_scope(ord(2, 30));
    d.queue_task(Task(7), ord(2, 30));

    let w = d.pop_work().unwrap();
    assert_eq!(w.scope.height, 2);
    assert_eq!(w.scope.id, ScopeId(30));
    assert!(w.rerun_scope);
    assert_eq!(w.tasks, vec![Task(7)]);

    assert!(d.pop_work().is_none());
}

#[test]
fn merge_carries_both_signals_in_one_pop() {
    let mut d = DirtyScopes::default();
    d.queue_scope(ord(4, 99));
    d.queue_task(Task(41), ord(4, 99));

    let w = d.pop_work().unwrap();
    assert!(w.rerun_scope);
    assert_eq!(w.scope.id, ScopeId(99));
    assert_eq!(w.tasks, vec![Task(41)]);
    assert!(d.pop_work().is_none());
    assert!(!d.has_dirty_scopes());
}

#[test]
fn queue_scope_is_idempotent() {
    let mut d = DirtyScopes::default();
    d.queue_scope(ord(3, 5));
    d.queue_scope(ord(3, 5));

    let w = d.pop_work().unwrap();
    assert_eq!(w.scope.height, 3);
    assert_eq!(w.scope.id, ScopeId(5));
    assert!(d.pop_work().is_none());
}

#[test]
fn requeue_with_other_height_is_dropped() {
    let mut d = DirtyScopes::default();
    d.queue_scope(ord(1, 5));
    d.queue_scope(ord(6, 5));

    let w = d.pop_work().unwrap();
    assert_eq!(w.scope.height, 1);
    assert_eq!(w.scope.id, ScopeId(5));
    assert!(d.pop_work().is_none());
}

#[test]
fn task_bucket_keeps_first_order_on_other_height() {
    let mut d = DirtyScopes::default();
    d.queue_task(Task(1), ord(2, 8));
    d.queue_task(Task(2), ord(7, 8));

    let w = d.pop_work().unwrap();
    assert_eq!(w.scope.height, 2);
    assert_eq!(w.scope.id, ScopeId(8));
    assert!(!w.rerun_scope);
    assert_eq!(w.tasks, vec![Task(1), Task(2)]);
    assert!(d.pop_work().is_none());
}

#[test]
fn has_dirty_scopes_tracks_scope_set_only() {
    let mut d = DirtyScopes::default();
    assert!(!d.has_dirty_scopes());

    d.queue_task(Task(1), ord(0, 1));
    assert!(!d.has_dirty_scopes());

    d.queue_scope(ord(1, 2));
    assert!(d.has_dirty_scopes());

    let w = d.pop_work().unwrap();
    assert!(!w.rerun_scope);
    assert!(d.has_dirty_scopes());

    let w = d.pop_work().unwrap();
    assert!(w.rerun_scope);
    assert!(!d.has_dirty_scopes());
}

#[test]
fn removed_scope_is_never_returned() {
    let mut d = DirtyScopes::default();
    d.queue_scope(ord(2, 11));
    d.remove(&ord(2, 11));

    assert!(!d.has_dirty_scopes());
    assert!(d.pop_work().is_none());

    d.queue_scope(ord(2, 11));
    let w = d.pop_work().unwrap();
    assert!(w.rerun_scope);
    assert_eq!(w.scope.id, ScopeId(11));
}

#[test]
fn remove_leaves_task_bucket_in_place() {
    let mut d = DirtyScopes::default();
    d.queue_scope(ord(2, 11));
    d.queue_task(Task(3), ord(2, 11));
    d.remove(&ord(2, 11));

    let w = d.pop_work().unwrap();
    assert!(!w.rerun_scope);
    assert_eq!(w.scope.id, ScopeId(11));
    assert_eq!(w.tasks, vec![Task(3)]);
    assert!(d.pop_work().is_none());
}

#[test]
fn remove_of_absent_order_is_a_no_op() {
    let mut d = DirtyScopes::default();
    d.queue_scope(ord(1, 1));
    d.remove(&ord(9, 9));

    assert!(d.has_dirty_scopes());
    let w = d.pop_work().unwrap();
    assert_eq!(w.scope.id, ScopeId(1));
}

#[test]
fn pops_never_regress() {
    let mut d = DirtyScopes::default();
    d.queue_scope(ord(3, 2));
    d.queue_scope(ord(0, 9));
    d.queue_scope(ord(3, 1));
    d.queue_task(Task(1), ord(2, 4));
    d.queue_task(Task(2), ord(1, 5));
    d.queue_task(Task(3), ord(3, 1));

    let mut last: Option<(u32, usize)> = None;
    let mut pops: usize = 0;
    while let Some(w) = d.pop_work() {
        let key = (w.scope.height, w.scope.id.0);
        if let Some(prev) = last {
            assert!(prev < key, "pop order regressed: {:?} then {:?}", prev, key);
        }
        last = Some(key);
        pops += 1;
    }
    assert_eq!(pops, 5);
}

#[test]
fn smaller_scope_pops_before_task_bucket() {
    let mut d = DirtyScopes::default();
    d.queue_scope(ord(0, 1));
    d.queue_task(Task(1), ord(1, 2));

    let w1 = d.pop_work().unwrap();
    assert!(w1.rerun_scope);
    assert_eq!(w1.scope.id, ScopeId(1));
    assert!(w1.tasks.is_empty());

    let w2 = d.pop_work().unwrap();
    assert!(!w2.rerun_scope);
    assert_eq!(w2.scope.id, ScopeId(2));
    assert_eq!(w2.tasks, vec![Task(1)]);
}

#[test]
fn smaller_task_bucket_pops_before_scope() {
    let mut d = DirtyScopes::default();
    d.queue_scope(ord(2, 1));
    d.queue_task(Task(1), ord(1, 2));

    let w1 = d.pop_work().unwrap();
    assert!(!w1.rerun_scope);
    assert_eq!(w1.scope.id, ScopeId(2));

    let w2 = d.pop_work().unwrap();
    assert!(w2.rerun_scope);
    assert_eq!(w2.scope.id, ScopeId(1));
}

#[test]
fn same_id_with_other_height_is_not_merged() {
    let mut d = DirtyScopes::default();
    d.queue_scope(ord(2, 6));
    d.queue_task(Task(1), ord(1, 6));

    let w1 = d.pop_work().unwrap();
    assert!(!w1.rerun_scope);
    assert_eq!(w1.scope.height, 1);
    assert_eq!(w1.scope.id, ScopeId(6));
    assert_eq!(w1.tasks, vec![Task(1)]);

    let w2 = d.pop_work().unwrap();
    assert!(w2.rerun_scope);
    assert_eq!(w2.scope.height, 2);
    assert_eq!(w2.scope.id, ScopeId(6));
    assert!(d.pop_work().is_none());
}

#[test]
fn equal_height_breaks_tie_by_id() {
    let mut d = DirtyScopes::default();
    d.queue_scope(ord(1, 30));
    d.queue_scope(ord(1, 10));

    let w1 = d.pop_work().unwrap();
    assert_eq!(w1.scope.id, ScopeId(10));
    let w2 = d.pop_work().unwrap();
    assert_eq!(w2.scope.id, ScopeId(30));
}

#[test]
fn pop_scope_and_pop_task_bypass_merge() {
    let mut d = DirtyScopes::default();
    d.queue_scope(ord(1, 1));
    d.queue_task(Task(9), ord(1, 1));

    let s = d.pop_scope().unwrap();
    assert_eq!(s.height, 1);
    assert_eq!(s.id, ScopeId(1));
    assert!(d.pop_scope().is_none());

    let b = d.pop_task().unwrap();
    assert_eq!(b.order.id, ScopeId(1));
    assert_eq!(b.tasks_queued, vec![Task(9)]);
    assert!(d.pop_task().is_none());
}

#[test]
fn separate_orders_get_separate_buckets() {
    let mut d = DirtyScopes::default();
    d.queue_task(Task(1), ord(2, 2));
    d.queue_task(Task(2), ord(1, 1));

    let w1 = d.pop_work().unwrap();
    assert_eq!(w1.scope.id, ScopeId(1));
    assert_eq!(w1.tasks, vec![Task(2)]);

    let w2 = d.pop_work().unwrap();
    assert_eq!(w2.scope.id, ScopeId(2));
    assert_eq!(w2.tasks, vec![Task(1)]);
}

#[test]
fn dirty_tasks_bucket_accumulates_in_order() {
    let mut b = DirtyTasks::new(ord(3, 4));
    b.queue_task(Task(1));
    b.queue_task(Task(2));
    assert_eq!(b.order.height, 3);
    assert_eq!(b.order.id, ScopeId(4));
    assert_eq!(b.tasks_queued, vec![Task(1), Task(2)]);
}

#[test]
fn scope_order_equality_is_by_id_only() {
    assert!(ord(1, 5) == ord(9, 5));
    assert!(ord(1, 5) != ord(1, 6));
    assert!(ord(0, 2).comes_before(&ord(1, 1)));
    assert!(ord(1, 1).comes_before(&ord(1, 2)));
    assert!(!ord(1, 2).comes_before(&ord(1, 2)));
}

#[test]
fn scope_order_ordering_consults_height() {
    assert!(ord(0, 2) < ord(1, 1));
    assert!(ord(1, 1) < ord(1, 2));
    assert!(ord(9, 5) > ord(1, 6));
    // Ordered differently, yet equal: the documented asymmetry.
    assert!(ord(1, 5) < ord(2, 5) && ord(1, 5) == ord(2, 5));
}
