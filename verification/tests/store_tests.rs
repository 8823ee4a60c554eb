use clockin::store::SchedulerStore;
use clockin::types::{Lang, ScheduledTask, TaskStatus};

fn add_named(store: &mut SchedulerStore, id: &str, user: i64, at: i64) -> ScheduledTask {
    store
        .add_task(
            id.to_string(),
            user,
            at,
            Lang::En,
            "en".to_string(),
            "Europe/Madrid".to_string(),
            1000,
        )
        .expect("fresh id")
}

#[test]
fn add_creates_pending_task() {
    let mut store = SchedulerStore::new();
    let t = add_named(&mut store, "a", 7, 5000);
    assert_eq!(t.id, "a");
    assert_eq!(t.user_id, 7);
    assert_eq!(t.status, TaskStatus::Pending);
    assert_eq!(t.executed_at, None);
    assert_eq!(t.error, None);
    assert_eq!(t.created_at, 1000);
    assert_eq!(store.tasks.len(), 1);
}

#[test]
fn add_refuses_duplicate_id() {
    let mut store = SchedulerStore::new();
    add_named(&mut store, "a", 7, 5000);
    let r = store.add_task(
        "a".to_string(),
        8,
        6000,
        Lang::Es,
        "es".to_string(),
        "UTC".to_string(),
        1000,
    );
    assert!(r.is_none());
    assert_eq!(store.tasks.len(), 1);
}

#[test]
fn generated_ids_are_fresh_and_hyphenated() {
    let mut store = SchedulerStore::new();
    let a = store
        .add(1, 10, Lang::En, "en".to_string(), "UTC".to_string(), 0)
        .expect("insert");
    let b = store
        .add(1, 20, Lang::En, "en".to_string(), "UTC".to_string(), 0)
        .expect("insert");
    assert_eq!(a.id.len(), 36);
    assert_ne!(a.id, b.id);
}

#[test]
fn listings_sort_ascending_for_any_insertion_order() {
    let mut store = SchedulerStore::new();
    add_named(&mut store, "late", 1, 300);
    add_named(&mut store, "early", 1, 100);
    add_named(&mut store, "mid", 2, 200);
    add_named(&mut store, "other", 1, 50);
    store.mark_executed(&"other".to_string(), None, 400);

    let pending = store.get_pending();
    let times: Vec<i64> = pending.iter().map(|t| t.scheduled_time).collect();
    assert_eq!(times, vec![100, 200, 300]);

    let mine = store.get_by_user(1);
    let times: Vec<i64> = mine.iter().map(|t| t.scheduled_time).collect();
    assert_eq!(times, vec![50, 100, 300]);
}

#[test]
fn equal_due_instants_keep_store_order() {
    let mut store = SchedulerStore::new();
    add_named(&mut store, "first", 1, 200);
    add_named(&mut store, "second", 1, 200);
    add_named(&mut store, "third", 1, 100);
    let pending = store.get_pending();
    let ids: Vec<String> = pending.iter().map(|t| t.id.clone()).collect();
    assert_eq!(
        ids,
        vec!["third".to_string(), "first".to_string(), "second".to_string()]
    );
    let mine = store.get_by_user(1);
    let ids: Vec<String> = mine.iter().map(|t| t.id.clone()).collect();
    assert_eq!(
        ids,
        vec!["third".to_string(), "first".to_string(), "second".to_string()]
    );
}

#[test]
fn mark_executed_success_stamps_instant() {
    let mut store = SchedulerStore::new();
    add_named(&mut store, "a", 7, 5000);
    assert!(store.mark_executed(&"a".to_string(), None, 9000));
    let t = &store.tasks[0];
    assert_eq!(t.status, TaskStatus::Executed);
    assert_eq!(t.executed_at, Some(9000));
    assert_eq!(t.error, None);
}

#[test]
fn mark_executed_failure_records_reason() {
    let mut store = SchedulerStore::new();
    add_named(&mut store, "a", 7, 5000);
    assert!(store.mark_executed(&"a".to_string(), Some("boom".to_string()), 9000));
    let t = &store.tasks[0];
    assert_eq!(t.status, TaskStatus::Failed);
    assert_eq!(t.executed_at, Some(9000));
    assert_eq!(t.error, Some("boom".to_string()));
}

#[test]
fn mark_executed_unknown_id_changes_nothing() {
    let mut store = SchedulerStore::new();
    add_named(&mut store, "a", 7, 5000);
    assert!(!store.mark_executed(&"zz".to_string(), None, 9000));
    assert_eq!(store.tasks[0].status, TaskStatus::Pending);
}

#[test]
fn terminal_tasks_can_be_marked_again() {
    let mut store = SchedulerStore::new();
    add_named(&mut store, "a", 7, 5000);
    assert!(store.mark_executed(&"a".to_string(), None, 9000));
    assert!(store.mark_executed(&"a".to_string(), Some("late".to_string()), 9500));
    let t = &store.tasks[0];
    assert_eq!(t.status, TaskStatus::Failed);
    assert_eq!(t.executed_at, Some(9500));
    assert_eq!(t.error, Some("late".to_string()));
}

#[test]
fn pending_iff_no_execution_instant() {
    let mut store = SchedulerStore::new();
    add_named(&mut store, "a", 7, 5000);
    add_named(&mut store, "b", 7, 6000);
    store.mark_executed(&"a".to_string(), None, 9000);
    store.cancel(&"b".to_string(), 9100);
    for t in &store.tasks {
        assert_eq!(t.status == TaskStatus::Pending, t.executed_at.is_none());
        assert_eq!(t.status == TaskStatus::Failed, t.error.is_some());
    }
}

#[test]
fn cancel_uses_sentinel_reason() {
    let mut store = SchedulerStore::new();
    add_named(&mut store, "a", 7, 5000);
    assert!(store.cancel(&"a".to_string(), 9000));
    let t = &store.tasks[0];
    assert_eq!(t.status, TaskStatus::Failed);
    assert_eq!(t.error, Some("cancelled".to_string()));
    assert_eq!(t.executed_at, Some(9000));
    assert!(!store.cancel(&"zz".to_string(), 9000));
}

#[test]
fn reload_rejects_duplicate_ids() {
    let mut store = SchedulerStore::new();
    let a = add_named(&mut store, "a", 1, 10);
    let mut b = a.clone();
    b.user_id = 2;
    let rebuilt = SchedulerStore::from_tasks(vec![a, b]);
    assert_eq!(rebuilt.tasks.len(), 0);
}

#[test]
fn reload_rejects_inconsistent_records() {
    let mut store = SchedulerStore::new();
    let mut a = add_named(&mut store, "a", 1, 10);
    a.executed_at = Some(99);
    let rebuilt = SchedulerStore::from_tasks(vec![a]);
    assert_eq!(rebuilt.tasks.len(), 0);
}

#[test]
fn reload_keeps_consistent_records() {
    let mut store = SchedulerStore::new();
    add_named(&mut store, "a", 1, 10);
    add_named(&mut store, "b", 2, 20);
    store.cancel(&"a".to_string(), 30);
    let copy: Vec<ScheduledTask> = store.tasks.iter().map(|t| t.clone()).collect();
    let rebuilt = SchedulerStore::from_tasks(copy);
    assert_eq!(rebuilt.tasks.len(), 2);
    assert_eq!(rebuilt.tasks[0].id, "a");
    assert_eq!(rebuilt.tasks[1].id, "b");
}
