use clockin::runner::{apply_sweep_outcome, due_tasks, SweepEvent, SweepGuard};
use clockin::store::SchedulerStore;
use clockin::types::{Lang, TaskStatus};

fn seeded_store() -> SchedulerStore {
    let mut store = SchedulerStore::new();
    for (id, user, at) in [("a", 1i64, 100i64), ("b", 2, 300), ("c", 3, 200)] {
        store
            .add_task(
                id.to_string(),
                user,
                at,
                Lang::En,
                "en".to_string(),
                "UTC".to_string(),
                10,
            )
            .expect("fresh id");
    }
    store
}

#[test]
fn second_trigger_is_excluded_until_release() {
    let mut guard = SweepGuard::new();
    assert!(guard.try_acquire());
    assert!(guard.running);
    assert!(!guard.try_acquire());
    assert!(guard.running);
    guard.release();
    assert!(!guard.running);
    assert!(guard.try_acquire());
}

#[test]
fn due_tasks_filters_and_sorts() {
    let mut store = seeded_store();
    store.mark_executed(&"c".to_string(), None, 250);
    let due = due_tasks(&store, 250);
    let ids: Vec<String> = due.iter().map(|t| t.id.clone()).collect();
    assert_eq!(ids, vec!["a".to_string()]);
    let due_later = due_tasks(&store, 1000);
    let ids: Vec<String> = due_later.iter().map(|t| t.id.clone()).collect();
    assert_eq!(ids, vec!["a".to_string(), "b".to_string()]);
}

#[test]
fn session_miss_consumes_the_task_once() {
    let mut store = seeded_store();
    assert!(apply_sweep_outcome(
        &mut store,
        &"a".to_string(),
        SweepEvent::SessionMissing,
        400,
    ));
    let t = &store.tasks[0];
    assert_ne!(t.status, TaskStatus::Pending);
    assert_eq!(t.status, TaskStatus::Failed);
    assert_eq!(t.error, Some("User not found".to_string()));
    assert_eq!(t.executed_at, Some(400));
    assert_eq!(store.tasks[1].status, TaskStatus::Pending);
    assert_eq!(store.tasks[2].status, TaskStatus::Pending);
}

#[test]
fn expired_session_records_fixed_reason() {
    let mut store = seeded_store();
    apply_sweep_outcome(&mut store, &"b".to_string(), SweepEvent::SessionExpired, 400);
    let t = &store.tasks[1];
    assert_eq!(t.status, TaskStatus::Failed);
    assert_eq!(t.error, Some("Session expired".to_string()));
}

#[test]
fn action_success_and_failure_fold_back() {
    let mut store = seeded_store();
    apply_sweep_outcome(&mut store, &"a".to_string(), SweepEvent::ActionSucceeded, 400);
    assert_eq!(store.tasks[0].status, TaskStatus::Executed);
    assert_eq!(store.tasks[0].error, None);
    apply_sweep_outcome(
        &mut store,
        &"b".to_string(),
        SweepEvent::ActionFailed("HTTP 500".to_string()),
        450,
    );
    assert_eq!(store.tasks[1].status, TaskStatus::Failed);
    assert_eq!(store.tasks[1].error, Some("HTTP 500".to_string()));
}

#[test]
fn unknown_task_id_is_reported() {
    let mut store = seeded_store();
    assert!(!apply_sweep_outcome(
        &mut store,
        &"zz".to_string(),
        SweepEvent::ActionSucceeded,
        400,
    ));
}
