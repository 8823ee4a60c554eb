use clockin::codec::{parse_tasks, render_tasks};
use clockin::types::{Lang, ScheduledTask, TaskStatus};

fn sample_tasks() -> Vec<ScheduledTask> {
    vec![
        ScheduledTask {
            id: "a-1".to_string(),
            user_id: 7,
            lang: Lang::En,
            locale: "en".to_string(),
            time_zone: "Europe/Madrid".to_string(),
            scheduled_time: 1_718_000_000_000,
            created_at: 1_717_000_000_000,
            executed_at: None,
            status: TaskStatus::Pending,
            error: None,
        },
        ScheduledTask {
            id: "b \"quoted\" \\ and\nnewline".to_string(),
            user_id: -42,
            lang: Lang::Es,
            locale: "es-ES".to_string(),
            time_zone: "América/México".to_string(),
            scheduled_time: -5,
            created_at: 0,
            executed_at: Some(123),
            status: TaskStatus::Executed,
            error: None,
        },
        ScheduledTask {
            id: "c".to_string(),
            user_id: i64::MAX,
            lang: Lang::En,
            locale: "".to_string(),
            time_zone: "UTC".to_string(),
            scheduled_time: i64::MIN,
            created_at: 99,
            executed_at: Some(100),
            status: TaskStatus::Failed,
            error: Some("".to_string()),
        },
    ]
}

fn assert_same(a: &ScheduledTask, b: &ScheduledTask) {
    assert_eq!(a.id, b.id);
    assert_eq!(a.user_id, b.user_id);
    assert_eq!(a.lang, b.lang);
    assert_eq!(a.locale, b.locale);
    assert_eq!(a.time_zone, b.time_zone);
    assert_eq!(a.scheduled_time, b.scheduled_time);
    assert_eq!(a.created_at, b.created_at);
    assert_eq!(a.executed_at, b.executed_at);
    assert_eq!(a.status, b.status);
    assert_eq!(a.error, b.error);
}

#[test]
fn three_records_round_trip() {
    let tasks = sample_tasks();
    let text = render_tasks(&tasks);
    let back = parse_tasks(&text).expect("canonical text parses");
    assert_eq!(back.len(), tasks.len());
    for (a, b) in tasks.iter().zip(back.iter()) {
        assert_same(a, b);
    }
}

#[test]
fn none_and_empty_string_error_stay_distinct() {
    let tasks = sample_tasks();
    let text = render_tasks(&tasks);
    let back = parse_tasks(&text).expect("parses");
    assert_eq!(back[0].error, None);
    assert_eq!(back[2].error, Some("".to_string()));
}

#[test]
fn empty_collection_round_trips() {
    let empty: Vec<ScheduledTask> = Vec::new();
    let text = render_tasks(&empty);
    assert_eq!(text, "[]");
    let back = parse_tasks(&text).expect("parses");
    assert!(back.is_empty());
}

#[test]
fn renderer_emits_expected_text() {
    let tasks = vec![ScheduledTask {
        id: "x".to_string(),
        user_id: 5,
        lang: Lang::En,
        locale: "en".to_string(),
        time_zone: "UTC".to_string(),
        scheduled_time: 10,
        created_at: 3,
        executed_at: None,
        status: TaskStatus::Pending,
        error: None,
    }];
    let text = render_tasks(&tasks);
    assert_eq!(
        text,
        "[{\"id\":\"x\",\"userId\":5,\"lang\":\"en\",\"locale\":\"en\",\"timeZone\":\"UTC\",\"scheduledTime\":10,\"createdAt\":3,\"executedAt\":null,\"status\":\"pending\",\"error\":null}]"
    );
}

#[test]
fn control_characters_escape_and_return() {
    let tasks = vec![ScheduledTask {
        id: "tab\there\u{1}".to_string(),
        user_id: 0,
        lang: Lang::En,
        locale: "en".to_string(),
        time_zone: "UTC".to_string(),
        scheduled_time: 0,
        created_at: 0,
        executed_at: None,
        status: TaskStatus::Pending,
        error: None,
    }];
    let text = render_tasks(&tasks);
    assert!(text.contains("\\u0009"));
    assert!(text.contains("\\u0001"));
    let back = parse_tasks(&text).expect("parses");
    assert_eq!(back[0].id, "tab\there\u{1}");
}

#[test]
fn garbage_is_rejected() {
    assert!(parse_tasks("").is_none());
    assert!(parse_tasks("{}").is_none());
    assert!(parse_tasks("[").is_none());
    assert!(parse_tasks("[]x").is_none());
    assert!(parse_tasks("[{\"id\":\"x\"}]").is_none());
}
