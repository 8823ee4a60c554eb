use clockin::commands::{command_arg, first_token, user_tz};
use clockin::config::Config;
use clockin::cookies::{parse_json_cookies, CookieEntry};
use clockin::sessions::{is_session_expired, Database};
use clockin::types::{Cookies, UserData};

fn session(user_id: i64, expires: i64, tz: Option<&str>) -> UserData {
    UserData {
        user_id,
        time_zone: tz.map(|t| t.to_string()),
        cookies: Cookies {
            geo: "g".to_string(),
            hcmex: "h".to_string(),
            device_id: "d".to_string(),
            domain: "example.test".to_string(),
            expires,
        },
    }
}

#[test]
fn database_add_get_remove() {
    let mut db = Database::new();
    assert!(db.get_user(1).is_none());
    db.add_user(1, session(10, 100, None));
    db.add_user(2, session(20, 200, None));
    let u = db.get_user(1).expect("present");
    assert_eq!(u.user_id, 10);
    db.add_user(1, session(11, 100, None));
    assert_eq!(db.get_user(1).expect("present").user_id, 11);
    assert_eq!(db.users.len(), 2);
    db.remove_user(1);
    assert!(db.get_user(1).is_none());
    assert!(db.get_user(2).is_some());
    db.remove_user(99);
    assert_eq!(db.users.len(), 1);
}

#[test]
fn freshness_deadline_is_inclusive() {
    let u = session(1, 1000, None);
    assert!(is_session_expired(&u, 1000));
    assert!(is_session_expired(&u, 1001));
    assert!(!is_session_expired(&u, 999));
}

#[test]
fn cookie_selection_reads_three_names() {
    let entries = vec![
        CookieEntry {
            name: "noise".to_string(),
            value: Some("x".to_string()),
            domain: None,
            expiration_ms: None,
        },
        CookieEntry {
            name: "geo".to_string(),
            value: Some("geo-blob".to_string()),
            domain: None,
            expiration_ms: None,
        },
        CookieEntry {
            name: "_hcmex_key".to_string(),
            value: Some("secret".to_string()),
            domain: Some("example.test".to_string()),
            expiration_ms: Some(5000),
        },
        CookieEntry {
            name: "device_id".to_string(),
            value: Some("dev-1".to_string()),
            domain: None,
            expiration_ms: None,
        },
    ];
    let c = parse_json_cookies(&entries);
    assert_eq!(c.geo, "geo-blob");
    assert_eq!(c.hcmex, "secret");
    assert_eq!(c.device_id, "dev-1");
    assert_eq!(c.domain, "example.test");
    assert_eq!(c.expires, 5000);
}

#[test]
fn later_cookie_entries_win_and_absent_fields_default() {
    let entries = vec![
        CookieEntry {
            name: "geo".to_string(),
            value: Some("old".to_string()),
            domain: None,
            expiration_ms: None,
        },
        CookieEntry {
            name: "geo".to_string(),
            value: None,
            domain: None,
            expiration_ms: None,
        },
    ];
    let c = parse_json_cookies(&entries);
    assert_eq!(c.geo, "");
    assert_eq!(c.hcmex, "");
    assert_eq!(c.expires, 0);
}

#[test]
fn first_token_and_argument() {
    assert_eq!(first_token("/clockin 9:30"), "/clockin");
    assert_eq!(first_token("   /list  "), "/list");
    assert_eq!(first_token(""), "");
    assert_eq!(command_arg("/clockin 9:30 am"), Some("9:30 am".to_string()));
    assert_eq!(command_arg("/cancel   all  "), Some("all".to_string()));
    assert_eq!(command_arg("/list"), None);
}

#[test]
fn session_zone_falls_back_to_default() {
    assert_eq!(user_tz(&session(1, 0, Some("Europe/Paris"))), "Europe/Paris");
    assert_eq!(user_tz(&session(1, 0, Some("   "))), "Europe/Madrid");
    assert_eq!(user_tz(&session(1, 0, None)), "Europe/Madrid");
}

#[test]
fn data_paths_join_against_the_data_dir() {
    let cfg = Config {
        telegram_bot_token: "test-token".to_string(),
        node_env: "test".to_string(),
        port: 3000,
        webhook_url: None,
        data_dir: "/data".to_string(),
    };
    assert_eq!(cfg.resolve_data_path("tasks.json"), "/data/tasks.json");
    let cfg2 = Config { data_dir: "/data/".to_string(), ..cfg };
    assert_eq!(cfg2.resolve_data_path("tasks.json"), "/data/tasks.json");
    let cfg3 = Config { data_dir: "".to_string(), ..cfg2 };
    assert_eq!(cfg3.resolve_data_path("tasks.json"), "tasks.json");
    assert_eq!(cfg3.resolve_data_path("/abs/t.json"), "/abs/t.json");
}
