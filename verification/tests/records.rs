use chrono::Datelike;
use internetarchive_core::account::Account;
use internetarchive_core::catalog::{
    active_task_statuses, task_is_active, task_log_should_continue, CatalogTask,
};
use internetarchive_core::json::{JsonNumber, JsonValue};
use internetarchive_core::strmap::StrMap;

fn s(v: &str) -> JsonValue {
    JsonValue::String(v.to_string())
}

fn obj(pairs: Vec<(&str, JsonValue)>) -> StrMap<JsonValue> {
    StrMap::from_pairs(pairs.into_iter().map(|(k, v)| (k.to_string(), v)).collect())
}

fn account_json() -> StrMap<JsonValue> {
    obj(vec![
        ("locked", JsonValue::Bool(false)),
        ("verified", JsonValue::Bool(true)),
        ("email", s("foo@example.com")),
        ("canonical_email", s("foo@example.com")),
        ("itemname", s("@foo")),
        ("screenname", s("Foo")),
        ("notifications", JsonValue::Array(vec![s("a"), s("b")])),
        ("has_disability_access", JsonValue::Bool(false)),
        ("lastlogin", s("2026-01-01")),
        ("createdate", s("2026-01-01")),
    ])
}

#[test]
fn round_trips_account_json() {
    let json_data = account_json();
    let account = Account::from_json(&json_data).unwrap();
    assert_eq!(account.screenname, "Foo");
    assert_eq!(account.notifications, vec!["a", "b"]);
    assert_eq!(
        account.to_json().get("email"),
        Some(&JsonValue::String("foo@example.com".into()))
    );
}

#[test]
fn account_json_round_trip_is_exact() {
    let account = Account::from_json(&account_json()).unwrap();
    let again = Account::from_json(&account.to_json()).unwrap();
    assert_eq!(again, account);
    assert_eq!(account.to_json().len(), 10);
    assert!(account.verified);
    assert!(!account.locked);
}

#[test]
fn account_fields_of_the_wrong_kind_read_as_defaults() {
    let mut data = account_json();
    data.insert("verified".to_string(), s("yes"));
    data.insert("email".to_string(), JsonValue::Number(JsonNumber::PosInt(3)));
    data.insert(
        "notifications".to_string(),
        JsonValue::Array(vec![s("x"), JsonValue::Null, s("y")]),
    );
    let account = Account::from_json(&data).unwrap();
    assert!(!account.verified);
    assert_eq!(account.email, "");
    assert_eq!(account.notifications, vec!["x", "y"]);
}

#[test]
fn account_errors_name_the_problem() {
    let mut data = account_json();
    data.insert("notifications".to_string(), s("a"));
    assert_eq!(
        Account::from_json(&data),
        Err("notifications must be an array".to_string())
    );
    let missing = obj(vec![("notifications", JsonValue::Array(vec![]))]);
    assert_eq!(
        Account::from_json(&missing),
        Err("Missing required field in JSON data: locked".to_string())
    );
    assert_eq!(
        Account::from_json(&StrMap::new()),
        Err("Missing required field in JSON data: notifications".to_string())
    );
}

fn task_value(pairs: Vec<(&str, JsonValue)>) -> JsonValue {
    JsonValue::Object(obj(pairs))
}

#[test]
fn parses_task_json() {
    let task = CatalogTask::from_json(&task_value(vec![
        ("task_id", JsonValue::Number(JsonNumber::PosInt(123))),
        ("category", s("catalog")),
        ("status", s("running")),
        ("submittime", s("2026-05-28 12:00:00")),
    ]))
    .unwrap();
    assert_eq!(task.task_id(), Some(123));
    assert!(task.is_active());
}

#[test]
fn task_fields_read_only_their_kind() {
    let task = CatalogTask::from_json(&task_value(vec![
        ("task_id", JsonValue::Number(JsonNumber::NegInt(-4))),
        ("category", s("catalog")),
        ("status", JsonValue::Bool(true)),
    ]))
    .unwrap();
    assert_eq!(task.task_id(), None);
    assert_eq!(task.category(), Some("catalog"));
    assert_eq!(task.status(), None);
    assert_eq!(task.submittime(), None);
    assert!(!task.is_active());
    assert!(CatalogTask::from_json(&s("not an object")).is_none());
    assert!(CatalogTask::from_json(&JsonValue::Array(vec![])).is_none());
}

#[test]
fn selects_log_lines() {
    assert_eq!(CatalogTask::select_log_lines("a\nb\nc\nd\n", Some(-2)), "c\nd\n");
    assert_eq!(CatalogTask::select_log_lines("a\nb\n", Some(0)), "");
}

#[test]
fn log_line_selection_edges() {
    assert_eq!(CatalogTask::select_log_lines("a\nb\n", None), "a\nb\n");
    assert_eq!(CatalogTask::select_log_lines("a\nb\n", Some(3)), "");
    assert_eq!(CatalogTask::select_log_lines("a\nb\nc", Some(-1)), "c");
    assert_eq!(CatalogTask::select_log_lines("a\nb\nc", Some(-5)), "a\nb\nc");
    assert_eq!(CatalogTask::select_log_lines("a\r\nb\r\nc\r\n", Some(-2)), "b\nc\n");
    assert_eq!(CatalogTask::select_log_lines("x\ny\n", Some(i64::MIN)), "x\ny\n");
}

#[test]
fn sorts_by_date() {
    let task = CatalogTask::from_json(&task_value(vec![
        ("task_id", JsonValue::Number(JsonNumber::PosInt(123))),
        ("submittime", s("2026-05-28 12:00:00")),
    ]))
    .unwrap();
    let key = task.sort_key();
    let date = chrono::DateTime::from_timestamp(key.secs, key.nanos).unwrap();
    assert_eq!(date.year(), 2026);
}

#[test]
fn sort_key_reads_fractions_and_defaults() {
    let task = CatalogTask::from_json(&task_value(vec![(
        "submittime",
        s("2026-05-28 12:00:00.250000000"),
    )]))
    .unwrap();
    let key = task.sort_key();
    assert_eq!(key.nanos, 250_000_000);
    let date = chrono::DateTime::from_timestamp(key.secs, key.nanos).unwrap();
    assert_eq!(date.month(), 5);
    let missing = CatalogTask::from_json(&task_value(vec![])).unwrap();
    assert_eq!(missing.sort_key().secs, 0);
    let garbage = CatalogTask::from_json(&task_value(vec![("submittime", s("soon"))])).unwrap();
    // An unreadable time sorts as now.
    let now = garbage.sort_key();
    assert!(now.secs > 1_700_000_000);
    assert!(now.nanos < 1_000_000_000);
}

#[test]
fn active_statuses() {
    assert_eq!(active_task_statuses(), vec!["running", "queued", "paused"]);
    assert!(task_is_active(Some("queued")));
    assert!(task_is_active(Some("paused")));
    assert!(!task_is_active(Some("finished")));
    assert!(!task_is_active(None));
    assert!(task_log_should_continue(Some("running")));
    assert!(!task_log_should_continue(Some("error")));
}

#[test]
fn account_object_round_trips_through_to_json() {
    let data = account_json();
    let account = Account::from_json(&data).unwrap();
    assert_eq!(JsonValue::Object(account.to_json()), JsonValue::Object(data));
}

#[test]
fn selecting_log_lines_twice_changes_nothing() {
    for text in ["a\nb\nc\nd\n", "a\r\nb\r\r\nc", "", "\n\n", "x"] {
        for lines in [None, Some(0), Some(2), Some(-1), Some(-2), Some(-9)] {
            let once = CatalogTask::select_log_lines(text, lines);
            assert_eq!(CatalogTask::select_log_lines(&once, lines), once);
        }
    }
}
