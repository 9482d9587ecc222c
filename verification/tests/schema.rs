//! What is read out of the schema of a database.

use state_capture::error::CaptureError;
use state_capture::schema::{
    all_rows_sql, captured_table, is_without_rowid, payload_from_insert_trigger, pk_columns, rowid_page_sql,
    select_list, table_info_sql, trigger_table, validate_ident, CapturedTable, Col, TableScan, Trigger,
};

fn col(name: &str, pk: i64) -> Col {
    Col { name: name.into(), pk }
}

fn table(name: &str, pk: &[&str], payload: &[&str]) -> CapturedTable {
    CapturedTable {
        name: name.into(),
        pk: pk.iter().map(|s| s.to_string()).collect(),
        payload: payload.iter().map(|s| s.to_string()).collect(),
        without_rowid: false,
    }
}

#[test]
fn snapshot_payload_omits_excluded_column() {
    let names = payload_from_insert_trigger(
        r#"
            CREATE TRIGGER _cap_I_jobs AFTER INSERT ON jobs BEGIN
              INSERT INTO _outbox(tbl, op, key, before, after)
              VALUES ('jobs', 'I', json_object('id', NEW.id), NULL,
                      json_object('id', NEW.id, 'state', NEW.state));
            END;
            "#,
    )
    .unwrap();
    assert_eq!(names, ["id", "state"]);
    assert!(!names.iter().any(|n| n == "secret"));
}

#[test]
fn payload_is_read_up_to_the_closing_parenthesis() {
    assert_eq!(payload_from_insert_trigger("json_object('a', 1) 'b'"), Some(vec!["a".to_string()]));
    assert_eq!(payload_from_insert_trigger("json_object('a', 'b c', '', 'd'"), Some(vec!["a".into(), "d".into()]));
    assert_eq!(payload_from_insert_trigger("json_object('é', 'x', f(y), 'z')"), Some(vec!["x".to_string()]));
    assert_eq!(payload_from_insert_trigger("json_object()"), None);
    assert_eq!(payload_from_insert_trigger("JSON_OBJECT('a', 1)"), None);
    assert_eq!(payload_from_insert_trigger("json_object('open"), Some(vec!["open".to_string()]));
    assert_eq!(payload_from_insert_trigger(""), None);
}

#[test]
fn identifiers_are_ascii_words() {
    let long = "x".repeat(128);
    for name in ["a", "_", "A9_", long.as_str()] {
        assert_eq!(validate_ident(name), Ok(()));
    }
    let longer = "x".repeat(129);
    for name in ["", "9a", "a-b", "a\"b", "é", longer.as_str()] {
        assert_eq!(validate_ident(name), Err(CaptureError::Ident { name: name.to_string() }));
    }
    assert_eq!(validate_ident("a\nb").unwrap_err().message(), "invalid SQL identifier \"a\\nb\"");
}

#[test]
fn primary_key_stands_in_key_order() {
    let cols = vec![col("c", 2), col("x", 0), col("a", 3), col("b", 1), col("d", 2)];
    assert_eq!(pk_columns(&cols), ["b", "c", "d", "a"]);
    assert!(pk_columns(&vec![col("x", 0)]).is_empty());
}

#[test]
fn without_rowid_is_found_in_any_case() {
    assert!(is_without_rowid(Some("CREATE TABLE t (k TEXT PRIMARY KEY) Without\tRowid")));
    assert!(is_without_rowid(Some("create table t (k text primary key) without\nrowid")));
    assert!(!is_without_rowid(Some("CREATE TABLE t (k TEXT PRIMARY KEY) WITHOUT  ROWID")));
    assert!(!is_without_rowid(Some("CREATE TABLE t (k TEXT)")));
    assert!(!is_without_rowid(None));
}

#[test]
fn statements_quote_their_names() {
    let t = table("jobs", &["id"], &["id", "state"]);
    assert_eq!(select_list(&t), Ok(r#""id", "state""#.to_string()));
    assert_eq!(
        rowid_page_sql(&t, true, 5000).unwrap(),
        r#"SELECT rowid, "id", "state" FROM "jobs" ORDER BY rowid LIMIT 5000"#
    );
    assert_eq!(
        rowid_page_sql(&t, false, 5000).unwrap(),
        r#"SELECT rowid, "id", "state" FROM "jobs" WHERE rowid > ?1 ORDER BY rowid LIMIT 5000"#
    );
    assert_eq!(all_rows_sql(&t).unwrap(), r#"SELECT "id", "state" FROM "jobs""#);
    assert_eq!(table_info_sql("jobs"), r#"PRAGMA table_info("jobs")"#);
}

#[test]
fn nothing_to_select_is_refused() {
    let err = select_list(&table("jobs", &[], &[])).unwrap_err();
    assert_eq!(err, CaptureError::NoColumns { table: "jobs".into() });
    assert_eq!(err.message(), "jobs has no key or payload columns");
    let bad = table("jobs", &["id"], &["a b"]);
    assert_eq!(all_rows_sql(&bad), Err(CaptureError::Ident { name: "a b".into() }));
}

#[test]
fn triggers_name_their_tables() {
    assert_eq!(trigger_table("_cap_I_jobs"), Ok(Some("jobs".to_string())));
    assert_eq!(trigger_table("_cap_I__outbox"), Ok(None));
    let err = trigger_table("xcap_I_jobs").unwrap_err();
    assert_eq!(err, CaptureError::UnexpectedTrigger { trigger: "xcap_I_jobs".into() });
    assert_eq!(err.message(), "unexpected trigger xcap_I_jobs");
    assert_eq!(trigger_table("_cap_I_a b"), Err(CaptureError::Ident { name: "a b".into() }));
}

#[test]
fn captured_table_checks_every_name() {
    let trigger = Trigger { name: "_cap_I_t".into(), sql: "json_object('v', NEW.v)".into() };
    let found = captured_table(&trigger, "t".into(), &vec![col("k", 1), col("v", 0)], None).unwrap();
    assert_eq!(found, table("t", &["k"], &["v"]));
    let bad = captured_table(&trigger, "t".into(), &vec![col("k k", 1)], None);
    assert_eq!(bad, Err(CaptureError::Ident { name: "k k".into() }));
}

#[test]
fn scan_goes_through_the_triggers() {
    let mut scan = TableScan::new(vec![
        Trigger { name: "_cap_I__outbox".into(), sql: "".into() },
        Trigger { name: "_cap_I_t".into(), sql: "json_object('v', NEW.v)".into() },
    ]);
    assert_eq!(scan.next(), Ok(Some("t".to_string())));
    assert_eq!(scan.described("t".into(), &vec![col("v", 0)], Some("CREATE TABLE t (v)")), Ok(()));
    assert_eq!(scan.next(), Ok(None));
    assert_eq!(scan.finish(), vec![table("t", &[], &["v"])]);
}
