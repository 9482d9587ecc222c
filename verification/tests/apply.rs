//! Applying events to tables of the shape of `capture.events`, `capture.current` and
//! `capture.watermarks`.

use serde_json::Value;
use state_capture::apply::{
    apply_events, apply_file, apply_spool, event_lines, file_events, ApplyAction, ApplyRun, ApplyStats, EventLine, SpoolAction,
};
use state_capture::event::Event;
use state_capture::keytext::key_text;
use state_capture::spool::batch_body;
use state_capture::tables::{Live, Tables};

fn json(text: &str) -> Value {
    serde_json::from_str(text).unwrap()
}

fn ev(src_db: &str, seq: i64, tbl: &str, op: &str, key: Value, after: Option<Value>) -> Event {
    Event {
        src_db: src_db.into(),
        seq,
        tbl: tbl.into(),
        op: op.into(),
        ts: 1_700_000_000,
        key,
        before: None,
        after,
    }
}

/// `after->>field` of a live row.
fn field(tables: &Tables, src: &str, tbl: &str, key: &Value, name: &str) -> String {
    let live = tables.live(src, tbl, key).expect("live row");
    match &live.after[name] {
        Value::String(s) => s.clone(),
        other => other.to_string(),
    }
}

#[test]
fn migrate_insert_upsert_idempotent() {
    let mut tables = Tables::new();
    let src = "apply-pg-1-700000000";
    let seq = 700_000_001;
    let key = json(r#"{"icao24":"abcdef","dep_ts":"2024-01-15T12:00:00Z"}"#);
    let event = ev(
        src,
        seq,
        "trips",
        "I",
        key.clone(),
        Some(json(
            r#"{
            "icao24": "abcdef",
            "dep_ts": "2024-01-15T12:00:00Z",
            "n_number": "N1",
            "ticker": "AAA",
            "source": "opensky_flights",
            "fetched_at": "2026-08-31T00:00:00Z"
        }"#,
        )),
    );
    let first = apply_events(&mut tables, vec![event.clone()]);
    assert_eq!(first.events, 1);
    assert_eq!(first.inserted, 1);
    let second = apply_events(&mut tables, vec![event.clone()]);
    assert_eq!(second.inserted, 0);
    assert_eq!(field(&tables, src, "trips", &key, "ticker"), "AAA");
    assert_eq!(tables.event(src, seq), Some(&event));
    assert_eq!(tables.event(src, seq + 1), None);
    assert_eq!(tables.watermark(src), Some(seq));
}

#[test]
fn unknown_src_db_and_tbl_need_no_schema_change() {
    let mut tables = Tables::new();
    let src = "fifth-util-1-700000002";
    let seq = 700_000_003;
    let key = json(&format!(r#"{{"id":{seq}}}"#));
    apply_events(
        &mut tables,
        vec![ev(
            src,
            seq,
            "widgets",
            "I",
            key.clone(),
            Some(json(&format!(r#"{{"id":{seq},"color":"blue"}}"#))),
        )],
    );
    assert_eq!(field(&tables, src, "widgets", &key, "color"), "blue");
}

#[test]
fn current_upsert_delete_and_stale_seq() {
    let mut tables = Tables::new();
    let src = "tail-to-ticker-1-700000004";
    let seq_u = 700_000_005;
    let seq_old = seq_u - 1;
    let seq_d = 700_000_006;
    let key = json(&format!(r#"{{"n_number":"N{seq_u}"}}"#));

    apply_events(
        &mut tables,
        vec![ev(
            src,
            seq_u,
            "mappings_current",
            "U",
            key.clone(),
            Some(json(&format!(
                r#"{{"n_number":"N{seq_u}","ticker":"WMT","deleted_at":1710000000}}"#
            ))),
        )],
    );
    assert_eq!(field(&tables, src, "mappings_current", &key, "ticker"), "WMT");
    assert_eq!(field(&tables, src, "mappings_current", &key, "deleted_at"), "1710000000");

    apply_events(
        &mut tables,
        vec![ev(
            src,
            seq_old,
            "mappings_current",
            "U",
            key.clone(),
            Some(json(&format!(r#"{{"n_number":"N{seq_u}","ticker":"OLD"}}"#))),
        )],
    );
    assert_eq!(field(&tables, src, "mappings_current", &key, "ticker"), "WMT");
    assert_eq!(tables.watermark(src), Some(seq_u));

    apply_events(
        &mut tables,
        vec![ev(src, seq_d, "mappings_current", "D", key.clone(), None)],
    );
    assert!(tables.live(src, "mappings_current", &key).is_none());
}

#[test]
fn replay_insert_after_delete_does_not_resurrect() {
    let mut tables = Tables::new();
    let src = "replay-1-700000007";
    let key = json(r#"{"id":1}"#);
    let seq_i = 700_000_008;
    let seq_d = 700_000_009;
    let insert = ev(src, seq_i, "t", "I", key.clone(), Some(json(r#"{"id":1,"v":"live"}"#)));
    apply_events(&mut tables, vec![insert.clone()]);
    assert!(tables.live(src, "t", &key).is_some());
    apply_events(&mut tables, vec![ev(src, seq_d, "t", "D", key.clone(), None)]);
    let replay = apply_events(&mut tables, vec![insert]);
    assert_eq!(replay.inserted, 0);
    assert!(tables.live(src, "t", &key).is_none());
}

#[test]
fn later_delete_blocks_earlier_insert_replay() {
    let mut tables = Tables::new();
    let src = "order-1-700000010";
    let key = json(r#"{"id":2}"#);
    let seq_i = 700_000_011;
    let seq_d = 700_000_012;
    let stats = apply_events(
        &mut tables,
        vec![
            ev(src, seq_d, "t", "D", key.clone(), None),
            ev(src, seq_i, "t", "I", key.clone(), Some(json(r#"{"id":2,"v":"stale"}"#))),
        ],
    );
    assert_eq!(stats, ApplyStats { files: 0, events: 2, inserted: 2 });
    assert!(tables.live(src, "t", &key).is_none());
    assert_eq!(tables.watermark(src), Some(seq_d));
}

#[test]
fn retract_heals_current_when_events_already_logged() {
    let mut tables = Tables::new();
    let src = "heal-1-700000013";
    let key = json(r#"{"id":3}"#);
    let seq_i = 700_000_014;
    let seq_d = 700_000_015;
    let insert = ev(src, seq_i, "t", "I", key.clone(), Some(json(r#"{"id":3,"v":"live"}"#)));
    apply_events(&mut tables, vec![insert.clone()]);
    apply_events(&mut tables, vec![ev(src, seq_d, "t", "D", key.clone(), None)]);
    tables.put_live(
        src,
        "t",
        &key,
        Live { after: json(r#"{"id":3,"v":"resurrected"}"#), seq: seq_i, ts: 1 },
    );
    assert!(tables.live(src, "t", &key).is_some());
    let replay = apply_events(&mut tables, vec![insert]);
    assert_eq!(replay.inserted, 0);
    assert!(tables.live(src, "t", &key).is_none());
}

#[test]
fn retract_is_scoped_to_the_first_database() {
    let mut tables = Tables::new();
    let key = json(r#"{"id":1}"#);
    apply_events(&mut tables, vec![ev("a", 9, "t", "D", key.clone(), None)]);
    apply_events(&mut tables, vec![ev("b", 9, "t", "D", key.clone(), None)]);
    for src in ["a", "b"] {
        tables.put_live(src, "t", &key, Live { after: json("{}"), seq: 1, ts: 1 });
    }
    apply_events(&mut tables, vec![ev("a", 10, "u", "D", key.clone(), None)]);
    assert!(tables.live("a", "t", &key).is_none());
    assert!(tables.live("b", "t", &key).is_some());
}

#[test]
fn keys_are_compared_as_values_not_as_texts() {
    let mut tables = Tables::new();
    let one = json(r#"{"a":1,"b":2}"#);
    let other = json(r#"{ "b" : 2, "a" : 1 }"#);
    apply_events(&mut tables, vec![ev("s", 1, "t", "I", one, Some(json(r#"{"v":1}"#)))]);
    assert_eq!(field(&tables, "s", "t", &other, "v"), "1");
    apply_events(&mut tables, vec![ev("s", 2, "t", "D", other.clone(), None)]);
    assert!(tables.live("s", "t", &other).is_none());
}

#[test]
fn numbers_in_keys_are_compared_by_value() {
    let mut tables = Tables::new();
    let key = json(r#"{"id":100,"z":0}"#);
    apply_events(&mut tables, vec![ev("s", 1, "t", "I", key.clone(), Some(json(r#"{"v":1}"#)))]);
    for same in [r#"{"id":100.0,"z":-0.0}"#, r#"{"id":1e2,"z":0e5}"#, r#"{"z":0.00,"id":10.0e1}"#] {
        assert_eq!(field(&tables, "s", "t", &json(same), "v"), "1");
    }
    for other in [r#"{"id":"100","z":0}"#, r#"{"id":100.5,"z":0}"#, r#"{"id":-100,"z":0}"#, r#"{"id":1,"z":0}"#] {
        assert!(tables.live("s", "t", &json(other)).is_none());
    }
    apply_events(&mut tables, vec![ev("s", 2, "t", "D", json(r#"{"id":1e2,"z":0}"#), None)]);
    assert!(tables.live("s", "t", &key).is_none());
}

#[test]
fn key_text_writes_a_number_in_one_form() {
    let forms = [
        ("1", "1e0"),
        ("1.0", "1e0"),
        ("-120", "-12e1"),
        ("0.05", "5e-2"),
        ("1.5e300", "15e299"),
        ("0", "0"),
        ("-0.0", "0"),
        ("18446744073709551615", "18446744073709551615e0"),
        ("[1,2.50,\"1.0\",null,true]", "[1e0,25e-1,\"1.0\",null,true]"),
        ("{\"a\\\"1\":10}", "{\"a\\\"1\":1e1}"),
        ("-", "-"),
        ("1e99999999999", "1e99999999999"),
    ];
    for (text, expected) in forms {
        assert_eq!(key_text(text), expected);
    }
}

#[test]
fn writes_in_any_order_leave_the_newest() {
    let key = json(r#"{"id":1}"#);
    let events: Vec<Event> = (1..=3)
        .map(|seq| ev("s", seq, "t", "U", key.clone(), Some(json(&format!(r#"{{"v":{seq}}}"#)))))
        .collect();
    for order in [[0, 1, 2], [2, 1, 0], [1, 2, 0]] {
        let mut whole = Tables::new();
        apply_events(&mut whole, order.iter().map(|i| events[*i].clone()).collect());
        let mut parts = Tables::new();
        for i in order {
            apply_events(&mut parts, vec![events[i].clone()]);
        }
        assert_eq!(field(&whole, "s", "t", &key, "v"), "3");
        assert_eq!(field(&parts, "s", "t", &key, "v"), "3");
    }
}

#[test]
fn event_without_payload_leaves_the_row() {
    let mut tables = Tables::new();
    let key = json(r#"{"id":1}"#);
    apply_events(
        &mut tables,
        vec![
            ev("s", 1, "t", "I", key.clone(), Some(json(r#"{"v":"kept"}"#))),
            ev("s", 2, "t", "U", key.clone(), None),
        ],
    );
    assert_eq!(field(&tables, "s", "t", &key, "v"), "kept");
    assert_eq!(tables.watermark("s"), Some(2));
}

#[test]
fn older_deletion_still_takes_the_row_away() {
    let mut tables = Tables::new();
    let key = json(r#"{"id":1}"#);
    apply_events(&mut tables, vec![ev("s", 9, "t", "U", key.clone(), Some(json("{}")))]);
    apply_events(&mut tables, vec![ev("s", 3, "t", "D", key.clone(), None)]);
    assert!(tables.live("s", "t", &key).is_none());
}

#[test]
fn no_events_change_nothing() {
    let mut tables = Tables::new();
    let stats = apply_events(&mut tables, Vec::new());
    assert_eq!(stats, ApplyStats::default());
    assert_eq!(tables.watermark("s"), None);
}

#[test]
fn events_in_order_leave_the_last_word() {
    let mut tables = Tables::new();
    let a = json(r#"{"id":1}"#);
    let b = json(r#"{"id":2}"#);
    let stats = apply_events(
        &mut tables,
        vec![
            ev("s", 1, "t", "I", a.clone(), Some(json(r#"{"v":1}"#))),
            ev("s", 2, "t", "I", b.clone(), Some(json(r#"{"v":2}"#))),
            ev("s", 3, "t", "D", a.clone(), None),
            ev("s", 4, "t", "U", b.clone(), Some(json(r#"{"v":4}"#))),
            ev("s", 5, "t", "I", a.clone(), Some(json(r#"{"v":5}"#))),
        ],
    );
    assert_eq!(stats.inserted, 5);
    let live = tables.live("s", "t", &a).unwrap();
    assert_eq!((live.seq, live.ts), (5, 1_700_000_000));
    assert_eq!(field(&tables, "s", "t", &a, "v"), "5");
    assert_eq!(field(&tables, "s", "t", &b, "v"), "4");
}

#[test]
fn same_events_cut_into_batches_give_the_same_rows() {
    let key = json(r#"{"id":1}"#);
    let events = vec![
        ev("s", 1, "t", "I", key.clone(), Some(json(r#"{"v":1}"#))),
        ev("s", 2, "t", "D", key.clone(), None),
        ev("s", 3, "t", "I", key.clone(), Some(json(r#"{"v":3}"#))),
    ];
    let mut whole = Tables::new();
    apply_events(&mut whole, events.clone());
    let mut parts = Tables::new();
    for e in &events {
        apply_events(&mut parts, vec![e.clone()]);
    }
    assert_eq!(field(&whole, "s", "t", &key, "v"), "3");
    assert_eq!(field(&parts, "s", "t", &key, "v"), "3");
}

#[test]
fn other_databases_are_left_alone() {
    let mut tables = Tables::new();
    let key = json(r#"{"id":1}"#);
    apply_events(&mut tables, vec![ev("a", 5, "t", "I", key.clone(), Some(json(r#"{"v":"a"}"#)))]);
    apply_events(&mut tables, vec![ev("b", 7, "t", "D", key.clone(), None)]);
    assert_eq!(field(&tables, "a", "t", &key, "v"), "a");
    assert_eq!(tables.watermark("a"), Some(5));
    assert_eq!(tables.watermark("b"), Some(7));
}

#[test]
fn a_taken_number_keeps_its_event() {
    let mut tables = Tables::new();
    let key = json(r#"{"id":1}"#);
    let first = ev("s", 1, "t", "I", key.clone(), Some(json(r#"{"v":"first"}"#)));
    apply_events(&mut tables, vec![first.clone()]);
    let stats = apply_events(
        &mut tables,
        vec![ev("s", 1, "t", "U", key.clone(), Some(json(r#"{"v":"second"}"#)))],
    );
    assert_eq!(stats.inserted, 0);
    assert_eq!(tables.event("s", 1), Some(&first));
    assert_eq!(field(&tables, "s", "t", &key, "v"), "first");
}

#[test]
fn application_asks_for_each_step() {
    let key = json(r#"{"id":1}"#);
    let mut run = ApplyRun::new(vec![
        ev("s", 1, "t", "I", key.clone(), Some(json("{}"))),
        ev("s", 2, "t", "D", key.clone(), None),
        ev("s", 2, "t", "D", key.clone(), None),
    ]);
    assert_eq!(run.action(), ApplyAction::Insert { index: 0 });
    run.logged(1);
    assert_eq!(run.action(), ApplyAction::Upsert { index: 0 });
    run.row_done();
    assert_eq!(run.action(), ApplyAction::Watermark { index: 0 });
    run.marked();
    run.logged(1);
    assert_eq!(run.action(), ApplyAction::Delete { index: 1 });
    run.row_done();
    run.marked();
    assert_eq!(run.action(), ApplyAction::Insert { index: 2 });
    run.logged(0);
    assert_eq!(run.action(), ApplyAction::Watermark { index: 2 });
    run.marked();
    assert_eq!(run.action(), ApplyAction::Retract);
    run.retracted();
    assert_eq!(run.action(), ApplyAction::Done);
    assert_eq!(run.stats(), ApplyStats { files: 0, events: 3, inserted: 2 });
}

#[test]
fn spool_removes_only_what_was_applied() {
    let mut run = apply_spool(2, true);
    let one = ApplyStats { files: 0, events: 3, inserted: 2 };
    assert_eq!(run.action(), SpoolAction::Apply { index: 0 });
    run.applied(one);
    assert_eq!(run.action(), SpoolAction::Remove { index: 0 });
    run.removed();
    assert_eq!(run.action(), SpoolAction::Apply { index: 1 });
    run.applied(one);
    run.removed();
    assert_eq!(run.action(), SpoolAction::Done);
    assert_eq!(run.stats, ApplyStats { files: 2, events: 6, inserted: 4 });
}

#[test]
fn spool_keeps_files_unless_told() {
    let mut run = apply_spool(2, false);
    run.applied(ApplyStats { files: 0, events: 1, inserted: 1 });
    assert_eq!(run.action(), SpoolAction::Apply { index: 1 });
    run.applied(ApplyStats { files: 0, events: 1, inserted: 0 });
    assert_eq!(run.action(), SpoolAction::Done);
    assert_eq!(run.stats, ApplyStats { files: 2, events: 2, inserted: 1 });
    assert_eq!(apply_spool(0, true).action(), SpoolAction::Done);
}

#[test]
fn blank_lines_count_but_hold_no_event() {
    let lines = event_lines("{\"a\":1}\r\n\n \t\u{3000}\n{\"b\":2}\n{\"c\":3}\r");
    let expected = [(1, "{\"a\":1}"), (4, "{\"b\":2}"), (5, "{\"c\":3}\r")];
    let expected: Vec<EventLine> = expected
        .iter()
        .map(|(number, text)| EventLine { number: *number, text: text.to_string() })
        .collect();
    assert_eq!(lines, expected);
    assert!(event_lines("").is_empty());
}

#[test]
fn batch_body_reads_back() {
    let body = batch_body(&vec!["{\"a\":1}".to_string(), "{\"b\":\"x\\ny\"}".to_string()]);
    assert_eq!(body, "{\"a\":1}\n{\"b\":\"x\\ny\"}\n");
    let texts: Vec<String> = event_lines(&body).into_iter().map(|l| l.text).collect();
    assert_eq!(texts, ["{\"a\":1}", "{\"b\":\"x\\ny\"}"]);
}

#[test]
fn bad_line_refuses_the_whole_file() {
    let mut tables = Tables::new();
    let key = json(r#"{"id":1}"#);
    let good = |seq| Some(ev("s", seq, "t", "I", key.clone(), Some(json("{}"))));
    let lines = event_lines("{}\n\nnope\n{}\nworse\n");
    assert_eq!(lines.len(), 4);
    let r = apply_file(&mut tables, &lines, vec![good(1), None, good(2), None]);
    assert_eq!(r, Err(3));
    assert_eq!(tables.watermark("s"), None);
    assert_eq!(tables.event("s", 1), None);
    assert_eq!(file_events(&lines, vec![good(1), good(2), good(3), None]), Err(5));
    let r = apply_file(&mut tables, &lines, vec![good(1), good(2), good(1), good(3)]);
    assert_eq!(r, Ok(ApplyStats { files: 0, events: 4, inserted: 3 }));
    assert_eq!(tables.watermark("s"), Some(3));
    assert_eq!(file_events(&Vec::new(), Vec::new()), Ok(Vec::new()));
}
