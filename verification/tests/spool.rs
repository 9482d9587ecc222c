//! The files of the spool and the announce directory.

use state_capture::announce::{
    announce_file, announce_names, check_announce, load_dir, load_named, Announce, AnnounceFile, FileName,
};
use state_capture::error::CaptureError;
use state_capture::event::{validate_db_name, Event};
use state_capture::spool::{list_jsonl, parse_lo_hi, write_batch, SpoolFile};

fn file(dir: &str, name: &str) -> SpoolFile {
    SpoolFile {
        parent: Some(dir.to_string()),
        path: vec![dir.as_bytes().to_vec(), name.as_bytes().to_vec()],
    }
}

fn names(files: &[SpoolFile]) -> Vec<String> {
    files
        .iter()
        .map(|f| String::from_utf8(f.path[f.path.len() - 1].clone()).unwrap())
        .collect()
}

fn event(seq: i64) -> Event {
    Event {
        src_db: "demo".into(),
        seq,
        tbl: "t".into(),
        op: "I".into(),
        ts: 1,
        key: serde_json::Value::Null,
        before: None,
        after: None,
    }
}

fn announce(db_name: &str, sqlite_path: &str) -> Announce {
    Announce { db_name: db_name.into(), sqlite_path: sqlite_path.into() }
}

#[test]
fn list_jsonl_orders_by_seq_not_path_string() {
    let files = list_jsonl(vec![
        file("faa-registry-mirror", "10000741-10000750.jsonl"),
        file("faa-registry-mirror", "338-732.jsonl"),
    ]);
    assert_eq!(names(&files), ["338-732.jsonl", "10000741-10000750.jsonl"]);
}

#[test]
fn list_jsonl_goes_by_database_then_numbers_then_path() {
    let files = list_jsonl(vec![
        file("b", "1-1.jsonl"),
        file("a", "notes.jsonl"),
        file("a", "5-9.jsonl"),
        file("a", "5-7.jsonl"),
        file("a", "-3-4.jsonl"),
        file("a", "+4-4.jsonl"),
        file("a", "4-4.jsonl"),
        file("a", "99999999999999999999-1.jsonl"),
    ]);
    assert_eq!(
        names(&files),
        [
            "-3-4.jsonl",
            "+4-4.jsonl",
            "4-4.jsonl",
            "5-7.jsonl",
            "5-9.jsonl",
            "99999999999999999999-1.jsonl",
            "notes.jsonl",
            "1-1.jsonl",
        ]
    );
}

#[test]
fn list_jsonl_passes_over_other_files() {
    let files = list_jsonl(vec![
        file("a", "1-2.jsonl.tmp"),
        file("a", ".jsonl"),
        file("a", "1-2.json"),
        file("a", "1-2.JSONL"),
        SpoolFile { parent: None, path: Vec::new() },
        file("a", "1-2.jsonl"),
    ]);
    assert_eq!(names(&files), ["1-2.jsonl"]);
}

#[test]
fn files_without_a_named_directory_come_first() {
    let odd = SpoolFile { parent: None, path: vec![vec![0xff], b"7-7.jsonl".to_vec()] };
    let files = list_jsonl(vec![file("a", "1-1.jsonl"), odd]);
    assert_eq!(names(&files), ["7-7.jsonl", "1-1.jsonl"]);
}

#[test]
fn numbers_stand_around_the_hyphen_between_them() {
    let parse = |s: &str| {
        let name = s.as_bytes().to_vec();
        let len = name.len();
        parse_lo_hi(&name, len)
    };
    assert_eq!(parse("338-732"), Some((338, 732)));
    assert_eq!(parse("3--7"), Some((3, -7)));
    assert_eq!(parse("-3-7"), Some((-3, 7)));
    assert_eq!(parse("-7--3"), Some((-7, -3)));
    assert_eq!(parse("-"), None);
    assert_eq!(parse("--3"), None);
    assert_eq!(parse(""), None);
    assert_eq!(parse("3"), None);
    assert_eq!(parse("3-"), None);
    assert_eq!(parse("3-7-9"), None);
    assert_eq!(parse("9223372036854775807-9223372036854775808"), None);
    assert_eq!(parse("9223372036854775807-1"), Some((i64::MAX, 1)));
}

#[test]
fn batch_is_named_by_its_first_and_last_number() {
    let batch = write_batch("demo", &vec![event(338), event(400), event(732)]).unwrap();
    assert_eq!(batch.dir, "demo");
    assert_eq!(batch.name, "338-732.jsonl");
    assert_eq!(batch.tmp_name, "338-732.jsonl.tmp");
    assert!(write_batch("demo", &Vec::new()).is_none());
    let listed = list_jsonl(vec![file("demo", &batch.tmp_name), file("demo", &batch.name)]);
    assert_eq!(names(&listed), ["338-732.jsonl"]);
}

#[test]
fn later_batch_is_listed_behind() {
    let first = write_batch("demo", &vec![event(9), event(10)]).unwrap();
    let second = write_batch("demo", &vec![event(11), event(100)]).unwrap();
    let listed = list_jsonl(vec![file("demo", &second.name), file("demo", &first.name)]);
    assert_eq!(names(&listed), ["9-10.jsonl", "11-100.jsonl"]);
}

#[test]
fn batches_below_zero_come_first() {
    let first = write_batch("demo", &vec![event(-10), event(-9)]).unwrap();
    let second = write_batch("demo", &vec![event(-8), event(2)]).unwrap();
    let third = write_batch("demo", &vec![event(3)]).unwrap();
    let listed = list_jsonl(vec![
        file("demo", &third.name),
        file("demo", &second.name),
        file("demo", &first.name),
    ]);
    assert_eq!(names(&listed), ["-10--9.jsonl", "-8-2.jsonl", "3-3.jsonl"]);
}

#[test]
fn extreme_numbers_are_written_in_full() {
    let batch = write_batch("demo", &vec![event(i64::MIN), event(i64::MAX)]).unwrap();
    assert_eq!(batch.name, "-9223372036854775808-9223372036854775807.jsonl");
    let stem = batch.name.as_bytes().to_vec();
    assert_eq!(parse_lo_hi(&stem, stem.len() - 6), Some((i64::MIN, i64::MAX)));
}

#[test]
fn db_names_are_ascii_words() {
    for name in ["a", "adsb-trip-journal", "A_9", "-", "_"] {
        assert_eq!(validate_db_name(name), Ok(()));
    }
    let long = "x".repeat(128);
    assert_eq!(validate_db_name(&long), Ok(()));
    let longer = "x".repeat(129);
    for name in ["", "a b", "a/b", "..", "a.b", "é", longer.as_str()] {
        assert_eq!(validate_db_name(name), Err(CaptureError::DbName { name: name.to_string() }));
    }
    assert_eq!(
        validate_db_name("a\"b").unwrap_err().message(),
        "db_name must be ASCII alphanumeric / hyphen / underscore, got \"a\\\"b\""
    );
}

#[test]
fn announce_files_are_read_in_the_order_of_their_names() {
    let listed = announce_names(
        ["b.json", "a.json.bak", "B.json", ".json", "a.json", "notes.txt"]
            .iter()
            .map(|n| FileName { bytes: n.as_bytes().to_vec() })
            .collect(),
    );
    let listed: Vec<String> = listed.into_iter().map(|n| String::from_utf8(n.bytes).unwrap()).collect();
    assert_eq!(listed, ["B.json", "a.json", "b.json"]);
}

#[test]
fn bad_announce_files_are_passed_over() {
    let loaded = load_dir(vec![
        AnnounceFile { file: "/a/one.json".into(), parsed: Some(announce("one", "/work/1.sqlite")) },
        AnnounceFile { file: "/a/two.json".into(), parsed: None },
        AnnounceFile { file: "/a/three.json".into(), parsed: Some(announce("three", "")) },
        AnnounceFile { file: "/a/four.json".into(), parsed: Some(announce("../four", "/work/4.sqlite")) },
        AnnounceFile { file: "/a/five.json".into(), parsed: Some(announce("five", "/work/5.sqlite")) },
    ]);
    assert_eq!(loaded, vec![announce("one", "/work/1.sqlite"), announce("five", "/work/5.sqlite")]);
}

#[test]
fn named_announcement_is_checked() {
    assert_eq!(announce_file("demo"), Ok("demo.json".to_string()));
    assert_eq!(announce_file("a/b"), Err(CaptureError::DbName { name: "a/b".into() }));
    assert_eq!(load_named("demo", "/a/demo.json", None), Ok(None));
    assert_eq!(
        load_named("demo", "/a/demo.json", Some(announce("demo", "/w"))),
        Ok(Some(announce("demo", "/w")))
    );
    assert_eq!(
        load_named("a/b", "/a/x.json", Some(announce("demo", "/w"))),
        Err(CaptureError::DbName { name: "a/b".into() })
    );
    assert_eq!(
        load_named("demo", "/a/demo.json", Some(announce("a b", ""))),
        Err(CaptureError::DbName { name: "a b".into() })
    );
    let e = check_announce(announce("demo", ""), "/a/demo.json").unwrap_err();
    assert_eq!(e, CaptureError::EmptySqlitePath { file: "/a/demo.json".into() });
    assert_eq!(e.message(), "sqlite_path empty in /a/demo.json");
}
