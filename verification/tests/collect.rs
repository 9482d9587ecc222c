//! Draining and snapshotting databases, with the database in memory and the spool in a list.

use rusqlite::{Connection, OptionalExtension};
use serde_json::Value;
use state_capture::announce::Announce;
use state_capture::apply::apply_events;
use state_capture::collect::{
    drain_all, drain_named, drain_sqlite, nudge_name, open_sqlite, passed_socket, serve, systemd_listen_fd, CollectCfg,
    DrainStats, Outcome, PassedSocket, Round, ServeEvent, ServeStep, Sweep,
};
use state_capture::error::{CaptureError, JsonField};
use state_capture::event::Event;
use state_capture::outbox::{outbox_event, DrainAction, DrainRun, OutboxRow};
use state_capture::rows::{row_snap, sql_value_to_json, RowSnap, SqlValue};
use state_capture::schema::{all_rows_sql, ordered_cols, rowid_page_sql, table_info_sql, CapturedTable, Col, TableScan, Trigger};
use state_capture::snapshot::{one_report, snapshot_all, snapshot_named, snapshot_sqlite, SnapAction, SnapshotPlan};
use state_capture::spool::{batch_body, list_jsonl, write_batch, SpoolFile, JSONL_BATCH};
use state_capture::sql;
use state_capture::tables::Tables;
use state_capture::table::{current_outbox_seq, floor_outbox_seq, reserve_outbox_seq, TableAction, TableRun};

/// A written batch: its directory, its name and its body.
struct Batch {
    dir: String,
    name: String,
    body: String,
}

fn event_json(e: &Event) -> String {
    let mut m = serde_json::Map::new();
    m.insert("src_db".into(), Value::from(e.src_db.as_str()));
    m.insert("seq".into(), Value::from(e.seq));
    m.insert("tbl".into(), Value::from(e.tbl.as_str()));
    m.insert("op".into(), Value::from(e.op.as_str()));
    m.insert("ts".into(), Value::from(e.ts));
    m.insert("key".into(), e.key.clone());
    m.insert("before".into(), e.before.clone().unwrap_or(Value::Null));
    m.insert("after".into(), e.after.clone().unwrap_or(Value::Null));
    Value::Object(m).to_string()
}

fn event_of(v: &Value) -> Event {
    let text = |name: &str| v[name].as_str().unwrap().to_string();
    let payload = |name: &str| if v[name].is_null() { None } else { Some(v[name].clone()) };
    Event {
        src_db: text("src_db"),
        seq: v["seq"].as_i64().unwrap(),
        tbl: text("tbl"),
        op: text("op"),
        ts: v["ts"].as_i64().unwrap(),
        key: v["key"].clone(),
        before: payload("before"),
        after: payload("after"),
    }
}

fn put(spool: &mut Vec<Batch>, src_db: &str, events: &Vec<Event>) {
    if let Some(file) = write_batch(src_db, events) {
        let lines: Vec<String> = events.iter().map(event_json).collect();
        spool.push(Batch { dir: file.dir, name: file.name, body: batch_body(&lines) });
    }
}

/// The lines of each batch, in the order in which the batches are applied.
fn bodies(spool: &[Batch]) -> Vec<Vec<Value>> {
    let files = spool
        .iter()
        .map(|b| SpoolFile {
            parent: Some(b.dir.clone()),
            path: vec![b.dir.as_bytes().to_vec(), b.name.as_bytes().to_vec()],
        })
        .collect();
    list_jsonl(files)
        .iter()
        .map(|f| {
            let b = spool
                .iter()
                .find(|b| b.dir.as_bytes() == f.path[0].as_slice() && b.name.as_bytes() == f.path[1].as_slice())
                .unwrap();
            b.body.lines().map(|l| serde_json::from_str(l).unwrap()).collect()
        })
        .collect()
}

fn outbox_db() -> Connection {
    let conn = Connection::open_in_memory().unwrap();
    conn.execute_batch(
        r#"
            CREATE TABLE _outbox (
              seq INTEGER PRIMARY KEY AUTOINCREMENT,
              tbl TEXT NOT NULL,
              op TEXT NOT NULL,
              ts INTEGER NOT NULL DEFAULT 1700000000,
              key TEXT NOT NULL,
              before TEXT,
              after TEXT
            );
        "#,
    )
    .unwrap();
    conn
}

fn demo_db() -> Connection {
    let conn = outbox_db();
    conn.execute_batch(
        r#"
            CREATE TABLE jobs (
              id INTEGER PRIMARY KEY,
              state TEXT NOT NULL,
              secret TEXT
            );
            INSERT INTO jobs (id, state, secret) VALUES (1, 'open', 'x'), (2, 'done', 'y');
            CREATE TRIGGER _cap_I_jobs AFTER INSERT ON jobs BEGIN
              INSERT INTO _outbox(tbl, op, key, before, after)
              VALUES ('jobs', 'I', json_object('id', NEW.id), NULL,
                      json_object('id', NEW.id, 'state', NEW.state));
            END;
        "#,
    )
    .unwrap();
    conn
}

fn insert_row(conn: &Connection, tbl: &str, op: &str, key: &str, after: &str) {
    conn.execute(
        "INSERT INTO _outbox (tbl, op, ts, key, after) VALUES (?1, ?2, 1700000000, ?3, ?4)",
        (tbl, op, key, after),
    )
    .unwrap();
}

fn left(conn: &Connection) -> i64 {
    conn.query_row("SELECT count(*) FROM _outbox", [], |r| r.get(0)).unwrap()
}

fn stored_seq(conn: &Connection) -> i64 {
    conn.query_row(sql::STORED_SEQ, [], |r| r.get(0)).unwrap()
}

fn page(conn: &Connection, after_seq: Option<i64>, limit: usize) -> Vec<OutboxRow> {
    let (query, params) = match after_seq {
        None => (sql::OUTBOX_FIRST_PAGE, vec![limit as i64]),
        Some(seq) => (sql::OUTBOX_PAGE, vec![seq, limit as i64]),
    };
    let mut stmt = conn.prepare(query).unwrap();
    let rows = stmt
        .query_map(rusqlite::params_from_iter(params), |r| {
            Ok(OutboxRow {
                seq: r.get(0)?,
                tbl: r.get(1)?,
                op: r.get(2)?,
                ts: r.get(3)?,
                key: r.get(4)?,
                before: r.get(5)?,
                after: r.get(6)?,
            })
        })
        .unwrap();
    rows.map(|r| r.unwrap()).collect()
}

fn has_outbox(conn: &Connection) -> bool {
    let name: Option<String> = conn.query_row(sql::HAS_OUTBOX, [], |r| r.get(0)).optional().unwrap();
    name.is_some()
}

fn drain(conn: &Connection, src_db: &str, spool: &mut Vec<Batch>) -> Result<Option<DrainStats>, CaptureError> {
    let Some(mut run) = drain_sqlite(src_db, has_outbox(conn)) else {
        return Ok(None);
    };
    loop {
        match run.action() {
            DrainAction::Fetch { after_seq, limit } => run.fetched(page(conn, after_seq, limit))?,
            DrainAction::Spool => {
                put(spool, src_db, run.page());
                run.spooled();
            }
            DrainAction::Prune { through } => {
                conn.execute(sql::OUTBOX_PRUNE, [through]).unwrap();
                run.pruned();
            }
            DrainAction::Done => return Ok(run.finish()),
        }
    }
}

/// A database that is announced, and the connection to it where the file is there.
struct Work {
    announce: Announce,
    conn: Option<Connection>,
}

fn work(db_name: &str, sqlite_path: &str, conn: Option<Connection>) -> Work {
    Work { announce: Announce { db_name: db_name.into(), sqlite_path: sqlite_path.into() }, conn }
}

fn named(dbs: &[Work], name: &str) -> Option<Announce> {
    dbs.iter().map(|w| w.announce.clone()).find(|a| a.db_name == name)
}

fn drain_one(dbs: &[Work], name: &str, spool: &mut Vec<Batch>) -> Result<Option<DrainStats>, CaptureError> {
    let Some(a) = drain_named(name, &format!("/announce/{name}.json"), named(dbs, name))? else {
        return Ok(None);
    };
    let conn = dbs.iter().find(|w| w.announce == a).and_then(|w| w.conn.as_ref());
    open_sqlite(&a.db_name, &a.sqlite_path, conn.is_some())?;
    drain(conn.unwrap(), &a.db_name, spool)
}

fn outcome(r: Result<Option<DrainStats>, CaptureError>) -> Outcome {
    match r {
        Ok(Some(stats)) => Outcome::Spooled(stats),
        Ok(None) => Outcome::Nothing,
        Err(_) => Outcome::Failed,
    }
}

fn run_drain_all(dbs: &[Work], spool: &mut Vec<Batch>) -> Result<Vec<DrainStats>, CaptureError> {
    let mut sweep = drain_all(dbs.iter().map(|w| w.announce.clone()).collect());
    while let Some(name) = sweep.next().map(|n| n.to_string()) {
        sweep.settled(outcome(drain_one(dbs, &name, spool)));
    }
    sweep.finish()
}

fn seq_now(conn: &Connection) -> i64 {
    let stored = conn.query_row(sql::STORED_SEQ, [], |r| r.get(0)).optional().unwrap();
    let pending = conn.query_row(sql::PENDING_SEQ, [], |r| r.get(0)).unwrap();
    current_outbox_seq(stored, pending)
}

fn store_seq(conn: &Connection, seq: i64) {
    if conn.execute(sql::UPDATE_SEQ, [seq]).unwrap() == 0 {
        conn.execute(sql::INSERT_SEQ, [seq]).unwrap();
    }
}

fn cell(row: &rusqlite::Row<'_>, at: usize) -> SqlValue {
    match row.get::<_, rusqlite::types::Value>(at).unwrap() {
        rusqlite::types::Value::Null => SqlValue::Null,
        rusqlite::types::Value::Integer(n) => SqlValue::Integer(n),
        rusqlite::types::Value::Real(x) => SqlValue::Real(Value::from(x)),
        rusqlite::types::Value::Text(s) => SqlValue::Text(s),
        rusqlite::types::Value::Blob(_) => SqlValue::Blob,
    }
}

fn snaps(conn: &Connection, table: &CapturedTable, query: &str, after: Option<i64>, paged: bool) -> Vec<RowSnap> {
    let n = ordered_cols(table).len();
    let mut stmt = conn.prepare(query).unwrap();
    let mut rows = match after {
        Some(rowid) => stmt.query([rowid]).unwrap(),
        None => stmt.query([]).unwrap(),
    };
    let mut out = Vec::new();
    while let Some(row) = rows.next().unwrap() {
        let offset = if paged { 1 } else { 0 };
        let rowid = if paged { row.get(0).unwrap() } else { 0 };
        let values = (0..n).map(|i| cell(row, offset + i)).collect();
        out.push(row_snap(table, values, rowid));
    }
    out
}

fn snapshot_table(
    conn: &Connection,
    src_db: &str,
    table: &CapturedTable,
    spool: &mut Vec<Batch>,
) -> Result<usize, CaptureError> {
    let mut run = TableRun::new(src_db, table, 1_700_000_001);
    let mut stream: Option<std::vec::IntoIter<RowSnap>> = None;
    loop {
        match run.action() {
            TableAction::Page { after, limit } => {
                let query = rowid_page_sql(table, after.is_none(), limit)?;
                run.paged(snaps(conn, table, &query, after, true));
            }
            TableAction::Row => {
                if stream.is_none() {
                    let query = all_rows_sql(table)?;
                    stream = Some(snaps(conn, table, &query, None, false).into_iter());
                }
                match stream.as_mut().unwrap().next() {
                    Some(row) => run.row(row),
                    None => run.rows_end(),
                }
            }
            TableAction::ReadSeq => run.seq_read(seq_now(conn)),
            TableAction::WriteSeq { seq } => {
                store_seq(conn, seq);
                run.seq_written();
            }
            TableAction::Spool => {
                put(spool, src_db, &run.batch());
                run.spooled();
            }
            TableAction::Done => return Ok(run.written()),
        }
    }
}

fn captured_tables(conn: &Connection) -> Result<Vec<CapturedTable>, CaptureError> {
    let mut stmt = conn.prepare(sql::CAPTURE_TRIGGERS).unwrap();
    let triggers = stmt
        .query_map([], |r| Ok(Trigger { name: r.get(0)?, sql: r.get(1)? }))
        .unwrap()
        .map(|t| t.unwrap())
        .collect();
    let mut scan = TableScan::new(triggers);
    while let Some(table) = scan.next()? {
        let mut stmt = conn.prepare(&table_info_sql(&table)).unwrap();
        let cols: Vec<Col> = stmt
            .query_map([], |r| Ok(Col { name: r.get(1)?, pk: r.get(5)? }))
            .unwrap()
            .map(|c| c.unwrap())
            .collect();
        let create: Option<String> =
            conn.query_row(sql::CREATE_STATEMENT, [table.as_str()], |r| r.get(0)).optional().unwrap();
        scan.described(table, &cols, create.as_deref())?;
    }
    Ok(scan.finish())
}

fn snapshot(
    conn: &Connection,
    src_db: &str,
    min_seq: Option<i64>,
    spool: &mut Vec<Batch>,
) -> Result<Option<DrainStats>, CaptureError> {
    let Some(mut run) = snapshot_sqlite(src_db, min_seq, has_outbox(conn)) else {
        return Ok(None);
    };
    loop {
        match run.action() {
            SnapAction::ReadSeq => run.seq_read(seq_now(conn)),
            SnapAction::WriteSeq { seq } => {
                store_seq(conn, seq);
                run.seq_written();
            }
            SnapAction::Drain => run.drained(drain(conn, src_db, spool)?),
            SnapAction::List => run.listed(captured_tables(conn)?),
            SnapAction::Table { index } => {
                let written = snapshot_table(conn, src_db, &run.tables()[index], spool)?;
                run.table_done(written);
            }
            SnapAction::Done => return Ok(run.finish()),
        }
    }
}

fn cfg(snapshot_db: Option<&str>) -> CollectCfg {
    CollectCfg {
        announce_dir: "announce".into(),
        spool_dir: "spool".into(),
        sock: "collect.sock".into(),
        tick: 60_000_000_000,
        snapshot_db: snapshot_db.map(|s| s.to_string()),
        min_seq: None,
    }
}

fn run_snapshot_all(
    cfg: &CollectCfg,
    dbs: &[Work],
    spool: &mut Vec<Batch>,
) -> Result<Vec<DrainStats>, CaptureError> {
    let mut one = |name: &str| {
        let Some(a) = snapshot_named(name, &format!("/announce/{name}.json"), named(dbs, name))? else {
            return Ok(None);
        };
        let conn = dbs.iter().find(|w| w.announce == a).and_then(|w| w.conn.as_ref());
        open_sqlite(&a.db_name, &a.sqlite_path, conn.is_some())?;
        snapshot(conn.unwrap(), &a.db_name, cfg.min_seq, spool)
    };
    match snapshot_all(cfg, dbs.iter().map(|w| w.announce.clone()).collect()) {
        SnapshotPlan::One(name) => Ok(one_report(one(&name)?)),
        SnapshotPlan::All(mut sweep) => {
            while let Some(name) = sweep.next().map(|n| n.to_string()) {
                sweep.settled(outcome(one(&name)));
            }
            sweep.finish()
        }
    }
}

#[test]
fn drain_writes_jsonl_and_prunes() {
    let dbs = [work("adsb-trip-journal", "/work.sqlite", Some(outbox_db()))];
    let conn = dbs[0].conn.as_ref().unwrap();
    let mut spool = Vec::new();
    insert_row(
        conn,
        "trips",
        "I",
        r#"{"icao24":"abcdef","dep_ts":"2024-01-15T12:00:00Z"}"#,
        r#"{"icao24":"abcdef","ticker":"AAA"}"#,
    );
    insert_row(
        conn,
        "trips",
        "U",
        r#"{"icao24":"abcdef","dep_ts":"2024-01-15T12:00:00Z"}"#,
        r#"{"icao24":"abcdef","ticker":"BBB"}"#,
    );
    let stats = run_drain_all(&dbs, &mut spool).unwrap();
    assert_eq!(stats.len(), 1);
    assert_eq!(stats[0].rows, 2);
    assert_eq!((stats[0].seq_lo, stats[0].seq_hi), (Some(1), Some(2)));
    let files = bodies(&spool);
    assert_eq!(files.len(), 1);
    let lines = &files[0];
    assert_eq!(lines.len(), 2);
    let ev = &lines[0];
    assert_eq!(ev["src_db"], "adsb-trip-journal");
    assert_eq!(ev["tbl"], "trips");
    assert_eq!(ev["op"], "I");
    assert_eq!(ev["seq"], 1);
    assert!(ev["key"].get("icao24").is_some());
    assert_eq!(ev["after"]["ticker"], "AAA");
    assert_eq!(left(conn), 0);
}

#[test]
fn drain_pages_above_jsonl_batch() {
    let dbs = [work("adsb-trip-journal", "/work.sqlite", Some(outbox_db()))];
    let conn = dbs[0].conn.as_ref().unwrap();
    let mut spool = Vec::new();
    let n = JSONL_BATCH + 1;
    let tx = conn.unchecked_transaction().unwrap();
    for i in 0..n {
        let key = format!(r#"{{"id":{i}}}"#);
        tx.execute(
            "INSERT INTO _outbox (tbl, op, ts, key, after) VALUES ('t', 'I', 1700000000, ?1, ?1)",
            [key],
        )
        .unwrap();
    }
    tx.commit().unwrap();
    let stats = run_drain_all(&dbs, &mut spool).unwrap();
    assert_eq!(stats.len(), 1);
    assert_eq!(stats[0].rows, n);
    let files = bodies(&spool);
    assert_eq!(files.len(), 2);
    assert_eq!(left(conn), 0);
    assert_eq!(files[0].len(), JSONL_BATCH);
    assert_eq!(files[1].len(), 1);
    assert_eq!(files[1][0]["seq"], 5001);
}

#[test]
fn drain_keeps_what_it_could_not_spool() {
    let conn = outbox_db();
    let mut spool = Vec::new();
    let tx = conn.unchecked_transaction().unwrap();
    for i in 1..=JSONL_BATCH {
        insert_row(&tx, "t", "I", &format!(r#"{{"id":{i}}}"#), "{}");
    }
    insert_row(&tx, "t", "I", "{}", "{}");
    insert_row(&tx, "t", "I", "{}", "{bad");
    tx.commit().unwrap();
    let err = drain(&conn, "demo", &mut spool).unwrap_err();
    assert!(matches!(err, CaptureError::NotJson { seq: 5002, field: JsonField::After, .. }));
    let files = bodies(&spool);
    assert_eq!(files.len(), 1);
    assert_eq!(files[0].len(), JSONL_BATCH);
    let rest: Vec<i64> = page(&conn, None, 10).iter().map(|r| r.seq).collect();
    assert_eq!(rest, [5001, 5002]);
}

#[test]
fn drain_takes_rows_with_any_number() {
    let conn = outbox_db();
    let mut spool = Vec::new();
    for seq in [-5, 0, 1] {
        conn.execute(
            "INSERT INTO _outbox (seq, tbl, op, key, after) VALUES (?1, 't', 'I', '{}', '{}')",
            [seq],
        )
        .unwrap();
    }
    let stats = drain(&conn, "demo", &mut spool).unwrap().unwrap();
    assert_eq!((stats.rows, stats.seq_lo, stats.seq_hi), (3, Some(-5), Some(1)));
    let files = bodies(&spool);
    let numbers: Vec<i64> = files.iter().flatten().map(|e| e["seq"].as_i64().unwrap()).collect();
    assert_eq!(numbers, [-5, 0, 1]);
    assert_eq!(left(&conn), 0);
}

#[test]
fn drained_changes_rebuild_live_rows() {
    let conn = outbox_db();
    insert_row(&conn, "t", "I", r#"{"id":1}"#, r#"{"v":"one"}"#);
    insert_row(&conn, "t", "I", r#"{"id":2}"#, r#"{"v":"two"}"#);
    insert_row(&conn, "t", "U", r#"{"id":2}"#, r#"{"v":"more"}"#);
    conn.execute("INSERT INTO _outbox (tbl, op, key) VALUES ('t', 'D', '{\"id\":1}')", []).unwrap();
    let mut spool = Vec::new();
    drain(&conn, "demo", &mut spool).unwrap();
    let mut tables = Tables::new();
    for batch in bodies(&spool) {
        apply_events(&mut tables, batch.iter().map(event_of).collect());
    }
    assert!(tables.live("demo", "t", &serde_json::from_str(r#"{"id":1}"#).unwrap()).is_none());
    let live = tables.live("demo", "t", &serde_json::from_str(r#"{"id":2}"#).unwrap()).unwrap();
    assert_eq!((live.seq, live.after.to_string().as_str()), (3, r#"{"v":"more"}"#));
    assert_eq!(tables.watermark("demo"), Some(4));
}

#[test]
fn snapshot_rebuilds_live_rows() {
    let conn = demo_db();
    conn.execute("INSERT INTO jobs (id, state) VALUES (3, 'new')", []).unwrap();
    conn.execute("UPDATE jobs SET state = 'closed' WHERE id = 3", []).unwrap();
    let mut spool = Vec::new();
    let stats = snapshot(&conn, "demo", None, &mut spool).unwrap().unwrap();
    assert_eq!((stats.rows, stats.seq_lo, stats.seq_hi), (4, Some(1), Some(4)));
    let mut tables = Tables::new();
    for batch in bodies(&spool) {
        apply_events(&mut tables, batch.iter().map(event_of).collect());
    }
    for (id, state) in [(1, "open"), (2, "done"), (3, "closed")] {
        let key = serde_json::from_str(&format!(r#"{{"id":{id}}}"#)).unwrap();
        let live = tables.live("demo", "jobs", &key).unwrap();
        assert_eq!(live.after["state"], state);
    }
}

#[test]
fn empty_outbox_writes_nothing() {
    let dbs = [work("adsb-trip-journal", "/work.sqlite", Some(outbox_db()))];
    let mut spool = Vec::new();
    assert!(run_drain_all(&dbs, &mut spool).unwrap().is_empty());
    assert!(bodies(&spool).is_empty());
}

#[test]
fn unknown_nudge_is_ok() {
    let dbs = [work("adsb-trip-journal", "/work.sqlite", Some(outbox_db()))];
    let mut spool = Vec::new();
    assert!(drain_one(&dbs, "no-such-db", &mut spool).unwrap().is_none());
}

#[test]
fn drain_rejects_malformed_key_json() {
    let dbs = [work("adsb-trip-journal", "/work.sqlite", Some(outbox_db()))];
    let conn = dbs[0].conn.as_ref().unwrap();
    let mut spool = Vec::new();
    insert_row(conn, "trips", "I", "not-json", r#"{"ok":true}"#);
    let err = run_drain_all(&dbs, &mut spool).unwrap_err().message();
    assert!(
        err.contains("not JSON") || err.contains("adsb-trip-journal"),
        "unexpected error: {err}"
    );
    let err = drain(conn, "adsb-trip-journal", &mut spool).unwrap_err();
    assert_eq!(
        err,
        CaptureError::NotJson {
            seq: 1,
            field: JsonField::Key,
            cause: "expected ident at line 1 column 2".into(),
        }
    );
    assert_eq!(err.cause(), Some("expected ident at line 1 column 2"));
    assert_eq!(err.message(), "_outbox seq 1 key is not JSON");
    assert!(spool.is_empty());
    assert_eq!(left(conn), 1);
}

#[test]
fn drain_all_attempts_remaining_dbs_then_errors() {
    let dbs = [
        work("broken", "/no/such/work.sqlite", None),
        work("adsb-trip-journal", "/work.sqlite", Some(outbox_db())),
    ];
    let mut spool = Vec::new();
    insert_row(dbs[1].conn.as_ref().unwrap(), "trips", "I", r#"{"id":1}"#, r#"{"id":1}"#);
    let err = run_drain_all(&dbs, &mut spool).unwrap_err().message();
    assert!(err.contains("broken"), "{err}");
    assert_eq!(err, "drain failed for: broken");
    assert_eq!(bodies(&spool).len(), 1);
}

#[test]
fn snapshot_writes_current_rows_and_reserves_seq() {
    let dbs = [work("demo", "/work.sqlite", Some(demo_db()))];
    let conn = dbs[0].conn.as_ref().unwrap();
    let mut spool = Vec::new();
    let stats = run_snapshot_all(&cfg(None), &dbs, &mut spool).unwrap();
    assert_eq!(stats.len(), 1);
    assert_eq!(stats[0].rows, 2);
    let files = bodies(&spool);
    assert_eq!(files.len(), 1);
    let lines = &files[0];
    assert_eq!(lines.len(), 2);
    let ev = &lines[0];
    assert_eq!(ev["src_db"], "demo");
    assert_eq!(ev["tbl"], "jobs");
    assert_eq!(ev["op"], "I");
    assert_eq!(ev["seq"], 1);
    assert_eq!(ev["key"]["id"], 1);
    assert_eq!(ev["after"]["state"], "open");
    assert!(ev["after"].get("secret").is_none());
    assert_eq!(stored_seq(conn), 2);
}

#[test]
fn snapshot_continues_after_existing_outbox_seq() {
    let dbs = [work("demo", "/work.sqlite", Some(demo_db()))];
    let conn = dbs[0].conn.as_ref().unwrap();
    let mut spool = Vec::new();
    conn.execute(
        "INSERT INTO _outbox (tbl, op, ts, key, after) VALUES ('jobs', 'U', 1, '{}', '{}')",
        [],
    )
    .unwrap();
    let stats = run_snapshot_all(&cfg(None), &dbs, &mut spool).unwrap();
    assert_eq!(stats[0].rows, 3);
    assert_eq!(stats[0].seq_lo, Some(1));
    assert_eq!(stats[0].seq_hi, Some(3));
    assert_eq!(left(conn), 0);
    let files = bodies(&spool);
    assert_eq!(files.len(), 2);
    assert_eq!(files[0][0]["op"], "U");
    assert_eq!(files[0][0]["seq"], 1);
    assert_eq!(files[1][0]["op"], "I");
    assert_eq!(files[1][0]["seq"], 2);
}

#[test]
fn snapshot_refuses_all_column_fallback_without_json_object() {
    let dbs = [work("demo", "/work.sqlite", Some(demo_db()))];
    let conn = dbs[0].conn.as_ref().unwrap();
    let mut spool = Vec::new();
    conn.execute_batch(
        r#"
                DROP TRIGGER _cap_I_jobs;
                CREATE TRIGGER _cap_I_jobs AFTER INSERT ON jobs BEGIN
                  INSERT INTO _outbox(tbl, op, key, before, after)
                  VALUES ('jobs', 'I', '{}', NULL, NULL);
                END;
        "#,
    )
    .unwrap();
    let err = run_snapshot_all(&cfg(None), &dbs, &mut spool).unwrap_err().message();
    assert!(
        err.contains("json_object") || err.contains("demo"),
        "unexpected error: {err}"
    );
    assert_eq!(err, "snapshot failed for: demo");
    assert!(bodies(&spool).is_empty());
    assert!(!spool.iter().any(|b| b.body.contains("secret")));
    let err = run_snapshot_all(&cfg(Some("demo")), &dbs, &mut spool).unwrap_err();
    assert_eq!(err, CaptureError::NoPayload { trigger: "_cap_I_jobs".into() });
    assert_eq!(
        err.message(),
        "trigger _cap_I_jobs has no parseable json_object payload (refusing all-column fallback)"
    );
}

#[test]
fn snapshot_of_one_database_leaves_the_others() {
    let dbs = [
        work("demo", "/work.sqlite", Some(demo_db())),
        work("other", "/other.sqlite", Some(demo_db())),
    ];
    let mut spool = Vec::new();
    let stats = run_snapshot_all(&cfg(Some("other")), &dbs, &mut spool).unwrap();
    assert_eq!(stats.len(), 1);
    assert_eq!(stats[0].src_db, "other");
    assert!(spool.iter().all(|b| b.dir == "other"));
    assert!(run_snapshot_all(&cfg(Some("no-such-db")), &dbs, &mut spool).unwrap().is_empty());
    let broken = [work("broken", "/no/such", None)];
    let err = run_snapshot_all(&cfg(Some("broken")), &broken, &mut spool).unwrap_err();
    assert_eq!(err, CaptureError::SqliteMissing { path: "/no/such".into() });
    assert_eq!(err.message(), "sqlite missing: /no/such");
}

#[test]
fn snapshot_numbers_above_the_floor() {
    let conn = demo_db();
    let mut spool = Vec::new();
    let stats = snapshot(&conn, "demo", Some(10_000_004), &mut spool).unwrap().unwrap();
    assert_eq!(stats.seq_lo, Some(10_000_005));
    assert_eq!(stats.seq_hi, Some(10_000_006));
    assert_eq!(stored_seq(&conn), 10_000_006);
    let again = snapshot(&conn, "demo", Some(10), &mut spool).unwrap().unwrap();
    assert_eq!((again.seq_lo, again.seq_hi), (Some(10_000_007), Some(10_000_008)));
}

#[test]
fn later_change_gets_a_higher_number() {
    let conn = demo_db();
    let mut spool = Vec::new();
    snapshot(&conn, "demo", None, &mut spool).unwrap();
    conn.execute("INSERT INTO jobs (id, state) VALUES (3, 'new')", []).unwrap();
    let rows = page(&conn, None, 10);
    assert_eq!(rows.len(), 1);
    assert_eq!(rows[0].seq, 3);
}

#[test]
fn snapshot_takes_rows_with_any_rowid() {
    let conn = demo_db();
    conn.execute("INSERT INTO jobs (id, state) VALUES (-7, 'odd'), (0, 'zero')", []).unwrap();
    conn.execute("DELETE FROM _outbox", []).unwrap();
    let mut spool = Vec::new();
    let stats = snapshot(&conn, "demo", None, &mut spool).unwrap().unwrap();
    assert_eq!(stats.rows, 4);
    let files = bodies(&spool);
    let ids: Vec<i64> = files[0].iter().map(|e| e["key"]["id"].as_i64().unwrap()).collect();
    assert_eq!(ids, [-7, 0, 1, 2]);
}

#[test]
fn snapshot_pages_and_streams_large_tables() {
    let conn = outbox_db();
    conn.execute_batch(
        r#"
            CREATE TABLE a (id INTEGER PRIMARY KEY, v REAL, w BLOB);
            CREATE TABLE b (k TEXT, n INTEGER, PRIMARY KEY (n, k)) WITHOUT
ROWID;
            CREATE TABLE c (v TEXT);
            WITH RECURSIVE s(i) AS (SELECT 1 UNION ALL SELECT i + 1 FROM s WHERE i < 5001)
              INSERT INTO a SELECT i, i + 0.5, x'00' FROM s;
            WITH RECURSIVE s(i) AS (SELECT 1 UNION ALL SELECT i + 1 FROM s WHERE i < 5000)
              INSERT INTO b SELECT 'k' || i, i FROM s;
            INSERT INTO c VALUES ('only');
            CREATE TRIGGER _cap_I_a AFTER INSERT ON a BEGIN
              INSERT INTO _outbox(tbl, op, key, after) VALUES ('a', 'I', '{}', json_object('v', NEW.v, 'w', NULL)); END;
            CREATE TRIGGER _cap_I_b AFTER INSERT ON b BEGIN
              INSERT INTO _outbox(tbl, op, key, after) VALUES ('b', 'I', '{}', json_object('k', NEW.k)); END;
            CREATE TRIGGER _cap_I_c AFTER INSERT ON c BEGIN
              INSERT INTO _outbox(tbl, op, key, after) VALUES ('c', 'I', '{}', json_object('v', NEW.v)); END;
        "#,
    )
    .unwrap();
    let mut spool = Vec::new();
    let stats = snapshot(&conn, "demo", None, &mut spool).unwrap().unwrap();
    assert_eq!(stats.rows, 10_002);
    assert_eq!((stats.seq_lo, stats.seq_hi), (Some(1), Some(10_002)));
    let files = bodies(&spool);
    let sizes: Vec<usize> = files.iter().map(|f| f.len()).collect();
    assert_eq!(sizes, [5000, 1, 5000, 1]);
    let numbers: Vec<i64> = files.iter().flatten().map(|e| e["seq"].as_i64().unwrap()).collect();
    assert_eq!(numbers, (1..=10_002).collect::<Vec<i64>>());
    assert_eq!(files[0][0]["after"].to_string(), r#"{"v":1.5,"w":null}"#);
    assert_eq!(files[1][0]["key"].to_string(), r#"{"id":5001}"#);
    assert_eq!(files[2][0]["key"].to_string(), r#"{"k":"k1","n":1}"#);
    assert_eq!(files[2][0]["after"].to_string(), r#"{"k":"k1"}"#);
    assert_eq!(files[3][0]["key"].to_string(), r#"{"rowid":1}"#);
    assert_eq!(files[3][0]["ts"], 1_700_000_001);
}

#[test]
fn snapshot_without_triggers_reports_the_drain() {
    let conn = outbox_db();
    let mut spool = Vec::new();
    assert_eq!(snapshot(&conn, "demo", None, &mut spool).unwrap(), None);
    insert_row(&conn, "t", "I", "{}", "{}");
    let stats = snapshot(&conn, "demo", None, &mut spool).unwrap();
    assert_eq!(
        stats,
        Some(DrainStats { src_db: "demo".into(), rows: 1, seq_lo: Some(1), seq_hi: Some(1) })
    );
}

#[test]
fn snapshot_of_empty_tables_reports_nothing() {
    let conn = demo_db();
    conn.execute("DELETE FROM jobs", []).unwrap();
    let mut spool = Vec::new();
    assert_eq!(snapshot(&conn, "demo", None, &mut spool).unwrap(), None);
    assert!(spool.is_empty());
}

#[test]
fn database_without_outbox_is_passed_over() {
    let conn = Connection::open_in_memory().unwrap();
    let mut spool = Vec::new();
    assert_eq!(drain(&conn, "demo", &mut spool).unwrap(), None);
    assert_eq!(snapshot(&conn, "demo", None, &mut spool).unwrap(), None);
}

#[test]
fn open_checks_the_name_before_the_file() {
    assert_eq!(open_sqlite("a b", "/x", false), Err(CaptureError::DbName { name: "a b".into() }));
    assert_eq!(open_sqlite("a", "/x", false), Err(CaptureError::SqliteMissing { path: "/x".into() }));
    assert_eq!(open_sqlite("a", "/x", true), Ok(()));
}

#[test]
fn outbox_rows_become_events() {
    let row = OutboxRow {
        seq: 7,
        tbl: "t".into(),
        op: "U".into(),
        ts: 9,
        key: r#"{ "id" : 1 }"#.into(),
        before: None,
        after: Some("[1, 2]".into()),
    };
    let e = outbox_event("demo", row.clone()).unwrap();
    assert_eq!((e.seq, e.ts, e.src_db.as_str(), e.tbl.as_str(), e.op.as_str()), (7, 9, "demo", "t", "U"));
    assert_eq!(e.key.to_string(), r#"{"id":1}"#);
    assert_eq!(e.before, None);
    assert_eq!(e.after.unwrap().to_string(), "[1,2]");
    let bad = OutboxRow { before: Some("{".into()), after: Some("}".into()), ..row.clone() };
    assert!(matches!(
        outbox_event("demo", bad),
        Err(CaptureError::NotJson { seq: 7, field: JsonField::Before, .. })
    ));
    let bad = OutboxRow { after: Some("nope".into()), ..row };
    let err = outbox_event("demo", bad).unwrap_err();
    assert_eq!(err.message(), "_outbox seq 7 after is not JSON");
}

#[test]
fn cells_become_json() {
    assert_eq!(sql_value_to_json(SqlValue::Null), Value::Null);
    assert_eq!(sql_value_to_json(SqlValue::Integer(i64::MIN)), Value::from(i64::MIN));
    assert_eq!(sql_value_to_json(SqlValue::Real(Value::from(1.5))), Value::from(1.5));
    assert_eq!(sql_value_to_json(SqlValue::Text("é".into())), Value::from("é"));
    assert_eq!(sql_value_to_json(SqlValue::Blob), Value::Null);
}

#[test]
fn rows_hold_listed_columns_only() {
    let table = CapturedTable {
        name: "t".into(),
        pk: vec!["b".into(), "a".into()],
        payload: vec!["a".into(), "c".into()],
        without_rowid: false,
    };
    let snap = row_snap(
        &table,
        vec![SqlValue::Integer(1), SqlValue::Text("x".into()), SqlValue::Null],
        42,
    );
    assert_eq!(snap.rowid, 42);
    assert_eq!(snap.key.to_string(), r#"{"a":"x","b":1}"#);
    assert_eq!(snap.after.to_string(), r#"{"a":"x","c":null}"#);
}

#[test]
fn sequence_numbers_are_reserved_behind_the_counter() {
    assert_eq!(current_outbox_seq(None, 0), 0);
    assert_eq!(current_outbox_seq(Some(5), 3), 5);
    assert_eq!(current_outbox_seq(Some(5), 8), 8);
    assert_eq!(current_outbox_seq(None, -4), 0);
    assert_eq!(floor_outbox_seq(5, 5), None);
    assert_eq!(floor_outbox_seq(4, 5), Some(5));
    assert_eq!(reserve_outbox_seq(4, 3), Ok((5, 7)));
    let err = reserve_outbox_seq(4, 0).unwrap_err();
    assert_eq!(err, CaptureError::ReserveCount);
    assert_eq!(err.message(), "reserve_outbox_seq n must be positive");
}

#[test]
fn round_names_all_failures_in_order() {
    let announced = ["a", "b", "c"]
        .iter()
        .map(|n| Announce { db_name: n.to_string(), sqlite_path: "/x".into() })
        .collect();
    let mut sweep = Sweep::new(Round::Snapshot, announced);
    assert_eq!(sweep.next(), Some("a"));
    sweep.settled(Outcome::Failed);
    assert_eq!(sweep.next(), Some("b"));
    sweep.settled(Outcome::Nothing);
    sweep.settled(Outcome::Failed);
    assert_eq!(sweep.next(), None);
    let err = sweep.finish().unwrap_err();
    assert_eq!(err, CaptureError::SnapshotFailed { names: vec!["a".into(), "c".into()] });
    assert_eq!(err.message(), "snapshot failed for: a, c");
}

#[test]
fn collector_ticks_below_a_second() {
    let cfg = CollectCfg { tick: 250_000_000, ..cfg(None) };
    assert_eq!(serve(&cfg, ServeEvent::Clock(Some(249_999_999))), ServeStep::Receive);
    assert_eq!(serve(&cfg, ServeEvent::Clock(Some(250_000_000))), ServeStep::DrainAll);
}

#[test]
fn collector_ticks_and_wakes() {
    let cfg = cfg(None);
    assert_eq!(serve(&cfg, ServeEvent::Started), ServeStep::Clock);
    assert_eq!(serve(&cfg, ServeEvent::Clock(None)), ServeStep::DrainAll);
    assert_eq!(serve(&cfg, ServeEvent::Clock(Some(59_999_999_999))), ServeStep::Receive);
    assert_eq!(serve(&cfg, ServeEvent::Clock(Some(60_000_000_000))), ServeStep::DrainAll);
    assert_eq!(serve(&cfg, ServeEvent::AllDrained), ServeStep::Receive);
    assert_eq!(
        serve(&cfg, ServeEvent::Datagram(b" adsb-trip-journal\n".to_vec())),
        ServeStep::DrainNamed("adsb-trip-journal".into())
    );
    assert_eq!(serve(&cfg, ServeEvent::Datagram(b" \t\r\n".to_vec())), ServeStep::Clock);
    assert_eq!(serve(&cfg, ServeEvent::Datagram(vec![0xff, 0x61])), ServeStep::Clock);
    assert_eq!(serve(&cfg, ServeEvent::Datagram(Vec::new())), ServeStep::Clock);
    assert_eq!(serve(&cfg, ServeEvent::Quiet), ServeStep::Clock);
    assert_eq!(serve(&cfg, ServeEvent::NamedDrained), ServeStep::Clock);
    assert_eq!(serve(&cfg, ServeEvent::Broken), ServeStep::Stop);
    assert_eq!(nudge_name(&"\u{a0}é x\u{2003}".as_bytes().to_vec()), "é x");
}

#[test]
fn listen_fd_is_for_this_process() {
    let fd = |fds: Option<&str>, pid: Option<&str>| {
        systemd_listen_fd(&fds.map(|s| s.to_string()), &pid.map(|s| s.to_string()), 77)
    };
    assert_eq!(fd(Some("1"), Some("77")), Some(3));
    assert_eq!(fd(Some("+2"), Some("077")), Some(3));
    assert_eq!(fd(Some("0"), Some("77")), None);
    assert_eq!(fd(Some("-1"), Some("77")), None);
    assert_eq!(fd(Some("1"), Some("78")), None);
    assert_eq!(fd(Some("1"), Some("-77")), None);
    assert_eq!(fd(Some("1"), None), None);
    assert_eq!(fd(None, Some("77")), None);
    assert_eq!(fd(Some("1 "), Some("77")), None);
    assert_eq!(fd(Some("99999999999"), Some("77")), None);
}

#[test]
fn passed_socket_says_why_it_is_ignored() {
    let passed = |fds: Option<&str>, pid: Option<&str>| {
        passed_socket(&fds.map(|s| s.to_string()), &pid.map(|s| s.to_string()), 77)
    };
    assert_eq!(passed(Some("1"), Some("77")), PassedSocket::Descriptor { fd: 3 });
    assert_eq!(passed(Some("1"), Some("78")), PassedSocket::OtherOwner { owner: 78 });
    assert_eq!(passed(Some("1"), Some("x")), PassedSocket::OwnerUnset);
    assert_eq!(passed(Some("1"), None), PassedSocket::OwnerUnset);
    assert_eq!(passed(Some("0"), None), PassedSocket::Absent);
    assert_eq!(passed(Some("x"), Some("77")), PassedSocket::Absent);
    assert_eq!(passed(None, Some("77")), PassedSocket::Absent);
}

#[test]
fn drain_stopped_between_steps_loses_nothing() {
    for stop in 0..8 {
        let conn = outbox_db();
        for id in 1..=2 {
            insert_row(&conn, "t", "I", &format!(r#"{{"id":{id}}}"#), "{}");
        }
        let mut spool = Vec::new();
        let mut run = DrainRun::new("demo");
        for _ in 0..stop {
            match run.action() {
                DrainAction::Fetch { after_seq, limit } => run.fetched(page(&conn, after_seq, limit)).unwrap(),
                DrainAction::Spool => {
                    put(&mut spool, "demo", run.page());
                    run.spooled();
                }
                DrainAction::Prune { through } => {
                    conn.execute(sql::OUTBOX_PRUNE, [through]).unwrap();
                    run.pruned();
                }
                DrainAction::Done => {}
            }
        }
        let kept: Vec<i64> = page(&conn, None, 10).iter().map(|r| r.seq).collect();
        let files = bodies(&spool);
        let spooled: Vec<i64> = files.iter().flatten().map(|e| e["seq"].as_i64().unwrap()).collect();
        for seq in [1, 2] {
            assert!(kept.contains(&seq) || spooled.contains(&seq));
        }
    }
}
