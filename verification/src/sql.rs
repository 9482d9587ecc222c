//! The fixed SQL statements of the collector and the applyer.

use vstd::prelude::*;

verus! {

/// Whether a database has an `_outbox`: one row where it has.
pub const HAS_OUTBOX: &'static str = "SELECT name FROM sqlite_master WHERE type = 'table' AND name = '_outbox'";

/// The first page of the `_outbox`.
pub const OUTBOX_FIRST_PAGE: &'static str = "SELECT seq, tbl, op, ts, key, before, after FROM _outbox
          ORDER BY seq LIMIT ?1";

/// A page of the `_outbox` behind a sequence number.
pub const OUTBOX_PAGE: &'static str = "SELECT seq, tbl, op, ts, key, before, after FROM _outbox
          WHERE seq > ?1 ORDER BY seq LIMIT ?2";

/// Deletes the rows of the `_outbox` up to and with a sequence number.
pub const OUTBOX_PRUNE: &'static str = "DELETE FROM _outbox WHERE seq <= ?1";

/// The stored counter of the `_outbox`: no row where none is stored.
pub const STORED_SEQ: &'static str = "SELECT seq FROM sqlite_sequence WHERE name = '_outbox'";

/// The highest sequence number in the `_outbox`.
pub const PENDING_SEQ: &'static str = "SELECT COALESCE(MAX(seq), 0) FROM _outbox";

/// Changes the stored counter of the `_outbox`.
pub const UPDATE_SEQ: &'static str = "UPDATE sqlite_sequence SET seq = ?1 WHERE name = '_outbox'";

/// Stores a counter of the `_outbox` where none is stored.
pub const INSERT_SEQ: &'static str = "INSERT INTO sqlite_sequence(name, seq) VALUES ('_outbox', ?1)";

/// The insert triggers of the captured tables, in the order of their names.
pub const CAPTURE_TRIGGERS: &'static str = "SELECT name, sql FROM sqlite_master
         WHERE type = 'trigger' AND name LIKE '_cap_I_%'
         ORDER BY name";

/// The statement that created a table: no row where there is no such table.
pub const CREATE_STATEMENT: &'static str = "SELECT sql FROM sqlite_master WHERE type = 'table' AND name = ?1";

/// The tables that events are applied to. It may run any number of times.
pub const CAPTURE_SQL: &'static str = "CREATE SCHEMA IF NOT EXISTS capture;

CREATE TABLE IF NOT EXISTS capture.events (
  src_db TEXT NOT NULL,
  seq BIGINT NOT NULL,
  tbl TEXT NOT NULL,
  op TEXT NOT NULL,
  ts BIGINT NOT NULL,
  key JSONB NOT NULL,
  before JSONB,
  after JSONB,
  PRIMARY KEY (src_db, seq)
);

CREATE INDEX IF NOT EXISTS events_d_key
  ON capture.events (src_db, tbl, key, seq)
  WHERE op = 'D';

CREATE TABLE IF NOT EXISTS capture.watermarks (
  src_db TEXT PRIMARY KEY,
  last_seq BIGINT NOT NULL
);

CREATE TABLE IF NOT EXISTS capture.current (
  src_db TEXT NOT NULL,
  tbl TEXT NOT NULL,
  key JSONB NOT NULL,
  after JSONB NOT NULL,
  seq BIGINT NOT NULL,
  ts BIGINT NOT NULL,
  PRIMARY KEY (src_db, tbl, key)
);
";

/// Logs an event unless its number is taken.
pub const INSERT_EVENT: &'static str = "INSERT INTO capture.events (src_db, seq, tbl, op, ts, key, before, after)
         VALUES ($1, $2, $3, $4, $5, $6, $7, $8)
         ON CONFLICT (src_db, seq) DO NOTHING";

/// Takes away a live row.
pub const DELETE_ROW: &'static str = "DELETE FROM capture.current WHERE src_db = $1 AND tbl = $2 AND key = $3";

/// Writes a live row, unless a later deletion is logged or the row is as new.
pub const UPSERT_ROW: &'static str = "INSERT INTO capture.current (src_db, tbl, key, after, seq, ts)
         SELECT $1, $2, $3, $4, $5, $6
         WHERE NOT EXISTS (
           SELECT 1 FROM capture.events e
            WHERE e.src_db = $1 AND e.tbl = $2 AND e.key = $3
              AND e.op = 'D' AND e.seq > $5
         )
         ON CONFLICT (src_db, tbl, key) DO UPDATE SET
            after = EXCLUDED.after,
            seq = EXCLUDED.seq,
            ts = EXCLUDED.ts
         WHERE capture.current.seq < EXCLUDED.seq";

/// Takes away the live rows of a database that sit under a later deletion.
pub const RETRACT_STALE: &'static str = "DELETE FROM capture.current c
         WHERE c.src_db = $1 AND EXISTS (
           SELECT 1 FROM capture.events e
            WHERE e.src_db = c.src_db AND e.tbl = c.tbl AND e.key = c.key
              AND e.op = 'D' AND e.seq > c.seq
         )";

/// Raises the watermark of a database where it is lower.
pub const BUMP_WATERMARK: &'static str = "INSERT INTO capture.watermarks (src_db, last_seq) VALUES ($1, $2)
         ON CONFLICT (src_db) DO UPDATE SET last_seq = GREATEST(capture.watermarks.last_seq, EXCLUDED.last_seq)";

} // verus!
