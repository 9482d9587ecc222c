//! Captures the changes of SQLite databases and applies them elsewhere.
//!
//! Each captured database collects its changes in an `_outbox` table. The collector drains those
//! tables into closed batches of JSON lines, and the applyer loads the batches into a log of events
//! and a table of live rows. What both decide stands here, together with what is proved of it; what
//! reads and writes files, databases and sockets stands in the program around this library.

pub mod announce;
pub mod apply;
pub mod apply_calls;
pub mod collect;
pub mod collect_calls;
pub mod error;
pub mod event;
pub mod json;
pub mod keyed;
pub mod keytext;
pub mod model;
pub mod number;
pub mod order;
pub mod outbox;
pub mod replay;
pub mod rows;
pub mod schema;
pub mod snapshot;
pub mod snapshot_calls;
pub mod spool;
pub mod sql;
pub mod table;
pub mod tables;
pub mod text;
pub mod text_calls;
pub mod views;
