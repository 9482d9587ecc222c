//! One-shot replica of the captured tables of one database into batches.
//!
//! The `_outbox` holds changes from the moment capture was enabled on. A snapshot drains it first and
//! then emits an `I` event for every current row of each captured table. The sequence numbers of those
//! events are reserved in the counter of the `_outbox`, so that later changes get higher ones. The
//! whole runs under the write lock of the database.

use vstd::prelude::*;
use vstd::seq_lib;

use crate::announce;
use crate::announce::{load_named, Announce};
use crate::collect::{CollectCfg, DrainStats, DrainStatsView, Round, Sweep, SweepView};
use crate::error::CaptureError;
use crate::event::EventView;
use crate::model;
use crate::outbox;
use crate::outbox::{DrainView, OutboxRowView};
use crate::rows::RowSnap;
use crate::schema::{CapturedTable, TableView};
use crate::table;
use crate::table::floor_outbox_seq;

verus! {

/// Where the snapshot of a database stands.
#[derive(Debug, Clone, Copy, PartialEq, Eq, Structural)]
pub enum SnapPhase {
    /// The counter has to be read, to raise it where it is too low.
    Floor,
    /// The counter has to be raised.
    Raise,
    /// The `_outbox` has to be drained.
    Drain,
    /// The captured tables have to be listed.
    List,
    /// A table has to be snapshotted.
    Table,
    /// The counter has to be read for the report.
    Total,
    /// Nothing is left to do.
    Done,
}

/// What the snapshot of a database asks for next.
#[derive(Debug, Clone, Copy, PartialEq, Eq, Structural)]
pub enum SnapAction {
    /// Read the highest sequence number handed out so far.
    ReadSeq,
    /// Store the highest sequence number handed out.
    WriteSeq { seq: i64 },
    /// Drain the `_outbox`.
    Drain,
    /// List the captured tables.
    List,
    /// Snapshot the captured table with this index.
    Table { index: usize },
    Done,
}

/// The snapshot of one database.
pub struct SnapshotRun {
    src_db: String,
    min_seq: Option<i64>,
    phase: SnapPhase,
    drained: Option<DrainStats>,
    tables: Vec<CapturedTable>,
    at: usize,
    snap_rows: usize,
    seq_lo: Option<i64>,
    seq_hi: Option<i64>,
}

/// The state of the snapshot of one database.
pub struct SnapshotView {
    pub src_db: Seq<char>,
    /// The floor for the sequence numbers.
    pub min_seq: Option<i64>,
    pub phase: SnapPhase,
    /// What the drain reported.
    pub drained: Option<DrainStatsView>,
    /// The captured tables.
    pub tables: Seq<TableView>,
    /// How many of them are done.
    pub at: nat,
    /// How many of their rows are spooled.
    pub snap_rows: nat,
    /// The first and the last sequence number to report.
    pub seq_lo: Option<i64>,
    pub seq_hi: Option<i64>,
}

impl SnapshotView {
    /// A snapshot that has not started.
    pub open spec fn start(src_db: Seq<char>, min_seq: Option<i64>) -> SnapshotView {
        SnapshotView {
            src_db,
            min_seq,
            phase: if min_seq is Some {
                SnapPhase::Floor
            } else {
                SnapPhase::Drain
            },
            drained: None,
            tables: seq![],
            at: 0,
            snap_rows: 0,
            seq_lo: None,
            seq_hi: None,
        }
    }

    /// Whether there is a floor where one is to be kept, a table where one is to be snapshotted, and a
    /// report only at the end.
    pub open spec fn well_formed(self) -> bool {
        &&& self.phase == SnapPhase::Floor || self.phase == SnapPhase::Raise ==> self.min_seq is Some
        &&& self.phase == SnapPhase::Table ==> self.at < self.tables.len()
        &&& self.seq_hi is Some ==> self.phase == SnapPhase::Done && self.drain_rows() + self.snap_rows <= usize::MAX
    }

    /// How many rows the drain spooled.
    pub open spec fn drain_rows(self) -> nat {
        match self.drained {
            Some(d) => d.rows,
            None => 0,
        }
    }

    /// The counter was read. Before the drain it is compared with the floor; behind the tables it is
    /// the last number to report, and the first is that of the drain, or else that of the first row.
    pub open spec fn seq_read(self, cur: i64) -> SnapshotView {
        if self.phase == SnapPhase::Floor {
            SnapshotView {
                phase: if cur >= self.min_seq->0 {
                    SnapPhase::Drain
                } else {
                    SnapPhase::Raise
                },
                ..self
            }
        } else {
            let drain_lo = match self.drained {
                Some(d) => d.seq_lo,
                None => None,
            };
            SnapshotView {
                phase: SnapPhase::Done,
                seq_lo: match drain_lo {
                    Some(lo) => Some(lo),
                    None => if self.snap_rows == 0 {
                        None
                    } else {
                        Some((cur - self.snap_rows + 1) as i64)
                    },
                },
                seq_hi: Some(cur),
                ..self
            }
        }
    }

    /// The counter was raised.
    pub open spec fn seq_written(self) -> SnapshotView {
        SnapshotView { phase: SnapPhase::Drain, ..self }
    }

    /// The `_outbox` was drained.
    pub open spec fn drained(self, stats: Option<DrainStatsView>) -> SnapshotView {
        SnapshotView { phase: SnapPhase::List, drained: stats, ..self }
    }

    /// The captured tables were listed. Without any, nothing is left to do.
    pub open spec fn listed(self, tables: Seq<TableView>) -> SnapshotView {
        SnapshotView {
            phase: if tables.len() == 0 {
                SnapPhase::Done
            } else {
                SnapPhase::Table
            },
            tables,
            at: 0,
            ..self
        }
    }

    /// The table at hand was snapshotted, with `written` rows. Behind the last table nothing is left
    /// to do where nothing at all was spooled.
    pub open spec fn table_done(self, written: nat) -> SnapshotView {
        SnapshotView {
            phase: if self.at + 1 < self.tables.len() {
                SnapPhase::Table
            } else if self.drain_rows() + self.snap_rows + written == 0 {
                SnapPhase::Done
            } else {
                SnapPhase::Total
            },
            at: self.at + 1,
            snap_rows: self.snap_rows + written,
            ..self
        }
    }

    /// What the snapshot asks for next.
    pub open spec fn action(self) -> SnapAction {
        match self.phase {
            SnapPhase::Floor => SnapAction::ReadSeq,
            SnapPhase::Raise => SnapAction::WriteSeq { seq: self.min_seq->0 },
            SnapPhase::Drain => SnapAction::Drain,
            SnapPhase::List => SnapAction::List,
            SnapPhase::Table => SnapAction::Table { index: self.at as usize },
            SnapPhase::Total => SnapAction::ReadSeq,
            SnapPhase::Done => SnapAction::Done,
        }
    }

    /// What a snapshot that is done reports: what the drain reported where there is no captured
    /// table, else the rows of the drain and of the tables together, and nothing where there are none.
    pub open spec fn report(self) -> Option<DrainStatsView> {
        if self.tables.len() == 0 {
            self.drained
        } else if self.seq_hi is None {
            None
        } else {
            Some(
                DrainStatsView {
                    src_db: self.src_db,
                    rows: self.drain_rows() + self.snap_rows,
                    seq_lo: self.seq_lo,
                    seq_hi: self.seq_hi,
                },
            )
        }
    }
}

impl View for SnapshotRun {
    type V = SnapshotView;

    closed spec fn view(&self) -> SnapshotView {
        SnapshotView {
            src_db: self.src_db@,
            min_seq: self.min_seq,
            phase: self.phase,
            drained: model::option_view(self.drained),
            tables: model::views(self.tables@),
            at: self.at as nat,
            snap_rows: self.snap_rows as nat,
            seq_lo: self.seq_lo,
            seq_hi: self.seq_hi,
        }
    }
}

impl SnapshotRun {
    /// A snapshot of the database `src_db`, numbered above `min_seq` where that is given.
    pub fn new(src_db: &str, min_seq: Option<i64>) -> (r: SnapshotRun)
        ensures
            r@ == SnapshotView::start(src_db@, min_seq),
            r@.well_formed(),
    {
        let r = SnapshotRun {
            src_db: src_db.to_owned(),
            min_seq,
            phase: if min_seq.is_some() {
                SnapPhase::Floor
            } else {
                SnapPhase::Drain
            },
            drained: None,
            tables: Vec::new(),
            at: 0,
            snap_rows: 0,
            seq_lo: None,
            seq_hi: None,
        };
        assert(r@.tables =~= seq![]);
        r
    }

    /// What the snapshot asks for next.
    pub fn action(&self) -> (r: SnapAction)
        requires
            self@.well_formed(),
        ensures
            r == self@.action(),
    {
        match self.phase {
            SnapPhase::Floor => SnapAction::ReadSeq,
            SnapPhase::Raise => SnapAction::WriteSeq { seq: self.min_seq.unwrap() },
            SnapPhase::Drain => SnapAction::Drain,
            SnapPhase::List => SnapAction::List,
            SnapPhase::Table => SnapAction::Table { index: self.at },
            SnapPhase::Total => SnapAction::ReadSeq,
            SnapPhase::Done => SnapAction::Done,
        }
    }

    /// The captured tables.
    pub fn tables(&self) -> (r: &Vec<CapturedTable>)
        ensures
            model::views(r@) == self@.tables,
    {
        &self.tables
    }

    /// How many rows the drain spooled.
    pub fn drain_rows(&self) -> (r: usize)
        ensures
            r == self@.drain_rows(),
    {
        match &self.drained {
            Some(d) => d.rows,
            None => 0,
        }
    }

    /// How many rows of the tables are spooled.
    pub fn snap_rows(&self) -> (r: usize)
        ensures
            r == self@.snap_rows,
    {
        self.snap_rows
    }

    /// Takes in the highest sequence number handed out so far.
    pub fn seq_read(&mut self, cur: i64)
        requires
            old(self)@.well_formed(),
            old(self)@.phase == SnapPhase::Floor || old(self)@.phase == SnapPhase::Total,
            old(self)@.phase == SnapPhase::Total ==> {
                &&& old(self)@.drain_rows() + old(self)@.snap_rows <= usize::MAX
                &&& old(self)@.snap_rows <= i64::MAX
                &&& cur - old(self)@.snap_rows >= i64::MIN
            },
        ensures
            final(self)@.well_formed(),
            final(self)@ == old(self)@.seq_read(cur),
    {
        if self.phase == SnapPhase::Floor {
            self.phase = match floor_outbox_seq(cur, self.min_seq.unwrap()) {
                None => SnapPhase::Drain,
                Some(_) => SnapPhase::Raise,
            };
        } else {
            let drain_lo: Option<i64> = match &self.drained {
                Some(d) => d.seq_lo,
                None => None,
            };
            self.seq_lo = match drain_lo {
                Some(lo) => Some(lo),
                None => if self.snap_rows == 0 {
                    None
                } else {
                    Some(cur - self.snap_rows as i64 + 1)
                },
            };
            self.seq_hi = Some(cur);
            self.phase = SnapPhase::Done;
        }
    }

    /// The counter was raised.
    pub fn seq_written(&mut self)
        requires
            old(self)@.well_formed(),
            old(self)@.phase == SnapPhase::Raise,
        ensures
            final(self)@.well_formed(),
            final(self)@ == old(self)@.seq_written(),
    {
        self.phase = SnapPhase::Drain;
    }

    /// Takes in what the drain reported.
    pub fn drained(&mut self, stats: Option<DrainStats>)
        requires
            old(self)@.well_formed(),
            old(self)@.phase == SnapPhase::Drain,
        ensures
            final(self)@.well_formed(),
            final(self)@ == old(self)@.drained(model::option_view(stats)),
    {
        self.drained = stats;
        self.phase = SnapPhase::List;
    }

    /// Takes in the captured tables.
    pub fn listed(&mut self, tables: Vec<CapturedTable>)
        requires
            old(self)@.well_formed(),
            old(self)@.phase == SnapPhase::List,
        ensures
            final(self)@.well_formed(),
            final(self)@ == old(self)@.listed(model::views(tables@)),
    {
        self.phase = if tables.len() == 0 {
            SnapPhase::Done
        } else {
            SnapPhase::Table
        };
        self.tables = tables;
        self.at = 0;
    }

    /// Takes in the number of rows spooled of the table at hand.
    pub fn table_done(&mut self, written: usize)
        requires
            old(self)@.well_formed(),
            old(self)@.phase == SnapPhase::Table,
            old(self)@.drain_rows() + old(self)@.snap_rows + written <= usize::MAX,
        ensures
            final(self)@.well_formed(),
            final(self)@ == old(self)@.table_done(written as nat),
    {
        assert(self.at < self.tables.len());
        let drain_rows = self.drain_rows();
        self.at = self.at + 1;
        self.snap_rows = self.snap_rows + written;
        self.phase = if self.at < self.tables.len() {
            SnapPhase::Table
        } else if drain_rows + self.snap_rows == 0 {
            SnapPhase::Done
        } else {
            SnapPhase::Total
        };
    }

    /// What was spooled, if anything was.
    pub fn finish(self) -> (r: Option<DrainStats>)
        requires
            self@.well_formed(),
        ensures
            model::option_view(r) == self@.report(),
    {
        if self.tables.len() == 0 {
            self.drained
        } else if self.seq_hi.is_none() {
            None
        } else {
            let drain_rows = self.drain_rows();
            Some(
                DrainStats {
                    src_db: self.src_db,
                    rows: drain_rows + self.snap_rows,
                    seq_lo: self.seq_lo,
                    seq_hi: self.seq_hi,
                },
            )
        }
    }
}

/// How the tables of a snapshot end: its state, the counter, and the batches they wrote.
pub struct TablesEnd {
    pub state: SnapshotView,
    pub counter: int,
    pub batches: Seq<Seq<EventView>>,
}

/// How a snapshot goes through its first `n` tables, which hold `contents`, with `counter` the highest
/// sequence number handed out before.
pub open spec fn tables_run(
    state: SnapshotView,
    contents: Seq<Seq<RowSnap>>,
    ts: i64,
    counter: int,
    n: nat,
) -> TablesEnd
    decreases n,
{
    if n == 0 {
        TablesEnd { state, counter, batches: seq![] }
    } else {
        let before = tables_run(state, contents, ts, counter, (n - 1) as nat);
        let end = table::table_run(
            state.src_db,
            state.tables[before.state.at as int],
            ts,
            contents[before.state.at as int],
            before.counter,
        );
        TablesEnd {
            state: before.state.table_done(end.state.written),
            counter: end.counter,
            batches: before.batches + end.batches,
        }
    }
}

/// The highest sequence number handed out, as it is read of a database that stores `stored` as its
/// counter and whose `_outbox` holds `rows`.
pub open spec fn counter_of(stored: i64, rows: Seq<OutboxRowView>) -> i64 {
    table::highest_seq(
        Some(stored),
        if rows.len() == 0 {
            0
        } else {
            rows.last().seq
        },
    )
}

/// How a snapshot ends: its report, the highest sequence number handed out, and the batches it wrote.
pub struct SnapshotEnd {
    pub report: Option<DrainStatsView>,
    pub counter: int,
    pub batches: Seq<Seq<EventView>>,
}

/// How a snapshot runs on a database whose `_outbox` holds `pending`, whose captured tables hold
/// `contents`, and that stores `stored` as its counter.
pub open spec fn snapshot_run(
    src_db: Seq<char>,
    min_seq: Option<i64>,
    pending: Seq<OutboxRowView>,
    tables: Seq<TableView>,
    contents: Seq<Seq<RowSnap>>,
    ts: i64,
    stored: i64,
) -> SnapshotEnd {
    let begun = SnapshotView::start(src_db, min_seq);
    let read = if begun.action() == SnapAction::ReadSeq {
        begun.seq_read(counter_of(stored, pending))
    } else {
        begun
    };
    let (ready, floored) = match read.action() {
        SnapAction::WriteSeq { seq } => (read.seq_written(), seq),
        _ => (read, stored),
    };
    let drain = outbox::drained(DrainView::start(src_db), pending, seq![]);
    let listed = ready.drained(drain.state.stats()).listed(tables);
    let through = tables_run(listed, contents, ts, counter_of(floored, drain.left) as int, tables.len());
    let end = if through.state.action() == SnapAction::ReadSeq {
        through.state.seq_read(through.counter as i64)
    } else {
        through.state
    };
    SnapshotEnd { report: end.report(), counter: through.counter, batches: drain.batches + through.batches }
}

/// How many rows the first `n` tables hold.
pub open spec fn total_rows(contents: Seq<Seq<RowSnap>>, n: nat) -> nat
    decreases n,
{
    if n == 0 {
        0
    } else {
        total_rows(contents, (n - 1) as nat) + contents[n - 1].len()
    }
}

/// The insertions of all rows of the first `n` tables, one table after the other, numbered from
/// `first` on without a gap.
pub open spec fn tables_events(
    src_db: Seq<char>,
    tables: Seq<TableView>,
    contents: Seq<Seq<RowSnap>>,
    ts: i64,
    first: int,
    n: nat,
) -> Seq<EventView>
    decreases n,
{
    if n == 0 {
        seq![]
    } else {
        let before = (n - 1) as nat;
        tables_events(src_db, tables, contents, ts, first, before) + table::snap_events(
            src_db,
            tables[n - 1].name,
            ts,
            first + total_rows(contents, before),
            contents[n - 1],
        )
    }
}

/// The highest sequence number handed out before the tables: the stored counter or the floor, whichever
/// is higher, and not below zero.
pub open spec fn raised(stored: i64, min_seq: Option<i64>) -> int {
    let floor = match min_seq {
        Some(min) => if stored >= min {
            stored
        } else {
            min
        },
        None => stored,
    };
    if floor >= 0 {
        floor as int
    } else {
        0
    }
}

proof fn lemma_total_rows_grows(contents: Seq<Seq<RowSnap>>, n: nat, m: nat)
    requires
        n <= m,
    ensures
        total_rows(contents, n) <= total_rows(contents, m),
    decreases m,
{
    if n < m {
        lemma_total_rows_grows(contents, n, (m - 1) as nat);
    }
}

proof fn lemma_tables_run(
    state: SnapshotView,
    contents: Seq<Seq<RowSnap>>,
    ts: i64,
    counter: int,
    n: nat,
)
    requires
        n <= state.tables.len(),
        contents.len() == state.tables.len(),
        state.at == 0,
        state.phase == (if state.tables.len() == 0 {
            SnapPhase::Done
        } else {
            SnapPhase::Table
        }),
        forall|i: int| 0 <= i < contents.len() && !state.tables[i].without_rowid ==> table::by_rowid(#[trigger] contents[i]),
        i64::MIN <= counter,
        counter + total_rows(contents, state.tables.len()) <= i64::MAX,
    ensures
        ({
            let end = tables_run(state, contents, ts, counter, n);
            &&& end.counter == counter + total_rows(contents, n)
            &&& end.batches.flatten() == tables_events(state.src_db, state.tables, contents, ts, counter + 1, n)
            &&& end.state == SnapshotView {
                phase: end.state.phase,
                at: n,
                snap_rows: state.snap_rows + total_rows(contents, n),
                ..state
            }
            &&& n > 0 ==> end.state.phase == (if n < state.tables.len() {
                SnapPhase::Table
            } else if state.drain_rows() + state.snap_rows + total_rows(contents, n) == 0 {
                SnapPhase::Done
            } else {
                SnapPhase::Total
            })
        }),
    decreases n,
{
    if n == 0 {
        assert(Seq::<Seq<EventView>>::empty().flatten() =~= Seq::<EventView>::empty());
    } else {
        let before = (n - 1) as nat;
        lemma_tables_run(state, contents, ts, counter, before);
        let prior = tables_run(state, contents, ts, counter, before);
        assert(total_rows(contents, n) == total_rows(contents, before) + contents[n - 1].len());
        lemma_total_rows_grows(contents, n, state.tables.len());
        table::snapshot_covers_the_table(state.src_db, state.tables[n - 1], ts, contents[n - 1], prior.counter);
        let end = table::table_run(state.src_db, state.tables[n - 1], ts, contents[n - 1], prior.counter);
        seq_lib::lemma_flatten_concat(prior.batches, end.batches);
    }
}

proof fn lemma_tables_events_numbers(
    src_db: Seq<char>,
    tables: Seq<TableView>,
    contents: Seq<Seq<RowSnap>>,
    ts: i64,
    first: int,
    n: nat,
)
    requires
        i64::MIN <= first,
        first + total_rows(contents, n) <= i64::MAX + 1,
    ensures
        tables_events(src_db, tables, contents, ts, first, n).len() == total_rows(contents, n),
        forall|i: int|
            0 <= i < total_rows(contents, n) ==> (#[trigger] tables_events(src_db, tables, contents, ts, first, n)[i]).seq
                == first + i,
    decreases n,
{
    if n > 0 {
        lemma_tables_events_numbers(src_db, tables, contents, ts, first, (n - 1) as nat);
    }
}

/// A snapshot spools the events of the `_outbox` and then one insertion for every row of every
/// captured table, and nothing else. The insertions are numbered without a gap, behind every number
/// handed out before and behind the floor, and the counter ends at the last number: the next change
/// gets a higher one.
///
/// It holds where every `_outbox` row stands for an event and has a number that the stored counter has
/// reached, as generated numbers have.
pub proof fn snapshot_spools_every_row(
    src_db: Seq<char>,
    min_seq: Option<i64>,
    pending: Seq<OutboxRowView>,
    tables: Seq<TableView>,
    contents: Seq<Seq<RowSnap>>,
    ts: i64,
    stored: i64,
)
    requires
        outbox::by_seq(pending),
        forall|i: int| 0 <= i < pending.len() ==> (#[trigger] pending[i]).seq <= stored,
        outbox::events_of_rows(src_db, pending) is Ok,
        contents.len() == tables.len(),
        forall|i: int| 0 <= i < contents.len() && !tables[i].without_rowid ==> table::by_rowid(#[trigger] contents[i]),
        raised(stored, min_seq) + total_rows(contents, tables.len()) <= i64::MAX,
    ensures
        ({
            let end = snapshot_run(src_db, min_seq, pending, tables, contents, ts, stored);
            let events = end.batches.flatten();
            let floor = raised(stored, min_seq);
            &&& events == outbox::events_of_rows(src_db, pending)->Ok_0 + tables_events(
                src_db,
                tables,
                contents,
                ts,
                floor + 1,
                tables.len(),
            )
            &&& events.len() == pending.len() + total_rows(contents, tables.len())
            &&& forall|i: int|
                0 <= i < events.len() ==> (#[trigger] events[i]).seq == (if i < pending.len() {
                    pending[i].seq as int
                } else {
                    floor + 1 + i - pending.len()
                })
            &&& end.counter == floor + total_rows(contents, tables.len())
        }),
{
    let n = tables.len();
    let floor = raised(stored, min_seq);
    outbox::drain_takes_everything(src_db, pending);
    let drain = outbox::drained(DrainView::start(src_db), pending, seq![]);
    let started = SnapshotView { phase: SnapPhase::Drain, ..SnapshotView::start(src_db, min_seq) };
    let listed = started.drained(drain.state.stats()).listed(tables);
    lemma_tables_run(listed, contents, ts, floor, n);
    let through = tables_run(listed, contents, ts, floor, n);
    seq_lib::lemma_flatten_concat(drain.batches, through.batches);
    lemma_tables_events_numbers(src_db, tables, contents, ts, floor + 1, n);
    outbox::lemma_events_keep_seq(src_db, pending);
}

/// A snapshot reports what it spooled: nothing where that is nothing, else the number of events, the
/// sequence number of the first of them, and the highest number handed out, which is that of the last
/// event where the tables hold rows. Without a captured table it reports what the drain reports.
pub proof fn snapshot_reports_what_it_spooled(
    src_db: Seq<char>,
    min_seq: Option<i64>,
    pending: Seq<OutboxRowView>,
    tables: Seq<TableView>,
    contents: Seq<Seq<RowSnap>>,
    ts: i64,
    stored: i64,
)
    requires
        outbox::by_seq(pending),
        forall|i: int| 0 <= i < pending.len() ==> (#[trigger] pending[i]).seq <= stored,
        outbox::events_of_rows(src_db, pending) is Ok,
        contents.len() == tables.len(),
        forall|i: int| 0 <= i < contents.len() && !tables[i].without_rowid ==> table::by_rowid(#[trigger] contents[i]),
        raised(stored, min_seq) + total_rows(contents, tables.len()) <= i64::MAX,
    ensures
        ({
            let end = snapshot_run(src_db, min_seq, pending, tables, contents, ts, stored);
            let events = end.batches.flatten();
            &&& events.len() == 0 ==> end.report is None
            &&& events.len() > 0 ==> {
                &&& end.report matches Some(report)
                &&& report.src_db == src_db
                &&& report.rows == events.len()
                &&& report.seq_lo == Some(events[0].seq)
                &&& total_rows(contents, tables.len()) > 0 ==> report.seq_hi == Some(events.last().seq)
                &&& tables.len() == 0 ==> report.seq_hi == Some(events.last().seq)
                &&& tables.len() > 0 ==> report.seq_hi == Some(end.counter as i64)
            }
        }),
{
    snapshot_spools_every_row(src_db, min_seq, pending, tables, contents, ts, stored);
    let n = tables.len();
    let floor = raised(stored, min_seq);
    outbox::drain_takes_everything(src_db, pending);
    let drain = outbox::drained(DrainView::start(src_db), pending, seq![]);
    let started = SnapshotView { phase: SnapPhase::Drain, ..SnapshotView::start(src_db, min_seq) };
    let listed = started.drained(drain.state.stats()).listed(tables);
    lemma_tables_run(listed, contents, ts, floor, n);
}

/// Which databases a snapshot takes.
pub enum SnapshotPlan {
    /// One database. What fails there fails as a whole.
    One(String),
    /// All announced databases, in a round.
    All(Sweep),
}

/// Which databases a snapshot takes: the one that is configured, else all that are announced.
pub fn snapshot_all(cfg: &CollectCfg, announced: Vec<Announce>) -> (r: SnapshotPlan)
    ensures
        match r {
            SnapshotPlan::One(name) => model::option_view(cfg.snapshot_db) == Some(name@),
            SnapshotPlan::All(sweep) => cfg.snapshot_db is None && sweep@ == SweepView::start(
                Round::Snapshot,
                model::views(announced@),
            ),
        },
{
    match &cfg.snapshot_db {
        Some(name) => SnapshotPlan::One(name.clone()),
        None => SnapshotPlan::All(Sweep::new(Round::Snapshot, announced)),
    }
}

/// The reports of a snapshot that took one database.
pub fn one_report(report: Option<DrainStats>) -> (r: Vec<DrainStats>)
    ensures
        model::views(r@) == (match report {
            Some(stats) => seq![stats@],
            None => seq![],
        }),
{
    let mut out: Vec<DrainStats> = Vec::new();
    if let Some(stats) = report {
        out.push(stats);
    }
    assert(model::views(out@) =~= (match report {
        Some(stats) => seq![stats@],
        None => seq![],
    }));
    out
}

/// The database to snapshot for `db_name`, by what its announce file holds; nothing where nobody
/// announced it.
pub fn snapshot_named(db_name: &str, file: &str, found: Option<Announce>) -> (r: Result<Option<Announce>, CaptureError>)
    ensures
        announce::announce_view(r) == announce::named(db_name@, file@, model::option_view(found)),
{
    load_named(db_name, file, found)
}

/// Starts the snapshot of an opened database; one without an `_outbox` is not captured.
pub fn snapshot_sqlite(src_db: &str, min_seq: Option<i64>, has_outbox: bool) -> (r: Option<SnapshotRun>)
    ensures
        r is Some <==> has_outbox,
        r matches Some(run) ==> run@ == SnapshotView::start(src_db@, min_seq) && run@.well_formed(),
{
    if has_outbox {
        Some(SnapshotRun::new(src_db, min_seq))
    } else {
        None
    }
}

/// Whether two states are of a snapshot of the same database with the same floor.
pub open spec fn same_database(a: SnapshotView, b: SnapshotView) -> bool {
    a.src_db == b.src_db && a.min_seq == b.min_seq
}

/// A snapshot with a floor reads the counter first and raises it to the floor where it is lower; then, or
/// at once without a floor, it drains the `_outbox`.
pub proof fn a_snapshot_keeps_its_floor(src_db: Seq<char>, min: i64, cur: i64)
    ensures
        ({
            let start = SnapshotView::start(src_db, Some(min));
            let read = start.seq_read(cur);
            &&& start.src_db == src_db && start.min_seq == Some(min)
            &&& start.drained is None && start.tables.len() == 0 && start.at == 0 && start.snap_rows == 0
            &&& start.seq_lo is None && start.seq_hi is None
            &&& start.action() == SnapAction::ReadSeq
            &&& read == (SnapshotView { phase: read.phase, ..start })
            &&& cur >= min ==> read.action() == SnapAction::Drain
            &&& cur < min ==> read.action() == (SnapAction::WriteSeq { seq: min })
            &&& read.seq_written() == (SnapshotView { phase: read.seq_written().phase, ..start })
            &&& read.seq_written().action() == SnapAction::Drain
        }),
        ({
            let start = SnapshotView::start(src_db, None);
            &&& start.src_db == src_db && start.min_seq is None
            &&& start.drained is None && start.tables.len() == 0 && start.at == 0 && start.snap_rows == 0
            &&& start.seq_lo is None && start.seq_hi is None
            &&& start.action() == SnapAction::Drain
        }),
{
}

/// Behind the drain the captured tables are listed, and then snapshotted from the first to the last, their
/// rows counted together. Without a table, and where nothing at all was spooled, that is the end; else the
/// counter is read once more.
pub proof fn a_snapshot_takes_its_tables_in_turn(
    state: SnapshotView,
    stats: Option<DrainStatsView>,
    tables: Seq<TableView>,
    written: nat,
)
    ensures
        ({
            let next = state.drained(stats);
            &&& same_database(next, state) && next.drained == stats && next.snap_rows == state.snap_rows
            &&& next.seq_lo == state.seq_lo && next.seq_hi == state.seq_hi
            &&& next.action() == SnapAction::List
        }),
        ({
            let next = state.listed(tables);
            &&& same_database(next, state) && next.drained == state.drained && next.snap_rows == state.snap_rows
            &&& next.seq_lo == state.seq_lo && next.seq_hi == state.seq_hi
            &&& next.tables == tables && next.at == 0
            &&& next.action() == (if tables.len() == 0 {
                SnapAction::Done
            } else {
                SnapAction::Table { index: 0 }
            })
        }),
        ({
            let next = state.table_done(written);
            let drained = match state.drained {
                Some(d) => d.rows,
                None => 0,
            };
            &&& same_database(next, state) && next.drained == state.drained && next.tables == state.tables
            &&& next.seq_lo == state.seq_lo && next.seq_hi == state.seq_hi
            &&& next.at == state.at + 1
            &&& next.snap_rows == state.snap_rows + written
            &&& next.action() == (if state.at + 1 < state.tables.len() {
                SnapAction::Table { index: (state.at + 1) as usize }
            } else if drained + state.snap_rows + written == 0 {
                SnapAction::Done
            } else {
                SnapAction::ReadSeq
            })
        }),
{
}

/// Behind the tables the counter is the last number to report. The first is that of the drain, and else,
/// where the tables hold rows, the one of their first row. The report counts the rows of the drain and of
/// the tables together; without a table it is that of the drain, and nothing where nothing was spooled.
pub proof fn a_snapshot_reports_drain_and_tables(state: SnapshotView, cur: i64)
    requires
        state.phase == SnapPhase::Total,
        state.tables.len() > 0,
        cur - state.snap_rows >= i64::MIN,
    ensures
        ({
            let end = state.seq_read(cur);
            let drained = match state.drained {
                Some(d) => d.rows,
                None => 0,
            };
            &&& end.action() == SnapAction::Done
            &&& end.report() matches Some(report)
            &&& report.src_db == state.src_db
            &&& report.rows == drained + state.snap_rows
            &&& report.seq_hi == Some(cur)
            &&& match state.drained {
                Some(DrainStatsView { seq_lo: Some(lo), .. }) => report.seq_lo == Some(lo),
                _ => if state.snap_rows == 0 {
                    report.seq_lo is None
                } else {
                    report.seq_lo matches Some(lo) && lo == cur - state.snap_rows + 1
                },
            }
        }),
        state.seq_hi is None ==> state.report() is None,
        (SnapshotView { tables: seq![], ..state }).report() == state.drained,
{
}

/// The number behind which the rows of the tables are numbered is the stored counter, the floor or zero,
/// and none of them is above it.
pub proof fn rows_are_numbered_behind_counter_and_floor(stored: i64, min_seq: Option<i64>)
    ensures
        ({
            let r = raised(stored, min_seq);
            &&& r >= stored && r >= 0
            &&& min_seq matches Some(min) ==> r >= min
            &&& r == stored || r == 0 || min_seq == Some(r as i64)
        }),
{
}

/// One table more adds its rows to the count and their insertions behind all others, numbered on without
/// a gap.
pub proof fn each_table_adds_its_rows(
    src_db: Seq<char>,
    tables: Seq<TableView>,
    contents: Seq<Seq<RowSnap>>,
    ts: i64,
    first: int,
    n: nat,
    i: int,
)
    requires
        n < tables.len() == contents.len(),
        i64::MIN <= first,
        first + total_rows(contents, n + 1) <= i64::MAX + 1,
        0 <= i < contents[n as int].len(),
    ensures
        total_rows(contents, 0) == 0,
        total_rows(contents, n + 1) == total_rows(contents, n) + contents[n as int].len(),
        ({
            let before = tables_events(src_db, tables, contents, ts, first, n);
            let events = tables_events(src_db, tables, contents, ts, first, n + 1);
            let e = events[before.len() + i];
            &&& before.is_prefix_of(events)
            &&& events.len() == before.len() + contents[n as int].len()
            &&& e.src_db == src_db
            &&& e.tbl == tables[n as int].name
            &&& e.op == "I"@
            &&& e.ts == ts
            &&& e.seq == first + before.len() + i
            &&& e.key == contents[n as int][i].key
            &&& e.before is None
            &&& e.after == Some(contents[n as int][i].after)
        }),
{
    let before = tables_events(src_db, tables, contents, ts, first, n);
    let events = tables_events(src_db, tables, contents, ts, first, n + 1);
    lemma_tables_events_numbers(src_db, tables, contents, ts, first, n);
    assert(before =~= events.subrange(0, before.len() as int));
}

} // verus!
