//! The snapshot of one captured table: its rows batch by batch, the events of each batch numbered in
//! the counter of the `_outbox` before they are spooled.

use vstd::prelude::*;

use crate::error::{CaptureError, ErrorView};
use crate::event::{Event, EventView};
use crate::model;
use crate::outbox;
use crate::rows::RowSnap;
use crate::schema::{CapturedTable, TableView};
use crate::spool::JSONL_BATCH;

verus! {

/// The highest sequence number handed out so far, by the stored counter of the `_outbox`, if there is
/// one, and the highest number in it, zero when it is empty.
pub open spec fn highest_seq(seq_tbl: Option<i64>, seq_out: i64) -> i64 {
    let stored = match seq_tbl {
        Some(stored) => stored,
        None => 0,
    };
    if stored > seq_out {
        stored
    } else {
        seq_out
    }
}

/// The highest sequence number handed out so far.
pub fn current_outbox_seq(seq_tbl: Option<i64>, seq_out: i64) -> (r: i64)
    ensures
        r == highest_seq(seq_tbl, seq_out),
{
    let stored: i64 = match seq_tbl {
        Some(stored) => stored,
        None => 0,
    };
    if stored > seq_out {
        stored
    } else {
        seq_out
    }
}

/// The counter value to store so that no number up to `min` is handed out, if one has to be stored.
pub fn floor_outbox_seq(cur: i64, min: i64) -> (r: Option<i64>)
    ensures
        r == (if cur >= min {
            None
        } else {
            Some(min)
        }),
{
    if cur >= min {
        None
    } else {
        Some(min)
    }
}

/// Reserves `n` sequence numbers behind `cur`: the first and the last of them.
pub fn reserve_outbox_seq(cur: i64, n: i64) -> (r: Result<(i64, i64), CaptureError>)
    requires
        cur + n <= i64::MAX,
    ensures
        n > 0 ==> (r matches Ok((first, last)) && first == cur + 1 && last == cur + n),
        n <= 0 ==> (r matches Err(e) && e@ == ErrorView::ReserveCount),
{
    if n <= 0 {
        Err(CaptureError::ReserveCount)
    } else {
        Ok((cur + 1, cur + n))
    }
}

/// The events of snapshotted rows, numbered from `first` on.
pub open spec fn snap_events(
    src_db: Seq<char>,
    tbl: Seq<char>,
    ts: i64,
    first: int,
    rows: Seq<RowSnap>,
) -> Seq<EventView> {
    Seq::new(
        rows.len(),
        |i: int|
            EventView {
                src_db,
                seq: (first + i) as i64,
                tbl,
                op: "I"@,
                ts,
                key: rows[i].key,
                before: None,
                after: Some(rows[i].after),
            },
    )
}

/// The events of snapshotted rows, numbered from `first` on.
pub fn emit_batch(src_db: &str, tbl: &str, ts: i64, first: i64, rows: &Vec<RowSnap>) -> (r: Vec<Event>)
    requires
        rows@.len() <= i64::MAX,
        first + rows@.len() <= i64::MAX + 1,
    ensures
        model::views(r@) == snap_events(src_db@, tbl@, ts, first as int, rows@),
{
    let mut events: Vec<Event> = Vec::new();
    let mut i: usize = 0;
    while i < rows.len()
        invariant
            i <= rows@.len(),
            rows@.len() <= i64::MAX,
            first + rows@.len() <= i64::MAX + 1,
            events@.len() == i,
            forall|j: int|
                0 <= j < i ==> (#[trigger] events@[j])@ == snap_events(src_db@, tbl@, ts, first as int, rows@)[j],
        decreases rows@.len() - i,
    {
        events.push(
            Event {
                src_db: src_db.to_owned(),
                seq: first + i as i64,
                tbl: tbl.to_owned(),
                op: "I".to_owned(),
                ts,
                key: rows[i].key.clone(),
                before: None,
                after: Some(rows[i].after.clone()),
            },
        );
        i = i + 1;
    }
    assert(model::views(events@) =~= snap_events(src_db@, tbl@, ts, first as int, rows@));
    events
}

/// Where the snapshot of a table stands.
#[derive(Debug, Clone, Copy, PartialEq, Eq, Structural)]
pub enum TablePhase {
    /// More rows are wanted.
    Fetch,
    /// Sequence numbers have to be reserved for the rows at hand.
    Reserve,
    /// The counter has to be stored.
    Store,
    /// The events of the rows at hand have to be spooled.
    Spool,
    /// Nothing is left to do.
    Done,
}

/// What the snapshot of a table asks for next.
#[derive(Debug, Clone, Copy, PartialEq, Eq, Structural)]
pub enum TableAction {
    /// Fetch the first `limit` rows behind `after`, or the first of all, in the order of their rowids.
    Page { after: Option<i64>, limit: usize },
    /// Fetch the next row of the one pass over the table.
    Row,
    /// Read the highest sequence number handed out so far.
    ReadSeq,
    /// Store the highest sequence number handed out.
    WriteSeq { seq: i64 },
    /// Write the batch at hand.
    Spool,
    Done,
}

/// The snapshot of one table.
pub struct TableRun {
    src_db: String,
    tbl: String,
    ts: i64,
    streamed: bool,
    phase: TablePhase,
    after_rowid: Option<i64>,
    rows: Vec<RowSnap>,
    last: bool,
    first: i64,
    written: usize,
}

/// The state of the snapshot of one table.
pub struct TableRunView {
    pub src_db: Seq<char>,
    pub tbl: Seq<char>,
    pub ts: i64,
    /// Whether the rows come in one pass, because they have no rowid to page by.
    pub streamed: bool,
    pub phase: TablePhase,
    /// The rowid behind which the next page starts.
    pub after_rowid: Option<i64>,
    /// The rows at hand.
    pub rows: Seq<RowSnap>,
    /// Whether no row follows those at hand.
    pub last: bool,
    /// The first sequence number reserved for them.
    pub first: i64,
    /// How many rows are spooled.
    pub written: nat,
}

impl TableRunView {
    /// A snapshot that has not started.
    pub open spec fn start(src_db: Seq<char>, table: TableView, ts: i64) -> TableRunView {
        TableRunView {
            src_db,
            tbl: table.name,
            ts,
            streamed: table.without_rowid,
            phase: TablePhase::Fetch,
            after_rowid: None,
            rows: seq![],
            last: false,
            first: 0,
            written: 0,
        }
    }

    /// Whether there are rows to work on, and numbers for them, in the phases that need them.
    pub open spec fn well_formed(self) -> bool {
        &&& self.phase == TablePhase::Reserve || self.phase == TablePhase::Store || self.phase == TablePhase::Spool
            ==> self.rows.len() > 0
        &&& self.phase == TablePhase::Store || self.phase == TablePhase::Spool ==> self.rows.len() <= i64::MAX
            && self.first + self.rows.len() <= i64::MAX + 1
        &&& self.phase == TablePhase::Fetch && !self.streamed ==> self.rows.len() == 0
    }

    /// A page came: an empty one ends the snapshot, and one that is not full is the last.
    pub open spec fn paged(self, page: Seq<RowSnap>) -> TableRunView {
        if page.len() == 0 {
            TableRunView { phase: TablePhase::Done, ..self }
        } else {
            TableRunView {
                phase: TablePhase::Reserve,
                after_rowid: Some(page.last().rowid),
                rows: page,
                last: page.len() < JSONL_BATCH,
                ..self
            }
        }
    }

    /// A row of the one pass came. A full batch is spooled before the next.
    pub open spec fn row(self, row: RowSnap) -> TableRunView {
        TableRunView {
            phase: if self.rows.len() + 1 >= JSONL_BATCH {
                TablePhase::Reserve
            } else {
                TablePhase::Fetch
            },
            rows: self.rows.push(row),
            ..self
        }
    }

    /// The one pass is over.
    pub open spec fn rows_end(self) -> TableRunView {
        TableRunView {
            phase: if self.rows.len() == 0 {
                TablePhase::Done
            } else {
                TablePhase::Reserve
            },
            last: true,
            ..self
        }
    }

    /// The highest sequence number was read: the rows at hand get the next ones.
    pub open spec fn seq_read(self, cur: i64) -> TableRunView {
        TableRunView { phase: TablePhase::Store, first: (cur + 1) as i64, ..self }
    }

    /// The counter was stored.
    pub open spec fn seq_written(self) -> TableRunView {
        TableRunView { phase: TablePhase::Spool, ..self }
    }

    /// The batch at hand was spooled.
    pub open spec fn spooled(self) -> TableRunView {
        TableRunView {
            phase: if self.last {
                TablePhase::Done
            } else {
                TablePhase::Fetch
            },
            rows: seq![],
            written: self.written + self.rows.len(),
            ..self
        }
    }

    /// The batch at hand.
    pub open spec fn batch(self) -> Seq<EventView> {
        snap_events(self.src_db, self.tbl, self.ts, self.first as int, self.rows)
    }

    /// What the snapshot asks for next.
    pub open spec fn action(self) -> TableAction {
        match self.phase {
            TablePhase::Fetch => if self.streamed {
                TableAction::Row
            } else {
                TableAction::Page { after: self.after_rowid, limit: JSONL_BATCH }
            },
            TablePhase::Reserve => TableAction::ReadSeq,
            TablePhase::Store => TableAction::WriteSeq { seq: (self.first + self.rows.len() - 1) as i64 },
            TablePhase::Spool => TableAction::Spool,
            TablePhase::Done => TableAction::Done,
        }
    }
}

impl View for TableRun {
    type V = TableRunView;

    closed spec fn view(&self) -> TableRunView {
        TableRunView {
            src_db: self.src_db@,
            tbl: self.tbl@,
            ts: self.ts,
            streamed: self.streamed,
            phase: self.phase,
            after_rowid: self.after_rowid,
            rows: self.rows@,
            last: self.last,
            first: self.first,
            written: self.written as nat,
        }
    }
}

impl TableRun {
    /// The snapshot of a table, its events stamped with `ts`.
    pub fn new(src_db: &str, table: &CapturedTable, ts: i64) -> (r: TableRun)
        ensures
            r@ == TableRunView::start(src_db@, table@, ts),
            r@.well_formed(),
    {
        let r = TableRun {
            src_db: src_db.to_owned(),
            tbl: table.name.clone(),
            ts,
            streamed: table.without_rowid,
            phase: TablePhase::Fetch,
            after_rowid: None,
            rows: Vec::new(),
            last: false,
            first: 0,
            written: 0,
        };
        assert(r@.rows =~= seq![]);
        r
    }

    /// What the snapshot asks for next.
    pub fn action(&self) -> (r: TableAction)
        requires
            self@.well_formed(),
        ensures
            r == self@.action(),
    {
        match self.phase {
            TablePhase::Fetch => if self.streamed {
                TableAction::Row
            } else {
                TableAction::Page { after: self.after_rowid, limit: JSONL_BATCH }
            },
            TablePhase::Reserve => TableAction::ReadSeq,
            TablePhase::Store => TableAction::WriteSeq { seq: self.first + (self.rows.len() as i64 - 1) },
            TablePhase::Spool => TableAction::Spool,
            TablePhase::Done => TableAction::Done,
        }
    }

    /// Takes in a fetched page.
    pub fn paged(&mut self, page: Vec<RowSnap>)
        requires
            old(self)@.well_formed(),
            old(self)@.phase == TablePhase::Fetch,
            !old(self)@.streamed,
        ensures
            final(self)@.well_formed(),
            final(self)@ == old(self)@.paged(page@),
    {
        if page.len() == 0 {
            self.phase = TablePhase::Done;
        } else {
            self.phase = TablePhase::Reserve;
            self.after_rowid = Some(page[page.len() - 1].rowid);
            self.last = page.len() < JSONL_BATCH;
            self.rows = page;
        }
    }

    /// Takes in a row of the one pass.
    pub fn row(&mut self, row: RowSnap)
        requires
            old(self)@.well_formed(),
            old(self)@.phase == TablePhase::Fetch,
            old(self)@.streamed,
        ensures
            final(self)@.well_formed(),
            final(self)@ == old(self)@.row(row),
    {
        self.rows.push(row);
        if self.rows.len() >= JSONL_BATCH {
            self.phase = TablePhase::Reserve;
        }
    }

    /// The one pass is over.
    pub fn rows_end(&mut self)
        requires
            old(self)@.well_formed(),
            old(self)@.phase == TablePhase::Fetch,
            old(self)@.streamed,
        ensures
            final(self)@.well_formed(),
            final(self)@ == old(self)@.rows_end(),
    {
        self.last = true;
        self.phase = if self.rows.len() == 0 {
            TablePhase::Done
        } else {
            TablePhase::Reserve
        };
    }

    /// Takes in the highest sequence number handed out so far.
    pub fn seq_read(&mut self, cur: i64)
        requires
            old(self)@.well_formed(),
            old(self)@.phase == TablePhase::Reserve,
            old(self)@.rows.len() <= i64::MAX,
            cur + old(self)@.rows.len() <= i64::MAX,
        ensures
            final(self)@.well_formed(),
            final(self)@ == old(self)@.seq_read(cur),
    {
        if let Ok((first, _)) = reserve_outbox_seq(cur, self.rows.len() as i64) {
            self.first = first;
            self.phase = TablePhase::Store;
        }
    }

    /// The counter was stored.
    pub fn seq_written(&mut self)
        requires
            old(self)@.well_formed(),
            old(self)@.phase == TablePhase::Store,
        ensures
            final(self)@.well_formed(),
            final(self)@ == old(self)@.seq_written(),
    {
        self.phase = TablePhase::Spool;
    }

    /// The batch at hand.
    pub fn batch(&self) -> (r: Vec<Event>)
        requires
            self@.well_formed(),
            self@.phase == TablePhase::Spool,
        ensures
            model::views(r@) == self@.batch(),
    {
        emit_batch(self.src_db.as_str(), self.tbl.as_str(), self.ts, self.first, &self.rows)
    }

    /// How many rows are at hand.
    pub fn pending(&self) -> (r: usize)
        ensures
            r == self@.rows.len(),
    {
        self.rows.len()
    }

    /// The batch at hand was spooled.
    pub fn spooled(&mut self)
        requires
            old(self)@.well_formed(),
            old(self)@.phase == TablePhase::Spool,
            old(self)@.written + old(self)@.rows.len() <= usize::MAX,
        ensures
            final(self)@.well_formed(),
            final(self)@ == old(self)@.spooled(),
    {
        self.written = self.written + self.rows.len();
        self.rows = Vec::new();
        self.phase = if self.last {
            TablePhase::Done
        } else {
            TablePhase::Fetch
        };
        assert(self@.rows =~= seq![]);
    }

    /// How many rows were spooled.
    pub fn written(&self) -> (r: usize)
        ensures
            r == self@.written,
    {
        self.written
    }
}

/// How the snapshot of a table ends: its last state, the counter, and the batches it wrote.
pub struct TableEnd {
    pub state: TableRunView,
    pub counter: int,
    pub batches: Seq<Seq<EventView>>,
}

/// Whether rows stand in the order of their rowids, no two of them with the same one.
pub open spec fn by_rowid(rows: Seq<RowSnap>) -> bool {
    forall|i: int, j: int| #![trigger rows[i], rows[j]] 0 <= i < j < rows.len() ==> rows[i].rowid < rows[j].rowid
}

/// Whether a row comes behind a rowid; every row does where there is none.
pub open spec fn is_behind(after: Option<i64>) -> spec_fn(RowSnap) -> bool {
    |r: RowSnap|
        match after {
            None => true,
            Some(rowid) => r.rowid > rowid,
        }
}

/// The rows of a table behind a rowid, or all of them.
pub open spec fn rows_behind(rows: Seq<RowSnap>, after: Option<i64>) -> Seq<RowSnap> {
    rows.filter(is_behind(after))
}

/// What a fetch gives of a table that holds `rows`.
pub open spec fn rows_page(rows: Seq<RowSnap>, after: Option<i64>, limit: nat) -> Seq<RowSnap> {
    let behind = rows_behind(rows, after);
    behind.take(if behind.len() < limit { behind.len() as int } else { limit as int })
}

/// How the snapshot of a table that holds `rows` goes on page by page, with `batches` already
/// written: it does what the snapshot asks for until the snapshot is done.
pub open spec fn paged_run(state: TableRunView, rows: Seq<RowSnap>, counter: int, batches: Seq<Seq<EventView>>) -> TableEnd
    decreases rows_behind(rows, state.after_rowid).len(),
{
    let here = TableEnd { state, counter, batches };
    match state.action() {
        TableAction::Page { after, limit } => {
            let page = state.paged(rows_page(rows, after, limit as nat));
            if page.phase == TablePhase::Done {
                TableEnd { state: page, ..here }
            } else {
                let ready = page.seq_read(counter as i64).seq_written();
                let next = ready.spooled();
                if rows_behind(rows, next.after_rowid).len() < rows_behind(rows, state.after_rowid).len() {
                    paged_run(next, rows, counter + ready.rows.len(), batches.push(ready.batch()))
                } else {
                    here
                }
            }
        },
        _ => here,
    }
}

/// How the snapshot of a table that holds `rows` goes on in one pass, with the first `at` rows taken
/// in and `batches` already written: it does what the snapshot asks for until the snapshot is done.
pub open spec fn streamed_run(
    state: TableRunView,
    rows: Seq<RowSnap>,
    at: nat,
    counter: int,
    batches: Seq<Seq<EventView>>,
) -> TableEnd
    decreases rows.len() - at,
{
    let here = TableEnd { state, counter, batches };
    if state.action() != TableAction::Row || at > rows.len() {
        here
    } else {
        let taken = if at < rows.len() {
            state.row(rows[at as int])
        } else {
            state.rows_end()
        };
        if taken.phase == TablePhase::Reserve {
            let ready = taken.seq_read(counter as i64).seq_written();
            let next = ready.spooled();
            let written = batches.push(ready.batch());
            if at < rows.len() {
                streamed_run(next, rows, at + 1, counter + ready.rows.len(), written)
            } else {
                TableEnd { state: next, counter: counter + ready.rows.len(), batches: written }
            }
        } else if at < rows.len() {
            streamed_run(taken, rows, at + 1, counter, batches)
        } else {
            TableEnd { state: taken, ..here }
        }
    }
}

/// How the snapshot of a table that holds `rows` runs, with `counter` the highest sequence number
/// handed out before.
pub open spec fn table_run(
    src_db: Seq<char>,
    table: TableView,
    ts: i64,
    rows: Seq<RowSnap>,
    counter: int,
) -> TableEnd {
    let start = TableRunView::start(src_db, table, ts);
    if table.without_rowid {
        streamed_run(start, rows, 0, counter, seq![])
    } else {
        paged_run(start, rows, counter, seq![])
    }
}

proof fn lemma_snap_events_concat(
    src_db: Seq<char>,
    tbl: Seq<char>,
    ts: i64,
    first: int,
    a: Seq<RowSnap>,
    b: Seq<RowSnap>,
)
    ensures
        snap_events(src_db, tbl, ts, first, a + b) == snap_events(src_db, tbl, ts, first, a) + snap_events(
            src_db,
            tbl,
            ts,
            first + a.len(),
            b,
        ),
{
    let whole = snap_events(src_db, tbl, ts, first, a + b);
    let parts = snap_events(src_db, tbl, ts, first, a) + snap_events(src_db, tbl, ts, first + a.len(), b);
    assert forall|i: int| 0 <= i < whole.len() implies whole[i] == parts[i] by {
        if i < a.len() {
            assert((a + b)[i] == a[i]);
        } else {
            assert((a + b)[i] == b[i - a.len()]);
        }
    }
    assert(whole =~= parts);
}

proof fn lemma_rows_behind(rows: Seq<RowSnap>, n: int)
    requires
        by_rowid(rows),
        0 <= n <= rows.len(),
    ensures
        n == 0 ==> rows_behind(rows, None) == rows,
        n > 0 ==> rows_behind(rows, Some(rows[n - 1].rowid)) == rows.skip(n),
{
    if n == 0 {
        model::lemma_filter_suffix(rows, is_behind(None), 0);
        assert(rows.skip(0) =~= rows);
    } else {
        let last = rows[n - 1].rowid;
        assert forall|i: int| 0 <= i < n implies !((#[trigger] rows[i]).rowid > last) by {
            if i < n - 1 {
                assert(rows[i].rowid < rows[n - 1].rowid);
            }
        }
        assert forall|i: int| n <= i < rows.len() implies (#[trigger] rows[i]).rowid > last by {
            assert(rows[n - 1].rowid < rows[i].rowid);
        }
        model::lemma_filter_suffix(rows, is_behind(Some(last)), n);
    }
}

/// What holds of a snapshot whose batches cover the first `n` rows, numbered behind `counter`.
spec fn covered(
    state: TableRunView,
    rows: Seq<RowSnap>,
    n: int,
    counter: int,
    batches: Seq<Seq<EventView>>,
) -> bool {
    &&& 0 <= n <= rows.len()
    &&& state.written == n
    &&& batches.flatten() == snap_events(state.src_db, state.tbl, state.ts, counter + 1, rows.take(n))
    &&& outbox::well_paged(batches)
    &&& state.phase == TablePhase::Fetch || state.phase == TablePhase::Done
    &&& state.phase == TablePhase::Fetch ==> !state.last && forall|i: int|
        0 <= i < batches.len() ==> (#[trigger] batches[i]).len() == JSONL_BATCH
}

/// A batch of the next rows extends what is covered.
proof fn lemma_batch_covered(
    state: TableRunView,
    ready: TableRunView,
    rows: Seq<RowSnap>,
    n: int,
    m: int,
    counter: int,
    batches: Seq<Seq<EventView>>,
)
    requires
        covered(state, rows, n, counter, batches),
        state.phase == TablePhase::Fetch,
        counter + rows.len() <= i64::MAX,
        i64::MIN <= counter,
        n < m <= rows.len(),
        m - n <= JSONL_BATCH,
        !ready.last ==> m - n == JSONL_BATCH,
        ready.src_db == state.src_db,
        ready.tbl == state.tbl,
        ready.ts == state.ts,
        ready.written == state.written,
        ready.rows == rows.subrange(n, m),
        ready.first == counter + n + 1,
    ensures
        covered(ready.spooled(), rows, m, counter, batches.push(ready.batch())),
{
    let grown = batches.push(ready.batch());
    batches.lemma_flatten_push(ready.batch());
    assert(rows.take(m) =~= rows.take(n) + rows.subrange(n, m));
    lemma_snap_events_concat(state.src_db, state.tbl, state.ts, counter + 1, rows.take(n), rows.subrange(n, m));
    assert forall|i: int| 0 <= i < grown.len() implies 0 < (#[trigger] grown[i]).len() <= JSONL_BATCH by {
        if i < batches.len() {
            assert(grown[i] == batches[i]);
        }
    }
    assert forall|i: int| 0 <= i < grown.len() - 1 implies (#[trigger] grown[i]).len() == JSONL_BATCH by {
        assert(grown[i] == batches[i]);
    }
    assert forall|i: int| !ready.last && 0 <= i < grown.len() implies (#[trigger] grown[i]).len() == JSONL_BATCH by {
        if i < batches.len() {
            assert(grown[i] == batches[i]);
        }
    }
}

proof fn lemma_paged_run(
    state: TableRunView,
    rows: Seq<RowSnap>,
    n: int,
    counter: int,
    batches: Seq<Seq<EventView>>,
)
    requires
        by_rowid(rows),
        i64::MIN <= counter,
        counter + rows.len() <= i64::MAX,
        covered(state, rows, n, counter, batches),
        !state.streamed,
        state.phase == TablePhase::Done ==> n == rows.len(),
        state.after_rowid == (if n == 0 {
            None
        } else {
            Some(rows[n - 1].rowid)
        }),
    ensures
        ({
            let end = paged_run(state, rows, counter + n, batches);
            &&& end.state.phase == TablePhase::Done
            &&& end.counter == counter + rows.len()
            &&& end.state.src_db == state.src_db
            &&& end.state.tbl == state.tbl
            &&& end.state.ts == state.ts
            &&& covered(end.state, rows, rows.len() as int, counter, end.batches)
        }),
    decreases rows.len() - n,
{
    if state.phase == TablePhase::Fetch {
        lemma_rows_behind(rows, n);
        let behind = rows_behind(rows, state.after_rowid);
        assert(behind =~= rows.skip(n));
        let k = if behind.len() < JSONL_BATCH {
            behind.len() as int
        } else {
            JSONL_BATCH as int
        };
        let page = rows_page(rows, state.after_rowid, JSONL_BATCH as nat);
        assert(page =~= rows.subrange(n, n + k));
        if k > 0 {
            let m = n + k;
            let ready = state.paged(page).seq_read((counter + n) as i64).seq_written();
            lemma_batch_covered(state, ready, rows, n, m, counter, batches);
            let next = ready.spooled();
            lemma_rows_behind(rows, m);
            assert(page.last() == rows[m - 1]);
            lemma_paged_run(next, rows, m, counter, batches.push(ready.batch()));
            assert(paged_run(state, rows, counter + n, batches) == paged_run(
                next,
                rows,
                counter + m,
                batches.push(ready.batch()),
            ));
        }
    }
}

proof fn lemma_streamed_run(
    state: TableRunView,
    rows: Seq<RowSnap>,
    n: int,
    at: nat,
    counter: int,
    batches: Seq<Seq<EventView>>,
)
    requires
        i64::MIN <= counter,
        counter + rows.len() <= i64::MAX,
        covered(state, rows, n, counter, batches),
        state.streamed,
        state.phase == TablePhase::Fetch,
        n <= at <= rows.len(),
        at - n < JSONL_BATCH,
        state.rows == rows.subrange(n, at as int),
    ensures
        ({
            let end = streamed_run(state, rows, at, counter + n, batches);
            &&& end.state.phase == TablePhase::Done
            &&& end.counter == counter + rows.len()
            &&& end.state.src_db == state.src_db
            &&& end.state.tbl == state.tbl
            &&& end.state.ts == state.ts
            &&& covered(end.state, rows, rows.len() as int, counter, end.batches)
        }),
    decreases rows.len() - at,
{
    let taken = if at < rows.len() {
        state.row(rows[at as int])
    } else {
        state.rows_end()
    };
    let m: int = if at < rows.len() {
        at as int + 1
    } else {
        at as int
    };
    assert(taken.rows =~= rows.subrange(n, m));
    if taken.phase == TablePhase::Reserve {
        let ready = taken.seq_read((counter + n) as i64).seq_written();
        lemma_batch_covered(state, ready, rows, n, m, counter, batches);
        if at < rows.len() {
            assert(ready.spooled().rows =~= rows.subrange(m, m));
            lemma_streamed_run(ready.spooled(), rows, m, m as nat, counter, batches.push(ready.batch()));
        }
    } else if at < rows.len() {
        lemma_streamed_run(taken, rows, n, m as nat, counter, batches);
    }
}

/// The snapshot of a table emits one insertion for every row, in the order of the table, and no
/// other event. The events are numbered without a gap behind the highest number handed out before,
/// and the counter ends at the last of them, so that no later number collides. All batches but the
/// last are full, and the count is the number of rows.
pub proof fn snapshot_covers_the_table(
    src_db: Seq<char>,
    table: TableView,
    ts: i64,
    rows: Seq<RowSnap>,
    counter: int,
)
    requires
        !table.without_rowid ==> by_rowid(rows),
        i64::MIN <= counter,
        counter + rows.len() <= i64::MAX,
    ensures
        ({
            let end = table_run(src_db, table, ts, rows, counter);
            &&& end.state.phase == TablePhase::Done
            &&& end.batches.flatten() == snap_events(src_db, table.name, ts, counter + 1, rows)
            &&& end.counter == counter + rows.len()
            &&& end.state.written == rows.len()
            &&& outbox::well_paged(end.batches)
        }),
{
    let start = TableRunView::start(src_db, table, ts);
    let none = Seq::<Seq<EventView>>::empty();
    assert(none.flatten() =~= Seq::<EventView>::empty());
    assert(snap_events(src_db, table.name, ts, counter + 1, rows.take(0)) =~= Seq::<EventView>::empty());
    if table.without_rowid {
        assert(start.rows =~= rows.subrange(0, 0));
        lemma_streamed_run(start, rows, 0, 0, counter, none);
    } else {
        lemma_paged_run(start, rows, 0, counter, none);
    }
    assert(rows.take(rows.len() as int) =~= rows);
}

/// The highest number handed out is the stored counter or the highest number in the `_outbox`, and
/// neither is above it. A counter that is not stored counts as zero.
pub proof fn the_highest_number_is_the_higher_one(stored: i64, seq_out: i64)
    ensures
        highest_seq(Some(stored), seq_out) >= stored,
        highest_seq(Some(stored), seq_out) >= seq_out,
        highest_seq(Some(stored), seq_out) == stored || highest_seq(Some(stored), seq_out) == seq_out,
        highest_seq(None, seq_out) == highest_seq(Some(0), seq_out),
{
}

/// Every row of a snapshot becomes one insertion: of the database and table at hand, with the key and
/// payload of the row and nothing from before, stamped with the time, and numbered by its place.
pub proof fn each_row_becomes_an_insertion(
    src_db: Seq<char>,
    tbl: Seq<char>,
    ts: i64,
    first: int,
    rows: Seq<RowSnap>,
    i: int,
)
    requires
        0 <= i < rows.len(),
        i64::MIN <= first,
        first + rows.len() <= i64::MAX + 1,
    ensures
        snap_events(src_db, tbl, ts, first, rows).len() == rows.len(),
        ({
            let e = snap_events(src_db, tbl, ts, first, rows)[i];
            &&& e.src_db == src_db
            &&& e.tbl == tbl
            &&& e.op == "I"@
            &&& e.ts == ts
            &&& e.seq == first + i
            &&& e.key == rows[i].key
            &&& e.before is None
            &&& e.after == Some(rows[i].after)
        }),
{
}

/// Whether two states are of the snapshot of the same table.
pub open spec fn same_table(a: TableRunView, b: TableRunView) -> bool {
    a.src_db == b.src_db && a.tbl == b.tbl && a.ts == b.ts && a.streamed == b.streamed
}

/// The snapshot of a table starts with its first rows: a page of five thousand, or the first row of the
/// one pass where rows have no rowid.
pub proof fn a_table_starts_with_its_first_rows(src_db: Seq<char>, table: TableView, ts: i64)
    ensures
        ({
            let start = TableRunView::start(src_db, table, ts);
            &&& start.src_db == src_db && start.tbl == table.name && start.ts == ts
            &&& start.streamed == table.without_rowid
            &&& start.rows.len() == 0 && start.written == 0 && !start.last
            &&& start.action() == (if table.without_rowid {
                TableAction::Row
            } else {
                TableAction::Page { after: None, limit: 5_000 }
            })
        }),
{
}

/// An empty page ends the snapshot of a table. Any other is at hand whole; the next starts behind its last
/// row, and there is none where it is not full.
pub proof fn a_page_is_taken_whole(state: TableRunView, page: Seq<RowSnap>)
    ensures
        ({
            let next = state.paged(page);
            &&& same_table(next, state) && next.written == state.written
            &&& page.len() == 0 ==> next.action() == TableAction::Done
            &&& page.len() > 0 ==> {
                &&& next.action() == TableAction::ReadSeq
                &&& next.rows == page
                &&& next.after_rowid == Some(page[page.len() - 1].rowid)
                &&& next.last <==> page.len() < 5_000
            }
        }),
{
}

/// A row of the one pass joins those at hand, which get their numbers once they are five thousand or the
/// pass is over; without rows at hand the end of the pass ends the snapshot.
pub proof fn rows_of_one_pass_are_gathered(state: TableRunView, row: RowSnap)
    requires
        state.streamed,
    ensures
        ({
            let next = state.row(row);
            &&& same_table(next, state) && next.written == state.written && next.last == state.last
            &&& next.rows == state.rows.push(row)
            &&& next.action() == (if state.rows.len() + 1 >= 5_000 {
                TableAction::ReadSeq
            } else {
                TableAction::Row
            })
        }),
        ({
            let end = state.rows_end();
            &&& same_table(end, state) && end.written == state.written && end.last
            &&& end.rows == state.rows
            &&& end.action() == (if state.rows.len() == 0 {
                TableAction::Done
            } else {
                TableAction::ReadSeq
            })
        }),
{
}

/// The rows at hand get the numbers behind the highest one handed out. The last of them is stored before
/// the batch is spooled, and the batch is the rows at hand under those numbers.
pub proof fn numbers_are_stored_before_the_batch_is_spooled(state: TableRunView, cur: i64)
    requires
        state.rows.len() > 0,
        cur + state.rows.len() <= i64::MAX,
    ensures
        ({
            let read = state.seq_read(cur);
            let ready = read.seq_written();
            &&& same_table(read, state) && read.rows == state.rows && read.written == state.written
            &&& read.after_rowid == state.after_rowid && read.last == state.last
            &&& read.first == cur + 1
            &&& read.action() == (TableAction::WriteSeq { seq: (cur + state.rows.len()) as i64 })
            &&& same_table(ready, state) && ready.rows == state.rows && ready.written == state.written
            &&& ready.after_rowid == state.after_rowid && ready.last == state.last
            &&& ready.action() == TableAction::Spool
            &&& ready.batch() == snap_events(state.src_db, state.tbl, state.ts, cur + 1, state.rows)
        }),
{
}

/// Rows that were spooled are counted and no longer at hand. Behind the last of them the snapshot ends;
/// else it fetches on where it stands.
pub proof fn spooled_rows_are_counted(state: TableRunView)
    ensures
        ({
            let next = state.spooled();
            &&& same_table(next, state) && next.after_rowid == state.after_rowid && next.last == state.last
            &&& next.rows.len() == 0
            &&& next.written == state.written + state.rows.len()
            &&& next.action() == (if state.last {
                TableAction::Done
            } else if state.streamed {
                TableAction::Row
            } else {
                TableAction::Page { after: state.after_rowid, limit: 5_000 }
            })
        }),
{
}

} // verus!
