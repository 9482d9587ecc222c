//! Draining the `_outbox` of one database: page by page into closed batches, each page deleted only
//! once its batch is spooled.

use vstd::prelude::*;

use crate::collect::{DrainStats, DrainStatsView};
use crate::error;
use crate::error::{CaptureError, ErrorView, JsonField};
use crate::event::{Event, EventView};
use crate::json;
use crate::json::{complaint_text, parse_json};
use crate::model;
use crate::spool::JSONL_BATCH;

verus! {

/// A row of the `_outbox`, its JSON columns as text.
#[derive(Debug, Clone, PartialEq, Eq)]
pub struct OutboxRow {
    pub seq: i64,
    pub tbl: String,
    pub op: String,
    pub ts: i64,
    pub key: String,
    pub before: Option<String>,
    pub after: Option<String>,
}

/// A row of the `_outbox`, with its texts as character sequences.
pub struct OutboxRowView {
    pub seq: i64,
    pub tbl: Seq<char>,
    pub op: Seq<char>,
    pub ts: i64,
    pub key: Seq<char>,
    pub before: Option<Seq<char>>,
    pub after: Option<Seq<char>>,
}

impl View for OutboxRow {
    type V = OutboxRowView;

    open spec fn view(&self) -> OutboxRowView {
        OutboxRowView {
            seq: self.seq,
            tbl: self.tbl@,
            op: self.op@,
            ts: self.ts,
            key: self.key@,
            before: model::option_view(self.before),
            after: model::option_view(self.after),
        }
    }
}

/// The value of a JSON column, by what parsing its text gave.
pub open spec fn json_or_refusal(
    seq: i64,
    field: JsonField,
    parsed: Result<serde_json::Value, serde_json::Error>,
) -> Result<serde_json::Value, ErrorView> {
    match parsed {
        Ok(v) => Ok(v),
        Err(e) => Err(ErrorView::NotJson { seq, field, cause: json::complaint(e) }),
    }
}

/// The value of a JSON column that may be NULL, by what parsing its text gave.
pub open spec fn optional_or_refusal(
    seq: i64,
    field: JsonField,
    parsed: Option<Result<serde_json::Value, serde_json::Error>>,
) -> Result<Option<serde_json::Value>, ErrorView> {
    match parsed {
        None => Ok(None),
        Some(parsed) => match json_or_refusal(seq, field, parsed) {
            Ok(v) => Ok(Some(v)),
            Err(e) => Err(e),
        },
    }
}

/// What parsing a JSON column that may be NULL gives.
pub open spec fn optional_parsed(raw: Option<Seq<char>>) -> Option<Result<serde_json::Value, serde_json::Error>> {
    match raw {
        None => None,
        Some(s) => Some(json::parsed_json(s)),
    }
}

/// The event that an `_outbox` row stands for, by the values of its JSON columns. The first of them
/// that was refused refuses the row.
pub open spec fn event_from(
    src_db: Seq<char>,
    row: OutboxRowView,
    key: Result<serde_json::Value, ErrorView>,
    before: Result<Option<serde_json::Value>, ErrorView>,
    after: Result<Option<serde_json::Value>, ErrorView>,
) -> Result<EventView, ErrorView> {
    match (key, before, after) {
        (Err(e), _, _) => Err(e),
        (_, Err(e), _) => Err(e),
        (_, _, Err(e)) => Err(e),
        (Ok(key), Ok(before), Ok(after)) => Ok(
            EventView { src_db, seq: row.seq, tbl: row.tbl, op: row.op, ts: row.ts, key, before, after },
        ),
    }
}

/// The event that an `_outbox` row stands for.
pub open spec fn event_of_row(src_db: Seq<char>, row: OutboxRowView) -> Result<EventView, ErrorView> {
    event_from(
        src_db,
        row,
        json_or_refusal(row.seq, JsonField::Key, json::parsed_json(row.key)),
        optional_or_refusal(row.seq, JsonField::Before, optional_parsed(row.before)),
        optional_or_refusal(row.seq, JsonField::After, optional_parsed(row.after)),
    )
}

/// The events that `_outbox` rows stand for, in their order; the first row that stands for none
/// refuses them all.
pub open spec fn events_of_rows(src_db: Seq<char>, rows: Seq<OutboxRowView>) -> Result<Seq<EventView>, ErrorView>
    decreases rows.len(),
{
    if rows.len() == 0 {
        Ok(seq![])
    } else {
        match event_of_row(src_db, rows[0]) {
            Err(e) => Err(e),
            Ok(first) => match events_of_rows(src_db, rows.drop_first()) {
                Err(e) => Err(e),
                Ok(rest) => Ok(seq![first] + rest),
            },
        }
    }
}

/// The value of a JSON column, by what parsing its text gave.
pub fn parsed_or_refused(
    seq: i64,
    field: JsonField,
    parsed: Result<serde_json::Value, serde_json::Error>,
) -> (r: Result<serde_json::Value, CaptureError>)
    ensures
        error::refusal_view(r) == json_or_refusal(seq, field, parsed),
{
    match parsed {
        Ok(v) => Ok(v),
        Err(e) => Err(CaptureError::NotJson { seq, field, cause: complaint_text(&e) }),
    }
}

/// The value of a JSON column that may not be NULL.
pub fn required_json(seq: i64, field: JsonField, raw: &str) -> (r: Result<serde_json::Value, CaptureError>)
    ensures
        error::refusal_view(r) == json_or_refusal(seq, field, json::parsed_json(raw@)),
{
    parsed_or_refused(seq, field, parse_json(raw))
}

/// The value of a JSON column that may be NULL.
pub fn optional_json(seq: i64, field: JsonField, raw: &Option<String>) -> (r: Result<
    Option<serde_json::Value>,
    CaptureError,
>)
    ensures
        error::refusal_view(r) == optional_or_refusal(seq, field, optional_parsed(model::option_view(*raw))),
{
    match raw {
        None => Ok(None),
        Some(s) => match required_json(seq, field, s.as_str()) {
            Ok(v) => Ok(Some(v)),
            Err(e) => Err(e),
        },
    }
}

/// The event that an `_outbox` row stands for, by the values of its JSON columns.
pub fn assemble_event(
    src_db: &str,
    row: OutboxRow,
    key: Result<serde_json::Value, CaptureError>,
    before: Result<Option<serde_json::Value>, CaptureError>,
    after: Result<Option<serde_json::Value>, CaptureError>,
) -> (r: Result<Event, CaptureError>)
    ensures
        model::result_view(r) == event_from(
            src_db@,
            row@,
            error::refusal_view(key),
            error::refusal_view(before),
            error::refusal_view(after),
        ),
{
    let key = match key {
        Ok(v) => v,
        Err(e) => return Err(e),
    };
    let before = match before {
        Ok(v) => v,
        Err(e) => return Err(e),
    };
    let after = match after {
        Ok(v) => v,
        Err(e) => return Err(e),
    };
    Ok(Event { src_db: src_db.to_owned(), seq: row.seq, tbl: row.tbl, op: row.op, ts: row.ts, key, before, after })
}

/// The event that an `_outbox` row stands for.
pub fn outbox_event(src_db: &str, row: OutboxRow) -> (r: Result<Event, CaptureError>)
    ensures
        model::result_view(r) == event_of_row(src_db@, row@),
{
    let key = required_json(row.seq, JsonField::Key, row.key.as_str());
    let before = optional_json(row.seq, JsonField::Before, &row.before);
    let after = optional_json(row.seq, JsonField::After, &row.after);
    assemble_event(src_db, row, key, before, after)
}

/// The events of rows one to `n` and those of the others make up the events of all.
proof fn lemma_events_concat(src_db: Seq<char>, a: Seq<OutboxRowView>, b: Seq<OutboxRowView>)
    ensures
        events_of_rows(src_db, a + b) == (match events_of_rows(src_db, a) {
            Err(e) => Err::<Seq<EventView>, ErrorView>(e),
            Ok(first) => match events_of_rows(src_db, b) {
                Err(e) => Err(e),
                Ok(rest) => Ok(first + rest),
            },
        }),
    decreases a.len(),
{
    if a.len() == 0 {
        assert(a + b =~= b);
        if let Ok(rest) = events_of_rows(src_db, b) {
            assert(Seq::<EventView>::empty() + rest =~= rest);
        }
    } else {
        assert((a + b).drop_first() =~= a.drop_first() + b);
        lemma_events_concat(src_db, a.drop_first(), b);
        if let Ok(first) = event_of_row(src_db, a[0]) {
            if let Ok(mid) = events_of_rows(src_db, a.drop_first()) {
                if let Ok(rest) = events_of_rows(src_db, b) {
                    assert(seq![first] + (mid + rest) =~= (seq![first] + mid) + rest);
                }
            }
        }
    }
}

/// Each event keeps the sequence number of its row and names its database.
pub proof fn lemma_events_keep_seq(src_db: Seq<char>, rows: Seq<OutboxRowView>)
    requires
        events_of_rows(src_db, rows) is Ok,
    ensures
        events_of_rows(src_db, rows)->Ok_0.len() == rows.len(),
        forall|i: int|
            0 <= i < rows.len() ==> (#[trigger] events_of_rows(src_db, rows)->Ok_0[i]).seq == rows[i].seq
                && events_of_rows(src_db, rows)->Ok_0[i].src_db == src_db,
    decreases rows.len(),
{
    if rows.len() > 0 {
        lemma_events_keep_seq(src_db, rows.drop_first());
    }
}

/// A list of events or a refusal, by their views.
pub open spec fn events_view(r: Result<Vec<Event>, CaptureError>) -> Result<Seq<EventView>, ErrorView> {
    match r {
        Ok(events) => Ok(model::views(events@)),
        Err(e) => Err(e@),
    }
}

/// The events that `_outbox` rows stand for.
pub fn outbox_events(src_db: &str, rows: Vec<OutboxRow>) -> (r: Result<Vec<Event>, CaptureError>)
    ensures
        events_view(r) == events_of_rows(src_db@, model::views(rows@)),
{
    let ghost all = model::views(rows@);
    let mut events: Vec<Event> = Vec::new();
    let ghost mut n: int = 0;
    assert(all.take(0) =~= Seq::<OutboxRowView>::empty());
    assert(model::views(events@) =~= Seq::<EventView>::empty());
    for row in it: rows
        invariant
            it.seq() == rows@,
            n == it.index(),
            all == model::views(rows@),
            events_of_rows(src_db@, all.take(n)) == Ok::<Seq<EventView>, ErrorView>(model::views(events@)),
    {
        let ghost events0 = model::views(events@);
        let ghost view = row@;
        proof {
            reveal_with_fuel(events_of_rows, 2);
            let one = seq![all[n]];
            assert(all[n] == view);
            assert(all.take(n + 1) =~= all.take(n) + one);
            lemma_events_concat(src_db@, all.take(n), one);
            assert(one.drop_first() =~= Seq::<OutboxRowView>::empty());
            assert(all =~= all.take(n + 1) + all.skip(n + 1));
            lemma_events_concat(src_db@, all.take(n + 1), all.skip(n + 1));
            if let Ok(e) = event_of_row(src_db@, view) {
                assert(seq![e] + Seq::<EventView>::empty() =~= seq![e]);
            }
        }
        match outbox_event(src_db, row) {
            Ok(event) => {
                events.push(event);
                assert(model::views(events@) =~= events0 + seq![event@]);
            },
            Err(e) => return Err(e),
        }
        proof {
            n = n + 1;
        }
    }
    assert(all.take(all.len() as int) =~= all);
    Ok(events)
}

/// Where a drain stands.
#[derive(Debug, Clone, Copy, PartialEq, Eq, Structural)]
pub enum DrainPhase {
    /// The next page is wanted.
    Fetch,
    /// The page at hand has to be spooled.
    Spool,
    /// The page at hand is spooled and has to be deleted.
    Prune,
    /// Nothing is left to do.
    Done,
}

/// What a drain asks for next.
#[derive(Debug, Clone, Copy, PartialEq, Eq, Structural)]
pub enum DrainAction {
    /// Fetch the first `limit` rows behind a sequence number, or the first of all, in the order of
    /// their numbers.
    Fetch { after_seq: Option<i64>, limit: usize },
    /// Write the page at hand into a closed batch.
    Spool,
    /// Delete the rows up to and with this sequence number.
    Prune { through: i64 },
    Done,
}

/// The drain of the `_outbox` of one database.
pub struct DrainRun {
    src_db: String,
    phase: DrainPhase,
    page: Vec<Event>,
    rows: usize,
    seq_lo: Option<i64>,
    seq_hi: Option<i64>,
    after_seq: Option<i64>,
}

/// The state of a drain.
pub struct DrainView {
    pub src_db: Seq<char>,
    pub phase: DrainPhase,
    /// The page at hand.
    pub page: Seq<EventView>,
    /// How many rows are spooled and deleted.
    pub rows: nat,
    /// The first and the last sequence number among them.
    pub seq_lo: Option<i64>,
    pub seq_hi: Option<i64>,
    /// The sequence number behind which the next page starts; the first page starts before all.
    pub after_seq: Option<i64>,
}

impl DrainView {
    /// A drain that has not started.
    pub open spec fn start(src_db: Seq<char>) -> DrainView {
        DrainView {
            src_db,
            phase: DrainPhase::Fetch,
            page: seq![],
            rows: 0,
            seq_lo: None,
            seq_hi: None,
            after_seq: None,
        }
    }

    /// Whether there is a page at hand exactly when one has to be spooled or deleted.
    pub open spec fn well_formed(self) -> bool {
        (self.phase == DrainPhase::Spool || self.phase == DrainPhase::Prune) <==> self.page.len() > 0
    }

    /// A page came: an empty one ends the drain.
    pub open spec fn fetched(self, page: Seq<EventView>) -> DrainView {
        DrainView {
            phase: if page.len() == 0 {
                DrainPhase::Done
            } else {
                DrainPhase::Spool
            },
            page,
            ..self
        }
    }

    /// The page at hand was spooled.
    pub open spec fn spooled(self) -> DrainView {
        DrainView { phase: DrainPhase::Prune, ..self }
    }

    /// The rows of the page at hand were deleted. A page that was not full was the last.
    pub open spec fn pruned(self) -> DrainView {
        DrainView {
            phase: if self.page.len() < JSONL_BATCH {
                DrainPhase::Done
            } else {
                DrainPhase::Fetch
            },
            page: seq![],
            rows: self.rows + self.page.len(),
            seq_lo: match self.seq_lo {
                None => Some(self.page[0].seq),
                Some(lo) => Some(lo),
            },
            seq_hi: Some(self.page.last().seq),
            after_seq: Some(self.page.last().seq),
            ..self
        }
    }

    /// What the drain asks for next.
    pub open spec fn action(self) -> DrainAction {
        match self.phase {
            DrainPhase::Fetch => DrainAction::Fetch { after_seq: self.after_seq, limit: JSONL_BATCH },
            DrainPhase::Spool => DrainAction::Spool,
            DrainPhase::Prune => DrainAction::Prune { through: self.page.last().seq },
            DrainPhase::Done => DrainAction::Done,
        }
    }

    /// What the drain reports: nothing where it spooled nothing.
    pub open spec fn stats(self) -> Option<DrainStatsView> {
        if self.rows == 0 {
            None
        } else {
            Some(
                DrainStatsView {
                    src_db: self.src_db,
                    rows: self.rows,
                    seq_lo: self.seq_lo,
                    seq_hi: self.seq_hi,
                },
            )
        }
    }
}

impl View for DrainRun {
    type V = DrainView;

    closed spec fn view(&self) -> DrainView {
        DrainView {
            src_db: self.src_db@,
            phase: self.phase,
            page: model::views(self.page@),
            rows: self.rows as nat,
            seq_lo: self.seq_lo,
            seq_hi: self.seq_hi,
            after_seq: self.after_seq,
        }
    }
}

impl DrainRun {
    /// A drain of the database `src_db`.
    pub fn new(src_db: &str) -> (r: DrainRun)
        ensures
            r@ == DrainView::start(src_db@),
            r@.well_formed(),
    {
        let r = DrainRun {
            src_db: src_db.to_owned(),
            phase: DrainPhase::Fetch,
            page: Vec::new(),
            rows: 0,
            seq_lo: None,
            seq_hi: None,
            after_seq: None,
        };
        assert(r@.page =~= seq![]);
        r
    }

    /// What the drain asks for next.
    pub fn action(&self) -> (r: DrainAction)
        requires
            self@.well_formed(),
        ensures
            r == self@.action(),
    {
        match self.phase {
            DrainPhase::Fetch => DrainAction::Fetch { after_seq: self.after_seq, limit: JSONL_BATCH },
            DrainPhase::Spool => DrainAction::Spool,
            DrainPhase::Prune => {
                assert(self@.page.len() == self.page@.len());
                DrainAction::Prune { through: self.page[self.page.len() - 1].seq }
            },
            DrainPhase::Done => DrainAction::Done,
        }
    }

    /// The page at hand.
    pub fn page(&self) -> (r: &Vec<Event>)
        ensures
            model::views(r@) == self@.page,
    {
        &self.page
    }

    /// How many rows are spooled and deleted.
    pub fn rows(&self) -> (r: usize)
        ensures
            r == self@.rows,
    {
        self.rows
    }

    /// Takes in a fetched page. A row that stands for no event is refused, and the drain stays
    /// where it is.
    pub fn fetched(&mut self, rows: Vec<OutboxRow>) -> (r: Result<(), CaptureError>)
        requires
            old(self)@.well_formed(),
            old(self)@.phase == DrainPhase::Fetch,
        ensures
            final(self)@.well_formed(),
            match events_of_rows(old(self)@.src_db, model::views(rows@)) {
                Ok(page) => r is Ok && final(self)@ == old(self)@.fetched(page),
                Err(refused) => {
                    &&& r matches Err(e)
                    &&& e@ == refused
                    &&& final(self)@ == old(self)@
                },
            },
    {
        match outbox_events(self.src_db.as_str(), rows) {
            Ok(page) => {
                if page.len() == 0 {
                    self.phase = DrainPhase::Done;
                } else {
                    self.phase = DrainPhase::Spool;
                }
                self.page = page;
                Ok(())
            },
            Err(e) => Err(e),
        }
    }

    /// The page at hand was spooled.
    pub fn spooled(&mut self)
        requires
            old(self)@.well_formed(),
            old(self)@.phase == DrainPhase::Spool,
        ensures
            final(self)@.well_formed(),
            final(self)@ == old(self)@.spooled(),
    {
        self.phase = DrainPhase::Prune;
    }

    /// The rows of the page at hand were deleted.
    pub fn pruned(&mut self)
        requires
            old(self)@.well_formed(),
            old(self)@.phase == DrainPhase::Prune,
            old(self)@.rows + old(self)@.page.len() <= usize::MAX,
        ensures
            final(self)@.well_formed(),
            final(self)@ == old(self)@.pruned(),
    {
        assert(self@.page.len() == self.page@.len());
        let n = self.page.len();
        let lo = self.page[0].seq;
        let hi = self.page[n - 1].seq;
        self.rows = self.rows + n;
        if self.seq_lo.is_none() {
            self.seq_lo = Some(lo);
        }
        self.seq_hi = Some(hi);
        self.after_seq = Some(hi);
        self.phase = if n < JSONL_BATCH {
            DrainPhase::Done
        } else {
            DrainPhase::Fetch
        };
        self.page = Vec::new();
        assert(self@.page =~= seq![]);
    }

    /// What was spooled, if anything was.
    pub fn finish(self) -> (r: Option<DrainStats>)
        ensures
            model::option_view(r) == self@.stats(),
    {
        if self.rows == 0 {
            None
        } else {
            Some(DrainStats { src_db: self.src_db, rows: self.rows, seq_lo: self.seq_lo, seq_hi: self.seq_hi })
        }
    }
}

/// Whether rows stand in the order of their sequence numbers, no two of them with the same one.
pub open spec fn by_seq(rows: Seq<OutboxRowView>) -> bool {
    forall|i: int, j: int| #![trigger rows[i], rows[j]] 0 <= i < j < rows.len() ==> rows[i].seq < rows[j].seq
}

/// Whether a row comes behind a sequence number; every row does where there is none.
pub open spec fn is_behind(after_seq: Option<i64>) -> spec_fn(OutboxRowView) -> bool {
    |r: OutboxRowView|
        match after_seq {
            None => true,
            Some(seq) => r.seq > seq,
        }
}

/// What a fetch gives of an `_outbox` that holds `rows`.
pub open spec fn outbox_page(rows: Seq<OutboxRowView>, after_seq: Option<i64>, limit: nat) -> Seq<OutboxRowView> {
    let behind = rows.filter(is_behind(after_seq));
    behind.take(if behind.len() < limit { behind.len() as int } else { limit as int })
}

/// What a deletion up to and with `through` leaves of an `_outbox` that holds `rows`.
pub open spec fn outbox_pruned(rows: Seq<OutboxRowView>, through: i64) -> Seq<OutboxRowView> {
    rows.filter(|r: OutboxRowView| r.seq > through)
}

/// How a drain ends: its last state, what is left in the `_outbox`, and the batches it wrote.
pub struct DrainEnd {
    pub state: DrainView,
    pub left: Seq<OutboxRowView>,
    pub batches: Seq<Seq<EventView>>,
}

/// How a drain goes on from `state` on an `_outbox` that holds `rows`, with `batches` already
/// written: it does what the drain asks for until the drain is done or a page is refused.
pub open spec fn drained(state: DrainView, rows: Seq<OutboxRowView>, batches: Seq<Seq<EventView>>) -> DrainEnd
    decreases rows.len(),
{
    let here = DrainEnd { state, left: rows, batches };
    match state.action() {
        DrainAction::Fetch { after_seq, limit } => match events_of_rows(
            state.src_db,
            outbox_page(rows, after_seq, limit as nat),
        ) {
            Err(_) => here,
            Ok(page) => {
                let next = state.fetched(page);
                if next.phase == DrainPhase::Done {
                    DrainEnd { state: next, ..here }
                } else {
                    let left = outbox_pruned(rows, page.last().seq);
                    if left.len() < rows.len() {
                        drained(next.spooled().pruned(), left, batches.push(page))
                    } else {
                        here
                    }
                }
            },
        },
        _ => here,
    }
}

proof fn lemma_page_is_prefix(rows: Seq<OutboxRowView>, after_seq: Option<i64>, limit: nat)
    requires
        forall|i: int| 0 <= i < rows.len() ==> is_behind(after_seq)(#[trigger] rows[i]),
    ensures
        outbox_page(rows, after_seq, limit) == rows.take(
            if rows.len() < limit { rows.len() as int } else { limit as int },
        ),
{
    model::lemma_filter_suffix(rows, is_behind(after_seq), 0);
    assert(rows.skip(0) =~= rows);
}

proof fn lemma_prune_is_suffix(rows: Seq<OutboxRowView>, n: int)
    requires
        by_seq(rows),
        0 < n <= rows.len(),
    ensures
        outbox_pruned(rows, rows[n - 1].seq) == rows.skip(n),
{
    let through = rows[n - 1].seq;
    assert forall|i: int| 0 <= i < n implies !((#[trigger] rows[i]).seq > through) by {
        if i < n - 1 {
            assert(rows[i].seq < rows[n - 1].seq);
        }
    }
    assert forall|i: int| n <= i < rows.len() implies (#[trigger] rows[i]).seq > through by {
        assert(rows[n - 1].seq < rows[i].seq);
    }
    model::lemma_filter_suffix(rows, |r: OutboxRowView| r.seq > through, n);
}

/// Whether `batches` are what a drain writes: none is empty, none is too long, and all but the last
/// are full.
pub open spec fn well_paged(batches: Seq<Seq<EventView>>) -> bool {
    &&& forall|i: int| 0 <= i < batches.len() ==> 0 < (#[trigger] batches[i]).len() <= JSONL_BATCH
    &&& forall|i: int| 0 <= i < batches.len() - 1 ==> (#[trigger] batches[i]).len() == JSONL_BATCH
}

/// What holds of a drain that has taken the first `n` of the rows that were there.
spec fn taken(state: DrainView, all: Seq<OutboxRowView>, n: int, batches: Seq<Seq<EventView>>) -> bool {
    &&& 0 <= n <= all.len()
    &&& forall|i: int| n <= i < all.len() ==> is_behind(state.after_seq)(#[trigger] all[i])
    &&& state.phase == DrainPhase::Fetch || state.phase == DrainPhase::Done
    &&& state.phase == DrainPhase::Done ==> n == all.len()
    &&& state.rows == n
    &&& n > 0 ==> state.seq_lo == Some(all[0].seq) && state.seq_hi == Some(all[n - 1].seq)
    &&& n == 0 ==> state.seq_lo is None && state.seq_hi is None
    &&& events_of_rows(state.src_db, all.take(n)) == Ok::<Seq<EventView>, ErrorView>(batches.flatten())
    &&& well_paged(batches)
    &&& state.phase == DrainPhase::Fetch ==> forall|i: int|
        0 <= i < batches.len() ==> (#[trigger] batches[i]).len() == JSONL_BATCH
}

/// The size of the next page.
spec fn page_size(all: Seq<OutboxRowView>, n: int) -> int {
    if all.len() - n < JSONL_BATCH {
        all.len() - n
    } else {
        JSONL_BATCH as int
    }
}

proof fn lemma_next_page(state: DrainView, all: Seq<OutboxRowView>, n: int, batches: Seq<Seq<EventView>>)
    requires
        by_seq(all),
        taken(state, all, n, batches),
        state.phase == DrainPhase::Fetch,
    ensures
        outbox_page(all.skip(n), state.after_seq, JSONL_BATCH as nat) == all.subrange(n, n + page_size(all, n)),
        page_size(all, n) > 0 ==> outbox_pruned(all.skip(n), all[n + page_size(all, n) - 1].seq) == all.skip(
            n + page_size(all, n),
        ),
{
    let rows = all.skip(n);
    let k = page_size(all, n);
    assert forall|i: int| 0 <= i < rows.len() implies is_behind(state.after_seq)(#[trigger] rows[i]) by {
        assert(rows[i] == all[n + i]);
    }
    lemma_page_is_prefix(rows, state.after_seq, JSONL_BATCH as nat);
    assert(rows.take(k) =~= all.subrange(n, n + k));
    if k > 0 {
        assert forall|i: int, j: int| #![trigger rows[i], rows[j]] 0 <= i < j < rows.len() implies rows[i].seq
            < rows[j].seq by {
            assert(all[n + i].seq < all[n + j].seq);
        }
        lemma_prune_is_suffix(rows, k);
        assert(rows[k - 1] == all[n + k - 1]);
        assert(rows.skip(k) =~= all.skip(n + k));
    }
}

proof fn lemma_page_taken(
    state: DrainView,
    all: Seq<OutboxRowView>,
    n: int,
    batches: Seq<Seq<EventView>>,
    page: Seq<EventView>,
)
    requires
        by_seq(all),
        taken(state, all, n, batches),
        state.phase == DrainPhase::Fetch,
        page_size(all, n) > 0,
        events_of_rows(state.src_db, all.subrange(n, n + page_size(all, n))) == Ok::<Seq<EventView>, ErrorView>(page),
    ensures
        page.len() == page_size(all, n),
        page.last().seq == all[n + page_size(all, n) - 1].seq,
        taken(state.fetched(page).spooled().pruned(), all, n + page_size(all, n), batches.push(page)),
{
    let k = page_size(all, n);
    let rows = all.subrange(n, n + k);
    let next = state.fetched(page).spooled().pruned();
    let grown = batches.push(page);
    lemma_events_keep_seq(state.src_db, rows);
    assert(page[k - 1].seq == rows[k - 1].seq);
    assert(page[0].seq == rows[0].seq);
    assert(rows[k - 1] == all[n + k - 1]);
    assert(rows[0] == all[n]);
    assert(all.take(n + k) =~= all.take(n) + rows);
    lemma_events_concat(state.src_db, all.take(n), rows);
    batches.lemma_flatten_push(page);
    assert forall|i: int| n + k <= i < all.len() implies is_behind(next.after_seq)(#[trigger] all[i]) by {
        assert(all[n + k - 1].seq < all[i].seq);
    }
    assert forall|i: int| 0 <= i < grown.len() implies 0 < (#[trigger] grown[i]).len() <= JSONL_BATCH by {
        if i < batches.len() {
            assert(grown[i] == batches[i]);
        }
    }
    assert forall|i: int| 0 <= i < grown.len() - 1 implies (#[trigger] grown[i]).len() == JSONL_BATCH by {
        assert(grown[i] == batches[i]);
    }
    assert forall|i: int| next.phase == DrainPhase::Fetch && 0 <= i < grown.len() implies (#[trigger] grown[i]).len()
        == JSONL_BATCH by {
        if i < batches.len() {
            assert(grown[i] == batches[i]);
        }
    }
}

proof fn lemma_drain_from(state: DrainView, all: Seq<OutboxRowView>, n: int, batches: Seq<Seq<EventView>>)
    requires
        by_seq(all),
        taken(state, all, n, batches),
    ensures
        ({
            let end = drained(state, all.skip(n), batches);
            let m = all.len() - end.left.len();
            &&& n <= m <= all.len()
            &&& end.left == all.skip(m)
            &&& end.state.src_db == state.src_db
            &&& taken(end.state, all, m, end.batches)
            &&& events_of_rows(state.src_db, all) is Ok ==> m == all.len() && end.state.phase == DrainPhase::Done
        }),
    decreases all.len() - n,
{
    if state.phase == DrainPhase::Fetch {
        let k = page_size(all, n);
        let rows = all.subrange(n, n + k);
        lemma_next_page(state, all, n, batches);
        assert(all =~= all.take(n) + (rows + all.skip(n + k)));
        lemma_events_concat(state.src_db, all.take(n), rows + all.skip(n + k));
        lemma_events_concat(state.src_db, rows, all.skip(n + k));
        match events_of_rows(state.src_db, rows) {
            Ok(page) => {
                lemma_events_keep_seq(state.src_db, rows);
                if k > 0 {
                    lemma_page_taken(state, all, n, batches, page);
                    let next = state.fetched(page).spooled().pruned();
                    lemma_drain_from(next, all, n + k, batches.push(page));
                    assert(drained(state, all.skip(n), batches) == drained(
                        next,
                        all.skip(n + k),
                        batches.push(page),
                    ));
                }
            },
            Err(_) => {
                assert(drained(state, all.skip(n), batches).left == all.skip(n));
            },
        }
    }
}

/// A drain deletes nothing that it has not spooled, whether it is done or a page is refused: what it
/// leaves in the `_outbox` is the rest behind some row, and its batches hold the events of all rows
/// before, in their order.
pub proof fn drain_loses_nothing(src_db: Seq<char>, rows: Seq<OutboxRowView>)
    requires
        by_seq(rows),
    ensures
        ({
            let end = drained(DrainView::start(src_db), rows, seq![]);
            let n = rows.len() - end.left.len();
            &&& 0 <= n <= rows.len()
            &&& end.left == rows.skip(n)
            &&& events_of_rows(src_db, rows.take(n)) == Ok::<Seq<EventView>, ErrorView>(end.batches.flatten())
            &&& end.state.rows == n
        }),
{
    assert(rows.skip(0) =~= rows);
    assert(rows.take(0) =~= Seq::<OutboxRowView>::empty());
    assert(Seq::<Seq<EventView>>::empty().flatten() =~= Seq::<EventView>::empty());
    lemma_drain_from(DrainView::start(src_db), rows, 0, seq![]);
}

/// A drain of an `_outbox` whose rows all stand for events takes every row: nothing is left, the
/// batches hold the events of all rows in their order, all batches but the last are full, and the
/// report names the number of rows and the first and the last sequence number.
pub proof fn drain_takes_everything(src_db: Seq<char>, rows: Seq<OutboxRowView>)
    requires
        by_seq(rows),
        events_of_rows(src_db, rows) is Ok,
    ensures
        ({
            let end = drained(DrainView::start(src_db), rows, seq![]);
            &&& end.state.phase == DrainPhase::Done
            &&& end.left.len() == 0
            &&& end.batches.flatten() == events_of_rows(src_db, rows)->Ok_0
            &&& well_paged(end.batches)
            &&& end.state.stats() == (if rows.len() == 0 {
                None
            } else {
                Some(
                    DrainStatsView {
                        src_db,
                        rows: rows.len(),
                        seq_lo: Some(rows[0].seq),
                        seq_hi: Some(rows.last().seq),
                    },
                )
            })
        }),
{
    assert(rows.skip(0) =~= rows);
    assert(rows.take(0) =~= Seq::<OutboxRowView>::empty());
    assert(Seq::<Seq<EventView>>::empty().flatten() =~= Seq::<EventView>::empty());
    lemma_drain_from(DrainView::start(src_db), rows, 0, seq![]);
    assert(rows.take(rows.len() as int) =~= rows);
}

/// One step of a drain: what it asks for is done, and it takes in what came of it. A page that is
/// refused, and a drain that is done, leave everything as it is.
pub open spec fn drain_step(at: DrainEnd) -> DrainEnd {
    match at.state.action() {
        DrainAction::Fetch { after_seq, limit } => match events_of_rows(
            at.state.src_db,
            outbox_page(at.left, after_seq, limit as nat),
        ) {
            Ok(page) => DrainEnd { state: at.state.fetched(page), ..at },
            Err(_) => at,
        },
        DrainAction::Spool => DrainEnd {
            state: at.state.spooled(),
            batches: at.batches.push(at.state.page),
            ..at
        },
        DrainAction::Prune { through } => DrainEnd {
            state: at.state.pruned(),
            left: outbox_pruned(at.left, through),
            ..at
        },
        DrainAction::Done => at,
    }
}

/// Where a drain of an `_outbox` that holds `rows` stands after `n` steps.
pub open spec fn drain_steps(src_db: Seq<char>, rows: Seq<OutboxRowView>, n: nat) -> DrainEnd
    decreases n,
{
    if n == 0 {
        DrainEnd { state: DrainView::start(src_db), left: rows, batches: seq![] }
    } else {
        drain_step(drain_steps(src_db, rows, (n - 1) as nat))
    }
}

/// The state of a drain before it fetched the page at hand.
spec fn before_page(state: DrainView) -> DrainView {
    DrainView { phase: DrainPhase::Fetch, page: seq![], ..state }
}

/// What holds of a drain of `all` that has deleted the first `m` rows.
spec fn in_step(at: DrainEnd, all: Seq<OutboxRowView>, m: int) -> bool {
    let k = page_size(all, m);
    &&& 0 <= m <= all.len()
    &&& at.left == all.skip(m)
    &&& match at.state.phase {
        DrainPhase::Fetch | DrainPhase::Done => taken(at.state, all, m, at.batches),
        DrainPhase::Spool => {
            &&& taken(before_page(at.state), all, m, at.batches)
            &&& k > 0
            &&& events_of_rows(at.state.src_db, all.subrange(m, m + k)) == Ok::<Seq<EventView>, ErrorView>(
                at.state.page,
            )
        },
        DrainPhase::Prune => {
            &&& at.batches.len() > 0
            &&& at.batches.last() == at.state.page
            &&& taken(before_page(at.state), all, m, at.batches.drop_last())
            &&& k > 0
            &&& events_of_rows(at.state.src_db, all.subrange(m, m + k)) == Ok::<Seq<EventView>, ErrorView>(
                at.state.page,
            )
        },
    }
}

proof fn lemma_step(at: DrainEnd, all: Seq<OutboxRowView>, m: int) -> (next: int)
    requires
        by_seq(all),
        in_step(at, all, m),
    ensures
        in_step(drain_step(at), all, next),
        drain_step(at).state.src_db == at.state.src_db,
{
    let k = page_size(all, m);
    let state = at.state;
    match state.phase {
        DrainPhase::Fetch => {
            lemma_next_page(state, all, m, at.batches);
            if let Ok(page) = events_of_rows(state.src_db, all.subrange(m, m + k)) {
                lemma_events_keep_seq(state.src_db, all.subrange(m, m + k));
            }
            m
        },
        DrainPhase::Spool => {
            assert(at.batches.push(state.page).drop_last() =~= at.batches);
            m
        },
        DrainPhase::Prune => {
            let prior = at.batches.drop_last();
            let pre = before_page(state);
            lemma_next_page(pre, all, m, prior);
            lemma_page_taken(pre, all, m, prior, state.page);
            assert(prior.push(state.page) =~= at.batches);
            assert(pre.fetched(state.page).spooled() == state);
            m + k
        },
        DrainPhase::Done => m,
    }
}

proof fn lemma_steps(src_db: Seq<char>, rows: Seq<OutboxRowView>, n: nat) -> (m: int)
    requires
        by_seq(rows),
    ensures
        in_step(drain_steps(src_db, rows, n), rows, m),
        drain_steps(src_db, rows, n).state.src_db == src_db,
    decreases n,
{
    if n == 0 {
        assert(rows.skip(0) =~= rows);
        assert(rows.take(0) =~= Seq::<OutboxRowView>::empty());
        assert(Seq::<Seq<EventView>>::empty().flatten() =~= Seq::<EventView>::empty());
        0
    } else {
        let before = (n - 1) as nat;
        let m = lemma_steps(src_db, rows, before);
        lemma_step(drain_steps(src_db, rows, before), rows, m)
    }
}

proof fn lemma_event_of_each_row(src_db: Seq<char>, rows: Seq<OutboxRowView>, i: int)
    requires
        events_of_rows(src_db, rows) is Ok,
        0 <= i < rows.len(),
    ensures
        i < events_of_rows(src_db, rows)->Ok_0.len(),
        event_of_row(src_db, rows[i]) == Ok::<EventView, ErrorView>(events_of_rows(src_db, rows)->Ok_0[i]),
    decreases rows.len(),
{
    if i > 0 {
        lemma_event_of_each_row(src_db, rows.drop_first(), i - 1);
    }
}

/// A drain may stop anywhere, for whatever reason, between any two steps: every row that was in the
/// `_outbox` is then still there, or its event is in a batch that was written.
pub proof fn stopped_drain_loses_nothing(src_db: Seq<char>, rows: Seq<OutboxRowView>, n: nat, i: int)
    requires
        by_seq(rows),
        0 <= i < rows.len(),
    ensures
        ({
            let at = drain_steps(src_db, rows, n);
            ||| at.left.contains(rows[i])
            ||| event_of_row(src_db, rows[i]) matches Ok(event) && at.batches.flatten().contains(event)
        }),
{
    let at = drain_steps(src_db, rows, n);
    let m = lemma_steps(src_db, rows, n);
    if i >= m {
        assert(at.left[i - m] == rows[i]);
    } else {
        let whole = if at.state.phase == DrainPhase::Prune {
            at.batches.drop_last()
        } else {
            at.batches
        };
        assert(events_of_rows(src_db, rows.take(m)) == Ok::<Seq<EventView>, ErrorView>(whole.flatten()));
        lemma_event_of_each_row(src_db, rows.take(m), i);
        assert(rows.take(m)[i] == rows[i]);
        let event = whole.flatten()[i];
        if at.state.phase == DrainPhase::Prune {
            whole.lemma_flatten_push(at.batches.last());
            assert(whole.push(at.batches.last()) =~= at.batches);
            assert(at.batches.flatten()[i] == event);
        }
        assert(at.batches.flatten().contains(event));
    }
}

/// An `_outbox` row that stands for an event is that event field by field: the columns that are no JSON
/// as they are, and each JSON column as the value that its text writes, NULL as none. The database is
/// the one that is drained.
pub proof fn an_event_is_its_row(src_db: Seq<char>, row: OutboxRowView)
    requires
        event_of_row(src_db, row) is Ok,
    ensures
        ({
            let event = event_of_row(src_db, row)->Ok_0;
            &&& event.src_db == src_db
            &&& event.seq == row.seq
            &&& event.tbl == row.tbl
            &&& event.op == row.op
            &&& event.ts == row.ts
            &&& json::parsed_json(row.key) == Ok::<serde_json::Value, serde_json::Error>(event.key)
            &&& row.before is None ==> event.before is None
            &&& row.before matches Some(raw) ==> event.before is Some && json::parsed_json(raw)
                == Ok::<serde_json::Value, serde_json::Error>(event.before->0)
            &&& row.after is None ==> event.after is None
            &&& row.after matches Some(raw) ==> event.after is Some && json::parsed_json(raw)
                == Ok::<serde_json::Value, serde_json::Error>(event.after->0)
        }),
{
}

/// A row stands for an event exactly when each of its JSON columns writes a value or is NULL. Else it is
/// refused for its number and the first of the columns key, before, after that writes none, with the
/// words of the parser about that column.
pub proof fn a_row_is_refused_for_its_json(src_db: Seq<char>, row: OutboxRowView)
    ensures
        ({
            let bad_key = json::parsed_json(row.key) is Err;
            let bad_before = row.before is Some && json::parsed_json(row.before->0) is Err;
            let bad_after = row.after is Some && json::parsed_json(row.after->0) is Err;
            match event_of_row(src_db, row) {
                Ok(_) => !bad_key && !bad_before && !bad_after,
                Err(ErrorView::NotJson { seq, field, cause }) => {
                    &&& seq == row.seq
                    &&& field == JsonField::Key <==> bad_key
                    &&& field == JsonField::Before <==> !bad_key && bad_before
                    &&& field == JsonField::After <==> !bad_key && !bad_before && bad_after
                    &&& field == JsonField::Key ==> cause == json::complaint(json::parsed_json(row.key)->Err_0)
                    &&& field == JsonField::Before ==> cause == json::complaint(
                        json::parsed_json(row.before->0)->Err_0,
                    )
                    &&& field == JsonField::After ==> cause == json::complaint(
                        json::parsed_json(row.after->0)->Err_0,
                    )
                },
                Err(_) => false,
            }
        }),
{
}

/// The events of rows are those of each row, one for one and in order, and they are refused exactly when
/// a row is, as the first such row is.
pub proof fn events_are_their_rows_in_order(src_db: Seq<char>, rows: Seq<OutboxRowView>)
    ensures
        match events_of_rows(src_db, rows) {
            Ok(events) => events.len() == rows.len() && forall|i: int|
                0 <= i < rows.len() ==> event_of_row(src_db, rows[i]) == Ok::<EventView, ErrorView>(#[trigger] events[i]),
            Err(refused) => exists|bad: int|
                {
                    &&& 0 <= bad < rows.len()
                    &&& event_of_row(src_db, #[trigger] rows[bad]) == Err::<EventView, ErrorView>(refused)
                    &&& forall|i: int| 0 <= i < bad ==> event_of_row(src_db, #[trigger] rows[i]) is Ok
                },
        },
    decreases rows.len(),
{
    if rows.len() > 0 {
        let rest = rows.drop_first();
        events_are_their_rows_in_order(src_db, rest);
        match event_of_row(src_db, rows[0]) {
            Err(_) => {},
            Ok(first) => match events_of_rows(src_db, rest) {
                Ok(tail) => {
                    let events = events_of_rows(src_db, rows)->Ok_0;
                    assert forall|i: int| 0 <= i < rows.len() implies event_of_row(src_db, rows[i]) == Ok::<
                        EventView,
                        ErrorView,
                    >(#[trigger] events[i]) by {
                        if i > 0 {
                            assert(events[i] == tail[i - 1]);
                            assert(rows[i] == rest[i - 1]);
                        }
                    }
                },
                Err(refused) => {
                    let bad = choose|bad: int|
                        {
                            &&& 0 <= bad < rest.len()
                            &&& event_of_row(src_db, #[trigger] rest[bad]) == Err::<EventView, ErrorView>(refused)
                            &&& forall|i: int| 0 <= i < bad ==> event_of_row(src_db, #[trigger] rest[i]) is Ok
                        };
                    assert(rows[bad + 1] == rest[bad]);
                    assert forall|i: int| 0 <= i < bad + 1 implies event_of_row(src_db, #[trigger] rows[i]) is Ok by {
                        if i > 0 {
                            assert(rows[i] == rest[i - 1]);
                        }
                    }
                },
            },
        }
    }
}

/// A drain starts with the first five thousand rows. An empty page ends it; any other is spooled as it
/// came, and only then are its rows deleted, up to and with its last one.
pub proof fn a_page_is_deleted_once_it_is_spooled(src_db: Seq<char>, state: DrainView, page: Seq<EventView>)
    ensures
        ({
            let start = DrainView::start(src_db);
            &&& start.src_db == src_db && start.page.len() == 0 && start.rows == 0
            &&& start.seq_lo is None && start.seq_hi is None
            &&& start.action() == (DrainAction::Fetch { after_seq: None, limit: 5_000 })
        }),
        ({
            let next = state.fetched(page);
            let spooled = next.spooled();
            &&& next.src_db == state.src_db && next.rows == state.rows && next.after_seq == state.after_seq
            &&& next.seq_lo == state.seq_lo && next.seq_hi == state.seq_hi
            &&& next.page == page
            &&& page.len() == 0 ==> next.action() == DrainAction::Done
            &&& page.len() > 0 ==> next.action() == DrainAction::Spool
            &&& spooled.src_db == state.src_db && spooled.rows == state.rows && spooled.after_seq == state.after_seq
            &&& spooled.seq_lo == state.seq_lo && spooled.seq_hi == state.seq_hi
            &&& spooled.page == page
            &&& page.len() > 0 ==> spooled.action() == (DrainAction::Prune { through: page[page.len() - 1].seq })
        }),
{
}

/// The rows of a page that was deleted are counted, from the first number of the first page to the last
/// one of the last. A page that was not full ends the drain; behind any other the next starts behind its
/// last row.
pub proof fn deleted_rows_are_counted(state: DrainView)
    requires
        state.page.len() > 0,
    ensures
        ({
            let next = state.pruned();
            let last = state.page[state.page.len() - 1].seq;
            &&& next.src_db == state.src_db
            &&& next.page.len() == 0
            &&& next.rows == state.rows + state.page.len()
            &&& state.seq_lo is None ==> next.seq_lo == Some(state.page[0].seq)
            &&& state.seq_lo is Some ==> next.seq_lo == state.seq_lo
            &&& next.seq_hi == Some(last)
            &&& next.action() == (if state.page.len() < 5_000 {
                DrainAction::Done
            } else {
                DrainAction::Fetch { after_seq: Some(last), limit: 5_000 }
            })
        }),
{
}

/// A drain reports nothing exactly when it took no row, and else its database, how many rows it took, and
/// the first and the last of their numbers.
pub proof fn a_drain_reports_its_rows(state: DrainView)
    ensures
        match state.stats() {
            None => state.rows == 0,
            Some(stats) => {
                &&& state.rows > 0
                &&& stats.src_db == state.src_db
                &&& stats.rows == state.rows
                &&& stats.seq_lo == state.seq_lo
                &&& stats.seq_hi == state.seq_hi
            },
        },
{
}

} // verus!
