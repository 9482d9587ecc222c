//! The tables that events are applied to: the log of events, the live rows and the watermarks.
//!
//! Each operation that an application of events asks for has the effect of one statement of `sql` on
//! tables of the same shape.

use vstd::prelude::*;

use crate::event::{copy_event, Event, EventView};
use crate::json;
use crate::json::compact_text;
use crate::keyed::{Key, Keyed};
use crate::keytext;
use crate::keytext::key_text;
use crate::text::same_text;

verus! {

/// What an event is logged under.
#[derive(Debug)]
pub struct EventKey {
    pub src_db: String,
    pub seq: i64,
}

/// What an event is logged under, with its name as a character sequence.
pub struct EventKeyView {
    pub src_db: Seq<char>,
    pub seq: i64,
}

impl View for EventKey {
    type V = EventKeyView;

    open spec fn view(&self) -> EventKeyView {
        EventKeyView { src_db: self.src_db@, seq: self.seq }
    }
}

impl Key for EventKey {
    fn same(&self, other: &Self) -> (r: bool) {
        self.seq == other.seq && same_text(self.src_db.as_str(), other.src_db.as_str())
    }
}

/// What a live row is found by. The JSON key stands in its compact text, with every number in the one
/// form for its value: neither the order of the names in an object nor white space tells two keys
/// apart, nor the way in which a number is written.
#[derive(Debug)]
pub struct RowKey {
    pub src_db: String,
    pub tbl: String,
    pub key: String,
}

/// What a live row is found by, with its texts as character sequences.
pub struct RowKeyView {
    pub src_db: Seq<char>,
    pub tbl: Seq<char>,
    pub key: Seq<char>,
}

impl View for RowKey {
    type V = RowKeyView;

    open spec fn view(&self) -> RowKeyView {
        RowKeyView { src_db: self.src_db@, tbl: self.tbl@, key: self.key@ }
    }
}

impl Key for RowKey {
    fn same(&self, other: &Self) -> (r: bool) {
        same_text(self.src_db.as_str(), other.src_db.as_str()) && same_text(self.tbl.as_str(), other.tbl.as_str())
            && same_text(self.key.as_str(), other.key.as_str())
    }
}

impl Key for String {
    fn same(&self, other: &Self) -> (r: bool) {
        same_text(self.as_str(), other.as_str())
    }
}

/// A live row: its payload, and the number and time of the event that wrote it.
#[derive(Debug)]
pub struct Live {
    pub after: serde_json::Value,
    pub seq: i64,
    pub ts: i64,
}

impl View for Live {
    type V = Live;

    open spec fn view(&self) -> Live {
        *self
    }
}

/// The log of events, the live rows and the watermarks.
pub struct Tables {
    events: Keyed<EventKey, Event>,
    current: Keyed<RowKey, Live>,
    watermarks: Keyed<String, i64>,
}

/// The log of events, the live rows and the watermarks, each by its keys.
#[verifier::ext_equal]
pub struct TablesView {
    pub events: Map<EventKeyView, EventView>,
    pub current: Map<RowKeyView, Live>,
    pub watermarks: Map<Seq<char>, i64>,
}

/// What an event is logged under.
pub open spec fn event_key(e: EventView) -> EventKeyView {
    EventKeyView { src_db: e.src_db, seq: e.seq }
}

/// The text of a JSON key.
pub open spec fn key_of(key: serde_json::Value) -> Seq<char> {
    keytext::normal_json(json::json_text(key), false)
}

/// The live row that an event is about.
pub open spec fn row_key(e: EventView) -> RowKeyView {
    RowKeyView { src_db: e.src_db, tbl: e.tbl, key: key_of(e.key) }
}

/// Whether an event deletes a row later than `seq`.
pub open spec fn retires(e: EventView, row: RowKeyView, seq: i64) -> bool {
    e.op == "D"@ && row_key(e) == row && e.seq > seq
}

impl TablesView {
    /// Tables without rows.
    pub open spec fn empty() -> TablesView {
        TablesView { events: Map::empty(), current: Map::empty(), watermarks: Map::empty() }
    }

    /// Whether the log holds a deletion of a row later than `seq`.
    pub open spec fn retired(self, row: RowKeyView, seq: i64) -> bool {
        exists|k: EventKeyView| #[trigger] self.events.contains_key(k) && retires(self.events[k], row, seq)
    }

    /// Whether an event is logged.
    pub open spec fn logs(self, e: EventView) -> bool {
        self.events.contains_key(event_key(e))
    }

    /// An event is logged unless its number is taken.
    pub open spec fn with_event(self, e: EventView) -> TablesView {
        if self.logs(e) {
            self
        } else {
            TablesView { events: self.events.insert(event_key(e), e), ..self }
        }
    }

    /// The row of an event is taken away.
    pub open spec fn without_row(self, e: EventView) -> TablesView {
        TablesView { current: self.current.remove(row_key(e)), ..self }
    }

    /// The row of an event is written, unless a later deletion is logged or the row is as new.
    pub open spec fn with_row(self, e: EventView, after: serde_json::Value) -> TablesView {
        let row = row_key(e);
        if self.retired(row, e.seq) || (self.current.contains_key(row) && self.current[row].seq >= e.seq) {
            self
        } else {
            TablesView { current: self.current.insert(row, Live { after, seq: e.seq, ts: e.ts }), ..self }
        }
    }

    /// The watermark of a database is raised to `seq` where it is lower.
    pub open spec fn with_watermark(self, src_db: Seq<char>, seq: i64) -> TablesView {
        let last = if self.watermarks.contains_key(src_db) && self.watermarks[src_db] >= seq {
            self.watermarks[src_db]
        } else {
            seq
        };
        TablesView { watermarks: self.watermarks.insert(src_db, last), ..self }
    }

    /// Whether a live row sits under a later deletion in the log.
    pub open spec fn stale(self, row: RowKeyView) -> bool {
        self.current.contains_key(row) && self.retired(row, self.current[row].seq)
    }

    /// The live rows of a database that sit under a later deletion are taken away.
    pub open spec fn without_stale(self, src_db: Seq<char>) -> TablesView {
        TablesView {
            current: Map::new(
                |row: RowKeyView| self.current.contains_key(row) && !(row.src_db == src_db && self.stale(row)),
                |row: RowKeyView| self.current[row],
            ),
            ..self
        }
    }
}

impl View for Tables {
    type V = TablesView;

    closed spec fn view(&self) -> TablesView {
        TablesView { events: self.events@, current: self.current@, watermarks: self.watermarks@ }
    }
}

/// The live row that an event is about.
fn row_key_of(e: &Event) -> (r: RowKey)
    ensures
        r@ == row_key(e@),
{
    RowKey { src_db: e.src_db.clone(), tbl: e.tbl.clone(), key: key_text(compact_text(&e.key).as_str()) }
}

impl Tables {
    /// Whether every table has at most one row for a key.
    pub closed spec fn well_formed(&self) -> bool {
        self.events.well_formed() && self.current.well_formed() && self.watermarks.well_formed()
    }

    /// Tables without rows.
    pub fn new() -> (r: Tables)
        ensures
            r.well_formed(),
            r@ == TablesView::empty(),
    {
        Tables { events: Keyed::new(), current: Keyed::new(), watermarks: Keyed::new() }
    }

    /// The logged event of a database with a number.
    pub fn event(&self, src_db: &str, seq: i64) -> (r: Option<&Event>)
        requires
            self.well_formed(),
        ensures
            match r {
                Some(e) => {
                    let k = EventKeyView { src_db: src_db@, seq };
                    self@.events.contains_key(k) && e@ == self@.events[k]
                },
                None => !self@.events.contains_key((EventKeyView { src_db: src_db@, seq })),
            },
    {
        self.events.get(&EventKey { src_db: src_db.to_owned(), seq })
    }

    /// The live row of a table with a key.
    pub fn live(&self, src_db: &str, tbl: &str, key: &serde_json::Value) -> (r: Option<&Live>)
        requires
            self.well_formed(),
        ensures
            match r {
                Some(live) => {
                    let row = RowKeyView { src_db: src_db@, tbl: tbl@, key: key_of(*key) };
                    self@.current.contains_key(row) && *live == self@.current[row]
                },
                None => !self@.current.contains_key(
                    (RowKeyView { src_db: src_db@, tbl: tbl@, key: key_of(*key) }),
                ),
            },
    {
        self.current.get(&RowKey { src_db: src_db.to_owned(), tbl: tbl.to_owned(), key: key_text(compact_text(key).as_str()) })
    }

    /// The watermark of a database.
    pub fn watermark(&self, src_db: &str) -> (r: Option<i64>)
        requires
            self.well_formed(),
        ensures
            match r {
                Some(last) => self@.watermarks.contains_key(src_db@) && last == self@.watermarks[src_db@],
                None => !self@.watermarks.contains_key(src_db@),
            },
    {
        match self.watermarks.get(&src_db.to_owned()) {
            Some(last) => Some(*last),
            None => None,
        }
    }

    /// Puts a live row in place, whatever the log says.
    pub fn put_live(&mut self, src_db: &str, tbl: &str, key: &serde_json::Value, live: Live)
        requires
            old(self).well_formed(),
        ensures
            final(self).well_formed(),
            final(self)@ == (TablesView {
                current: old(self)@.current.insert(
                    RowKeyView { src_db: src_db@, tbl: tbl@, key: key_of(*key) },
                    live,
                ),
                ..old(self)@
            }),
    {
        self.current.set(RowKey { src_db: src_db.to_owned(), tbl: tbl.to_owned(), key: key_text(compact_text(key).as_str()) }, live);
    }

    /// Whether the log holds a deletion of a row later than `seq`.
    fn retired(&self, row: &RowKey, seq: i64) -> (r: bool)
        requires
            self.well_formed(),
        ensures
            r == self@.retired(row@, seq),
    {
        let mut i: usize = 0;
        while i < self.events.len()
            invariant
                self.well_formed(),
                i <= self.events.rows().len(),
                forall|j: int| 0 <= j < i ==> !retires((#[trigger] self.events.rows()[j]).1, row@, seq),
            decreases self.events.rows().len() - i,
        {
            let (k, e) = self.events.row(i);
            if e.seq > seq && same_text(e.op.as_str(), "D") && row_key_of(e).same(row) {
                assert(self@.events.contains_key(k@));
                return true;
            }
            i = i + 1;
        }
        assert forall|k: EventKeyView| #[trigger] self@.events.contains_key(k) implies !retires(
            self@.events[k],
            row@,
            seq,
        ) by {
            self.events.lemma_has_row(k);
        }
        false
    }

    /// Logs an event unless its number is taken, and says how many events were logged, as
    /// `sql::INSERT_EVENT` does.
    pub fn insert_event(&mut self, e: &Event) -> (n: usize)
        requires
            old(self).well_formed(),
        ensures
            final(self).well_formed(),
            final(self)@ == old(self)@.with_event(e@),
            n == (if old(self)@.logs(e@) {
                0int
            } else {
                1
            }),
    {
        let k = EventKey { src_db: e.src_db.clone(), seq: e.seq };
        match self.events.get(&k) {
            Some(_) => 0,
            None => {
                self.events.set(k, copy_event(e));
                1
            },
        }
    }

    /// Takes away the row of an event, as `sql::DELETE_ROW` does.
    pub fn delete_row(&mut self, e: &Event)
        requires
            old(self).well_formed(),
        ensures
            final(self).well_formed(),
            final(self)@ == old(self)@.without_row(e@),
    {
        self.current.remove(&row_key_of(e));
    }

    /// Writes the row of an event, unless a later deletion is logged or the row is as new, as
    /// `sql::UPSERT_ROW` does.
    pub fn upsert_row(&mut self, e: &Event, after: &serde_json::Value)
        requires
            old(self).well_formed(),
        ensures
            final(self).well_formed(),
            final(self)@ == old(self)@.with_row(e@, *after),
    {
        let row = row_key_of(e);
        if self.retired(&row, e.seq) {
            return;
        }
        if let Some(live) = self.current.get(&row) {
            if live.seq >= e.seq {
                return;
            }
        }
        self.current.set(row, Live { after: after.clone(), seq: e.seq, ts: e.ts });
    }

    /// Raises the watermark of a database to `seq` where it is lower, as `sql::BUMP_WATERMARK` does.
    pub fn bump_watermark(&mut self, src_db: &str, seq: i64)
        requires
            old(self).well_formed(),
        ensures
            final(self).well_formed(),
            final(self)@ == old(self)@.with_watermark(src_db@, seq),
    {
        let last: i64 = match self.watermark(src_db) {
            Some(last) => if last >= seq {
                last
            } else {
                seq
            },
            None => seq,
        };
        self.watermarks.set(src_db.to_owned(), last);
    }

    /// Takes away the live rows of a database that sit under a later deletion, as
    /// `sql::RETRACT_STALE` does.
    pub fn retract_stale(&mut self, src_db: &str)
        requires
            old(self).well_formed(),
        ensures
            final(self).well_formed(),
            final(self)@ == old(self)@.without_stale(src_db@),
    {
        let ghost before = self@;
        let mut i: usize = 0;
        while i < self.current.len()
            invariant
                self.well_formed(),
                i <= self.current.rows().len(),
                self@.events == before.events,
                self@.watermarks == before.watermarks,
                forall|row: RowKeyView| #[trigger]
                    self@.current.contains_key(row) ==> before.current.contains_key(row) && self@.current[row]
                        == before.current[row],
                forall|row: RowKeyView| #[trigger]
                    before.current.contains_key(row) ==> self@.current.contains_key(row) || (row.src_db == src_db@
                        && before.stale(row)),
                forall|j: int|
                    0 <= j < i ==> !((#[trigger] self.current.rows()[j]).0.src_db == src_db@ && before.stale(
                        self.current.rows()[j].0,
                    )),
            decreases self.current.rows().len() - i,
        {
            let (row, live) = self.current.row(i);
            let ghost k = row@;
            assert(self@.current.contains_key(k));
            if same_text(row.src_db.as_str(), src_db) && self.retired(row, live.seq) {
                assert(before.stale(k));
                self.current.remove_at(i);
            } else {
                i = i + 1;
            }
        }
        assert forall|row: RowKeyView| #[trigger] self@.current.contains_key(row) implies !(row.src_db == src_db@
            && before.stale(row)) by {
            self.current.lemma_has_row(row);
        }
        assert(self@ =~= before.without_stale(src_db@));
    }
}

} // verus!
