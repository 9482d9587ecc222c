//! What applying events keeps and what it brings about, whatever order they come in and however often.

use vstd::prelude::*;

use crate::apply;
use crate::event::EventView;
use crate::outbox;
use crate::outbox::{DrainView, OutboxRowView};
use crate::rows::RowSnap;
use crate::schema::TableView;
use crate::snapshot;
use crate::table;
use crate::tables;
use crate::tables::{EventKeyView, Live, RowKeyView, TablesView};

verus! {

/// One event more leaves every entry of the log in place, logs the event, and lowers no watermark.
proof fn lemma_one_keeps(t: TablesView, e: EventView)
    ensures
        apply::applied_one(t, e).logs(e),
        apply::applied_one(t, e).watermarks.contains_key(e.src_db),
        apply::applied_one(t, e).watermarks[e.src_db] >= e.seq,
        apply::applied_one(t, e).events == t.with_event(e).events,
        forall|src: Seq<char>| #[trigger]
            t.watermarks.contains_key(src) ==> apply::applied_one(t, e).watermarks.contains_key(src) && apply::applied_one(
                t,
                e,
            ).watermarks[src] >= t.watermarks[src],
{
}

proof fn lemma_each_keeps(t: TablesView, events: Seq<EventView>)
    ensures
        ({
            let after = apply::applied_each(t, events);
            &&& forall|k: EventKeyView| #[trigger]
                t.events.contains_key(k) ==> after.events.contains_key(k) && after.events[k] == t.events[k]
            &&& forall|i: int| 0 <= i < events.len() ==> after.logs(#[trigger] events[i])
            &&& forall|k: EventKeyView| #[trigger]
                after.events.contains_key(k) && !t.events.contains_key(k) ==> exists|i: int|
                    0 <= i < events.len() && after.events[k] == #[trigger] events[i] && tables::event_key(events[i]) == k
            &&& forall|src: Seq<char>| #[trigger]
                t.watermarks.contains_key(src) ==> after.watermarks.contains_key(src) && after.watermarks[src]
                    >= t.watermarks[src]
            &&& forall|i: int|
                0 <= i < events.len() ==> after.watermarks.contains_key((#[trigger] events[i]).src_db)
                    && after.watermarks[events[i].src_db] >= events[i].seq
            &&& forall|src: Seq<char>| #[trigger]
                after.watermarks.contains_key(src) ==> (t.watermarks.contains_key(src) && after.watermarks[src]
                    == t.watermarks[src]) || exists|i: int|
                    0 <= i < events.len() && (#[trigger] events[i]).src_db == src && events[i].seq
                        == after.watermarks[src]
        }),
    decreases events.len(),
{
    if events.len() > 0 {
        let prior = events.drop_last();
        let e = events.last();
        let n = prior.len() as int;
        lemma_each_keeps(t, prior);
        let before = apply::applied_each(t, prior);
        lemma_one_keeps(before, e);
        let after = apply::applied_one(before, e);
        assert forall|i: int| 0 <= i < events.len() implies after.logs(#[trigger] events[i]) by {
            if i < n {
                assert(before.logs(prior[i]));
            }
        }
        assert forall|k: EventKeyView| #[trigger]
            after.events.contains_key(k) && !t.events.contains_key(k) implies exists|i: int|
            0 <= i < events.len() && after.events[k] == #[trigger] events[i] && tables::event_key(events[i]) == k by {
            if before.events.contains_key(k) {
                let i = choose|i: int|
                    0 <= i < prior.len() && before.events[k] == #[trigger] prior[i] && tables::event_key(prior[i]) == k;
                assert(events[i] == prior[i]);
            } else {
                assert(events[n] == e);
            }
        }
        assert forall|i: int| 0 <= i < events.len() implies after.watermarks.contains_key((#[trigger] events[i]).src_db)
            && after.watermarks[events[i].src_db] >= events[i].seq by {
            if i < n {
                assert(events[i] == prior[i]);
                assert(before.watermarks.contains_key(prior[i].src_db));
            }
        }
        assert forall|src: Seq<char>| #[trigger] after.watermarks.contains_key(src) implies (t.watermarks.contains_key(src)
            && after.watermarks[src] == t.watermarks[src]) || exists|i: int|
            0 <= i < events.len() && (#[trigger] events[i]).src_db == src && events[i].seq == after.watermarks[src] by {
            if before.watermarks.contains_key(src) && after.watermarks[src] == before.watermarks[src] {
                if !(t.watermarks.contains_key(src) && before.watermarks[src] == t.watermarks[src]) {
                    let i = choose|i: int|
                        0 <= i < prior.len() && (#[trigger] prior[i]).src_db == src && prior[i].seq
                            == before.watermarks[src];
                    assert(events[i] == prior[i]);
                }
            } else {
                assert(events[n].src_db == src);
            }
        }
    }
}

/// Events that are logged, with watermarks that have reached them, change nothing.
proof fn lemma_logged_events_change_nothing(t: TablesView, events: Seq<EventView>)
    requires
        forall|i: int| 0 <= i < events.len() ==> t.logs(#[trigger] events[i]),
        forall|i: int|
            0 <= i < events.len() ==> t.watermarks.contains_key((#[trigger] events[i]).src_db)
                && t.watermarks[events[i].src_db] >= events[i].seq,
    ensures
        apply::applied_each(t, events) == t,
        apply::newly_logged(t, events) == 0,
    decreases events.len(),
{
    if events.len() > 0 {
        let prior = events.drop_last();
        let e = events.last();
        assert forall|i: int| 0 <= i < prior.len() implies t.logs(#[trigger] prior[i]) && t.watermarks.contains_key(
            prior[i].src_db,
        ) && t.watermarks[prior[i].src_db] >= prior[i].seq by {
            assert(prior[i] == events[i]);
        }
        lemma_logged_events_change_nothing(t, prior);
        assert(e == events[events.len() - 1]);
        assert(t.with_watermark(e.src_db, e.seq) =~= t);
    }
}

proof fn lemma_stale_rows_go_once(t: TablesView, src_db: Seq<char>)
    ensures
        t.without_stale(src_db).without_stale(src_db) == t.without_stale(src_db),
        forall|row: RowKeyView| row.src_db == src_db ==> !(#[trigger] t.without_stale(src_db).stale(row)),
{
    let once = t.without_stale(src_db);
    assert forall|row: RowKeyView| row.src_db == src_db implies !(#[trigger] once.stale(row)) by {
        if once.current.contains_key(row) {
            assert(!t.stale(row));
            assert forall|k: EventKeyView| #[trigger] once.events.contains_key(k) implies !tables::retires(
                once.events[k],
                row,
                once.current[row].seq,
            ) by {
                assert(t.events.contains_key(k));
            }
        }
    }
    assert(once.without_stale(src_db) =~= once);
}

/// Applying the same events again logs none of them and changes nothing at all.
pub proof fn replay_changes_nothing(t: TablesView, events: Seq<EventView>)
    ensures
        apply::applied(apply::applied(t, events), events) == apply::applied(t, events),
        apply::newly_logged(apply::applied(t, events), events) == 0,
{
    if events.len() > 0 {
        let each = apply::applied_each(t, events);
        let once = apply::applied(t, events);
        lemma_each_keeps(t, events);
        assert forall|i: int| 0 <= i < events.len() implies once.logs(#[trigger] events[i])
            && once.watermarks.contains_key(events[i].src_db) && once.watermarks[events[i].src_db] >= events[i].seq by {
            assert(each.logs(events[i]));
        }
        lemma_logged_events_change_nothing(once, events);
        lemma_stale_rows_go_once(each, events[0].src_db);
    }
}

/// After an application no live row of the first event's database sits under a later deletion,
/// whatever came before and in whatever order the events came: a deletion is not undone.
pub proof fn no_live_row_under_a_later_deletion(t: TablesView, events: Seq<EventView>, row: RowKeyView)
    requires
        events.len() > 0,
        row.src_db == events[0].src_db,
    ensures
        !apply::applied(t, events).stale(row),
{
    lemma_stale_rows_go_once(apply::applied_each(t, events), events[0].src_db);
}

/// The log only grows: every entry stays as it is, every event has its number taken afterwards, and
/// every new entry is one of the events, under its own number.
pub proof fn log_only_grows(t: TablesView, events: Seq<EventView>)
    ensures
        ({
            let after = apply::applied(t, events);
            &&& forall|k: EventKeyView| #[trigger]
                t.events.contains_key(k) ==> after.events.contains_key(k) && after.events[k] == t.events[k]
            &&& forall|i: int| 0 <= i < events.len() ==> after.logs(#[trigger] events[i])
            &&& forall|k: EventKeyView| #[trigger]
                after.events.contains_key(k) && !t.events.contains_key(k) ==> exists|i: int|
                    0 <= i < events.len() && after.events[k] == #[trigger] events[i] && tables::event_key(events[i]) == k
        }),
{
    lemma_each_keeps(t, events);
}

/// A watermark is the highest number applied: it never goes down, it has reached every event of its
/// database, and it is either what it was or the number of one of those events.
pub proof fn watermark_is_the_highest_number(t: TablesView, events: Seq<EventView>)
    ensures
        ({
            let after = apply::applied(t, events);
            &&& forall|src: Seq<char>| #[trigger]
                t.watermarks.contains_key(src) ==> after.watermarks.contains_key(src) && after.watermarks[src]
                    >= t.watermarks[src]
            &&& forall|i: int|
                0 <= i < events.len() ==> after.watermarks.contains_key((#[trigger] events[i]).src_db)
                    && after.watermarks[events[i].src_db] >= events[i].seq
            &&& forall|src: Seq<char>| #[trigger]
                after.watermarks.contains_key(src) ==> (t.watermarks.contains_key(src) && after.watermarks[src]
                    == t.watermarks[src]) || exists|i: int|
                    0 <= i < events.len() && (#[trigger] events[i]).src_db == src && events[i].seq
                        == after.watermarks[src]
        }),
{
    lemma_each_keeps(t, events);
}

/// An insertion or update that is no newer than the live row leaves all live rows as they are.
pub proof fn older_event_keeps_the_row(t: TablesView, e: EventView)
    requires
        e.op != "D"@,
        t.current.contains_key(tables::row_key(e)),
        t.current[tables::row_key(e)].seq >= e.seq,
    ensures
        apply::applied_one(t, e).current == t.current,
{
}

/// An insertion or update leaves all live rows as they are where the log holds a later deletion of its
/// row.
pub proof fn later_deletion_refuses_the_row(t: TablesView, e: EventView)
    requires
        e.op != "D"@,
        t.retired(tables::row_key(e), e.seq),
    ensures
        apply::applied_one(t, e).current == t.current,
{
    let row = tables::row_key(e);
    let k = choose|k: EventKeyView| #[trigger] t.events.contains_key(k) && tables::retires(t.events[k], row, e.seq);
    let logged = t.with_event(e);
    assert(logged.events.contains_key(k) && tables::retires(logged.events[k], row, e.seq));
}

/// The live rows after events, one after the other, each of them taken at its word: a deletion takes
/// its row away, an insertion or update with a payload writes it.
pub open spec fn rebuilt(rows: Map<RowKeyView, Live>, events: Seq<EventView>) -> Map<RowKeyView, Live>
    decreases events.len(),
{
    if events.len() == 0 {
        rows
    } else {
        let before = rebuilt(rows, events.drop_last());
        let e = events.last();
        let row = RowKeyView { src_db: e.src_db, tbl: e.tbl, key: tables::key_of(e.key) };
        if e.op == "D"@ {
            before.remove(row)
        } else {
            match e.after {
                Some(after) => before.insert(row, Live { after, seq: e.seq, ts: e.ts }),
                None => before,
            }
        }
    }
}

/// Whether events are those of one database, in the order of their numbers.
pub open spec fn in_seq_order(src_db: Seq<char>, events: Seq<EventView>) -> bool {
    &&& forall|i: int| 0 <= i < events.len() ==> (#[trigger] events[i]).src_db == src_db
    &&& forall|i: int, j: int|
        #![trigger events[i], events[j]]
        0 <= i < j < events.len() ==> events[i].seq < events[j].seq
}

/// Whether the tables have seen nothing of a database from number `seq` on: all its logged events and
/// all its live rows have lower numbers, and none of its live rows sits under a later deletion.
pub open spec fn seen_below(t: TablesView, src_db: Seq<char>, seq: int) -> bool {
    &&& forall|k: EventKeyView| #[trigger]
        t.events.contains_key(k) ==> tables::event_key(t.events[k]) == k && (k.src_db == src_db ==> k.seq < seq)
    &&& forall|row: RowKeyView| #[trigger]
        t.current.contains_key(row) && row.src_db == src_db ==> t.current[row].seq < seq && !t.stale(row)
}

proof fn lemma_next_in_order(t: TablesView, src_db: Seq<char>, e: EventView)
    requires
        seen_below(t, src_db, e.seq as int),
        e.src_db == src_db,
    ensures
        seen_below(apply::applied_one(t, e), src_db, e.seq + 1),
        apply::applied_one(t, e).current == rebuilt(t.current, seq![e]),
{
    let one = seq![e];
    assert(one.drop_last() =~= Seq::<EventView>::empty());
    reveal_with_fuel(rebuilt, 2);
    let logged = t.with_event(e);
    let row = tables::row_key(e);
    let after = apply::applied_one(t, e);
    assert(!t.logs(e));
    assert forall|k: EventKeyView| #[trigger] logged.events.contains_key(k) implies !tables::retires(
        logged.events[k],
        row,
        e.seq,
    ) by {
        if k != tables::event_key(e) {
            assert(t.events.contains_key(k));
        }
    }
    assert(!logged.retired(row, e.seq));
    assert forall|other: RowKeyView| #[trigger]
        after.current.contains_key(other) && other.src_db == src_db implies after.current[other].seq < e.seq + 1
        && !after.stale(other) by {
        let seq = after.current[other].seq;
        assert forall|k: EventKeyView| #[trigger] after.events.contains_key(k) implies !tables::retires(
            after.events[k],
            other,
            seq,
        ) by {
            assert(logged.events.contains_key(k));
            if other == row && e.op != "D"@ && e.after is Some {
                assert(seq == e.seq);
            } else {
                assert(t.current.contains_key(other));
                assert(!t.stale(other));
                if k == tables::event_key(e) {
                    assert(other == row ==> e.op != "D"@);
                } else {
                    assert(t.events.contains_key(k));
                }
            }
        }
    }
}

proof fn lemma_in_order(t: TablesView, src_db: Seq<char>, events: Seq<EventView>)
    requires
        in_seq_order(src_db, events),
        events.len() > 0,
        seen_below(t, src_db, events[0].seq as int),
    ensures
        seen_below(apply::applied_each(t, events), src_db, events.last().seq + 1),
        apply::applied_each(t, events).current == rebuilt(t.current, events),
    decreases events.len(),
{
    let prior = events.drop_last();
    let e = events.last();
    let before = apply::applied_each(t, prior);
    if prior.len() > 0 {
        assert forall|i: int, j: int| #![trigger prior[i], prior[j]] 0 <= i < j < prior.len() implies prior[i].seq
            < prior[j].seq by {
            assert(events[i].seq < events[j].seq);
        }
        lemma_in_order(t, src_db, prior);
        assert(events[prior.len() - 1].seq < events[events.len() - 1].seq);
    } else {
        assert(e == events[0]);
    }
    assert(events[events.len() - 1].src_db == src_db);
    assert(seen_below(before, src_db, e.seq as int));
    lemma_next_in_order(before, src_db, e);
    reveal_with_fuel(rebuilt, 2);
    assert(seq![e].drop_last() =~= Seq::<EventView>::empty());
}

/// Events of one database that come in the order of their numbers, all of them newer than what was
/// seen before, rebuild its live rows: each row is what the last event about it says.
pub proof fn events_in_order_rebuild_the_rows(t: TablesView, src_db: Seq<char>, events: Seq<EventView>)
    requires
        in_seq_order(src_db, events),
        events.len() > 0 ==> seen_below(t, src_db, events[0].seq as int),
    ensures
        apply::applied(t, events).current == rebuilt(t.current, events),
        apply::newly_logged(t, events) == events.len(),
        events.len() > 0 ==> seen_below(apply::applied(t, events), src_db, events.last().seq + 1),
{
    if events.len() > 0 {
        lemma_in_order(t, src_db, events);
        lemma_all_new(t, src_db, events);
        let each = apply::applied_each(t, events);
        assert(each.without_stale(src_db) =~= each);
    }
}

proof fn lemma_all_new(t: TablesView, src_db: Seq<char>, events: Seq<EventView>)
    requires
        in_seq_order(src_db, events),
        events.len() > 0 ==> seen_below(t, src_db, events[0].seq as int),
    ensures
        apply::newly_logged(t, events) == events.len(),
    decreases events.len(),
{
    if events.len() > 0 {
        let prior = events.drop_last();
        let e = events.last();
        assert forall|i: int, j: int| #![trigger prior[i], prior[j]] 0 <= i < j < prior.len() implies prior[i].seq
            < prior[j].seq by {
            assert(events[i].seq < events[j].seq);
        }
        lemma_all_new(t, src_db, prior);
        if prior.len() > 0 {
            lemma_in_order(t, src_db, prior);
            assert(events[prior.len() - 1].seq < events[events.len() - 1].seq);
        }
        assert(events[events.len() - 1].src_db == src_db);
        assert(!apply::applied_each(t, prior).logs(e));
    }
}

/// Whether two states of the tables agree on every database but one.
pub open spec fn same_elsewhere(a: TablesView, b: TablesView, src_db: Seq<char>) -> bool {
    &&& forall|k: EventKeyView|
        k.src_db != src_db ==> (#[trigger] a.events.contains_key(k) <==> b.events.contains_key(k))
    &&& forall|k: EventKeyView|
        k.src_db != src_db && #[trigger] a.events.contains_key(k) ==> a.events[k] == b.events[k]
    &&& forall|row: RowKeyView|
        row.src_db != src_db ==> (#[trigger] a.current.contains_key(row) <==> b.current.contains_key(row))
    &&& forall|row: RowKeyView|
        row.src_db != src_db && #[trigger] a.current.contains_key(row) ==> a.current[row] == b.current[row]
    &&& forall|src: Seq<char>|
        src != src_db ==> (#[trigger] a.watermarks.contains_key(src) <==> b.watermarks.contains_key(src))
    &&& forall|src: Seq<char>|
        src != src_db && #[trigger] a.watermarks.contains_key(src) ==> a.watermarks[src] == b.watermarks[src]
}

proof fn lemma_others_stay(t: TablesView, src_db: Seq<char>, events: Seq<EventView>)
    requires
        forall|i: int| 0 <= i < events.len() ==> (#[trigger] events[i]).src_db == src_db,
    ensures
        same_elsewhere(apply::applied_each(t, events), t, src_db),
    decreases events.len(),
{
    if events.len() > 0 {
        let prior = events.drop_last();
        lemma_others_stay(t, src_db, prior);
        assert(events[events.len() - 1].src_db == src_db);
        let before = apply::applied_each(t, prior);
        assert(same_elsewhere(apply::applied_one(before, events.last()), before, src_db));
    }
}

/// Events of one database leave the log, the live rows and the watermarks of all others alone.
pub proof fn other_sources_stay(t: TablesView, src_db: Seq<char>, events: Seq<EventView>)
    requires
        forall|i: int| 0 <= i < events.len() ==> (#[trigger] events[i]).src_db == src_db,
    ensures
        same_elsewhere(apply::applied(t, events), t, src_db),
{
    lemma_others_stay(t, src_db, events);
}

/// The tables after batches, one application after the other.
pub open spec fn applied_batches(t: TablesView, batches: Seq<Seq<EventView>>) -> TablesView
    decreases batches.len(),
{
    if batches.len() == 0 {
        t
    } else {
        apply::applied(applied_batches(t, batches.drop_last()), batches.last())
    }
}

proof fn lemma_rebuilt_concat(rows: Map<RowKeyView, Live>, a: Seq<EventView>, b: Seq<EventView>)
    ensures
        rebuilt(rows, a + b) == rebuilt(rebuilt(rows, a), b),
    decreases b.len(),
{
    if b.len() == 0 {
        assert(a + b =~= a);
    } else {
        assert((a + b).drop_last() =~= a + b.drop_last());
        lemma_rebuilt_concat(rows, a, b.drop_last());
    }
}

/// Batches of one database whose events come in the order of their numbers, all of them newer than
/// what was seen before, rebuild its live rows, however the events are cut into batches.
pub proof fn batches_in_order_rebuild_the_rows(t: TablesView, src_db: Seq<char>, batches: Seq<Seq<EventView>>)
    requires
        in_seq_order(src_db, batches.flatten()),
        batches.flatten().len() > 0 ==> seen_below(t, src_db, batches.flatten()[0].seq as int),
    ensures
        applied_batches(t, batches).current == rebuilt(t.current, batches.flatten()),
        batches.flatten().len() > 0 ==> seen_below(
            applied_batches(t, batches),
            src_db,
            batches.flatten().last().seq + 1,
        ),
        batches.flatten().len() == 0 ==> applied_batches(t, batches) == t,
    decreases batches.len(),
{
    if batches.len() == 0 {
        assert(batches.flatten() =~= Seq::<EventView>::empty());
    } else {
        let prior = batches.drop_last();
        let last = batches.last();
        let before = prior.flatten();
        let all = batches.flatten();
        prior.lemma_flatten_push(last);
        assert(prior.push(last) =~= batches);
        assert(all =~= before + last);
        assert(in_seq_order(src_db, before)) by {
            assert forall|i: int| 0 <= i < before.len() implies (#[trigger] before[i]).src_db == src_db by {
                assert(before[i] == all[i]);
            }
            assert forall|i: int, j: int| #![trigger before[i], before[j]] 0 <= i < j < before.len() implies before[i].seq
                < before[j].seq by {
                assert(all[i].seq < all[j].seq);
            }
        }
        assert(in_seq_order(src_db, last)) by {
            let n = before.len() as int;
            assert forall|i: int| 0 <= i < last.len() implies (#[trigger] last[i]).src_db == src_db by {
                assert(last[i] == all[n + i]);
            }
            assert forall|i: int, j: int| #![trigger last[i], last[j]] 0 <= i < j < last.len() implies last[i].seq
                < last[j].seq by {
                assert(all[n + i].seq < all[n + j].seq);
            }
        }
        if before.len() > 0 {
            assert(before[0] == all[0]);
        }
        batches_in_order_rebuild_the_rows(t, src_db, prior);
        let middle = applied_batches(t, prior);
        if last.len() > 0 {
            assert(last[0] == all[before.len() as int]);
            assert(last.last() == all.last());
            if before.len() > 0 {
                assert(all[before.len() - 1].seq < all[before.len() as int].seq);
            }
            assert(seen_below(middle, src_db, last[0].seq as int));
        } else {
            assert(all =~= before);
        }
        events_in_order_rebuild_the_rows(middle, src_db, last);
        lemma_rebuilt_concat(t.current, before, last);
    }
}

/// Whether an event deletes a row.
pub open spec fn deletes(e: EventView, row: RowKeyView) -> bool {
    &&& e.op == "D"@
    &&& e.src_db == row.src_db
    &&& e.tbl == row.tbl
    &&& tables::key_of(e.key) == row.key
}

/// Whether an event is an insertion or update with a payload for a row.
pub open spec fn writes(e: EventView, row: RowKeyView) -> bool {
    &&& e.op != "D"@
    &&& e.after is Some
    &&& e.src_db == row.src_db
    &&& e.tbl == row.tbl
    &&& tables::key_of(e.key) == row.key
}

/// The live row that an event writes.
pub open spec fn written_by(e: EventView) -> Live {
    Live { after: e.after->0, seq: e.seq, ts: e.ts }
}

/// Whether a row that the log never deletes is as new as every insertion and update of it in the log.
pub open spec fn up_to_date(t: TablesView, row: RowKeyView) -> bool {
    forall|k: EventKeyView| #[trigger]
        t.events.contains_key(k) ==> {
            &&& !deletes(t.events[k], row)
            &&& writes(t.events[k], row) ==> t.current.contains_key(row) && t.current[row].seq >= t.events[k].seq
        }
}

/// Whether a row is what it was or what one of the events writes, that one newer than what it was.
pub open spec fn kept_or_written(before: TablesView, after: TablesView, events: Seq<EventView>, row: RowKeyView) -> bool {
    &&& before.current.contains_key(row) ==> after.current.contains_key(row) && after.current[row].seq
        >= before.current[row].seq
    &&& after.current.contains_key(row) ==> (before.current.contains_key(row) && after.current[row]
        == before.current[row]) || exists|i: int|
        0 <= i < events.len() && #[trigger] writes(events[i], row) && after.current[row] == written_by(events[i]) && (
        before.current.contains_key(row) ==> events[i].seq > before.current[row].seq)
}

proof fn lemma_one_newest(t: TablesView, e: EventView, row: RowKeyView)
    requires
        up_to_date(t, row),
        !deletes(e, row),
    ensures
        up_to_date(apply::applied_one(t, e), row),
        kept_or_written(t, apply::applied_one(t, e), seq![e], row),
{
    let logged = t.with_event(e);
    let after = apply::applied_one(t, e);
    assert(seq![e][0] == e);
    assert forall|k: EventKeyView| #[trigger] logged.events.contains_key(k) implies !deletes(logged.events[k], row) by {
        if k != tables::event_key(e) {
            assert(t.events.contains_key(k));
        } else if t.logs(e) {
            assert(t.events.contains_key(k));
        }
    }
    assert(!logged.retired(row, e.seq));
    assert forall|k: EventKeyView| #[trigger] after.events.contains_key(k) implies {
        &&& !deletes(after.events[k], row)
        &&& writes(after.events[k], row) ==> after.current.contains_key(row) && after.current[row].seq
            >= after.events[k].seq
    } by {
        assert(logged.events.contains_key(k));
        if t.logs(e) || k != tables::event_key(e) {
            assert(t.events.contains_key(k));
        }
    }
    if writes(e, row) && !t.logs(e) {
        assert(writes(seq![e][0], row));
    }
}

proof fn lemma_kept_or_written_chain(
    a: TablesView,
    b: TablesView,
    c: TablesView,
    first: Seq<EventView>,
    second: Seq<EventView>,
    row: RowKeyView,
)
    requires
        kept_or_written(a, b, first, row),
        kept_or_written(b, c, second, row),
    ensures
        kept_or_written(a, c, first + second, row),
{
    let all = first + second;
    if c.current.contains_key(row) {
        if b.current.contains_key(row) && c.current[row] == b.current[row] {
            if !(a.current.contains_key(row) && b.current[row] == a.current[row]) {
                let i = choose|i: int|
                    0 <= i < first.len() && #[trigger] writes(first[i], row) && b.current[row] == written_by(first[i]) && (
                    a.current.contains_key(row) ==> first[i].seq > a.current[row].seq);
                assert(all[i] == first[i]);
                assert(writes(all[i], row));
            }
        } else {
            let i = choose|i: int|
                0 <= i < second.len() && #[trigger] writes(second[i], row) && c.current[row] == written_by(second[i]) && (
                b.current.contains_key(row) ==> second[i].seq > b.current[row].seq);
            assert(all[first.len() + i] == second[i]);
            assert(writes(all[first.len() + i], row));
        }
    }
}

proof fn lemma_each_newest(t: TablesView, events: Seq<EventView>, row: RowKeyView)
    requires
        up_to_date(t, row),
        forall|i: int| 0 <= i < events.len() ==> !deletes(#[trigger] events[i], row),
    ensures
        up_to_date(apply::applied_each(t, events), row),
        kept_or_written(t, apply::applied_each(t, events), events, row),
    decreases events.len(),
{
    if events.len() > 0 {
        let prior = events.drop_last();
        let e = events.last();
        assert forall|i: int| 0 <= i < prior.len() implies !deletes(#[trigger] prior[i], row) by {
            assert(prior[i] == events[i]);
        }
        lemma_each_newest(t, prior, row);
        let before = apply::applied_each(t, prior);
        assert(!deletes(events[events.len() - 1], row));
        lemma_one_newest(before, e, row);
        lemma_kept_or_written_chain(t, before, apply::applied_one(before, e), prior, seq![e], row);
        assert(prior + seq![e] =~= events);
    }
}

proof fn lemma_application_newest(t: TablesView, events: Seq<EventView>, row: RowKeyView)
    requires
        up_to_date(t, row),
        forall|i: int| 0 <= i < events.len() ==> !deletes(#[trigger] events[i], row),
    ensures
        up_to_date(apply::applied(t, events), row),
        kept_or_written(t, apply::applied(t, events), events, row),
{
    if events.len() > 0 {
        lemma_each_newest(t, events, row);
        let each = apply::applied_each(t, events);
        let after = apply::applied(t, events);
        assert(!each.stale(row));
        assert(after.current.contains_key(row) <==> each.current.contains_key(row));
    }
}

/// A row that is never deleted ends with the newest payload, in whatever order its insertions and
/// updates come, however often, and however they are cut into batches: it is as new as every one of
/// them that the log holds, and it is what it was or what one of them wrote.
pub proof fn newest_payload_wins(t: TablesView, batches: Seq<Seq<EventView>>, row: RowKeyView)
    requires
        up_to_date(t, row),
        forall|i: int| 0 <= i < batches.flatten().len() ==> !deletes(#[trigger] batches.flatten()[i], row),
    ensures
        up_to_date(applied_batches(t, batches), row),
        kept_or_written(t, applied_batches(t, batches), batches.flatten(), row),
    decreases batches.len(),
{
    if batches.len() == 0 {
        assert(batches.flatten() =~= Seq::<EventView>::empty());
    } else {
        let prior = batches.drop_last();
        let last = batches.last();
        let before = prior.flatten();
        let all = batches.flatten();
        prior.lemma_flatten_push(last);
        assert(prior.push(last) =~= batches);
        assert(all =~= before + last);
        assert forall|i: int| 0 <= i < before.len() implies !deletes(#[trigger] before[i], row) by {
            assert(before[i] == all[i]);
        }
        assert forall|i: int| 0 <= i < last.len() implies !deletes(#[trigger] last[i], row) by {
            assert(last[i] == all[before.len() + i]);
        }
        newest_payload_wins(t, prior, row);
        let middle = applied_batches(t, prior);
        lemma_application_newest(middle, last, row);
        lemma_kept_or_written_chain(t, middle, applied_batches(t, batches), before, last, row);
    }
}

proof fn lemma_batches_log(t: TablesView, batches: Seq<Seq<EventView>>)
    ensures
        ({
            let after = applied_batches(t, batches);
            let events = batches.flatten();
            &&& forall|k: EventKeyView| #[trigger]
                t.events.contains_key(k) ==> after.events.contains_key(k) && after.events[k] == t.events[k]
            &&& forall|i: int| 0 <= i < events.len() ==> after.logs(#[trigger] events[i])
            &&& forall|k: EventKeyView| #[trigger]
                after.events.contains_key(k) && !t.events.contains_key(k) ==> exists|i: int|
                    0 <= i < events.len() && after.events[k] == #[trigger] events[i] && tables::event_key(events[i]) == k
        }),
    decreases batches.len(),
{
    if batches.len() == 0 {
        assert(batches.flatten() =~= Seq::<EventView>::empty());
    } else {
        let prior = batches.drop_last();
        let last = batches.last();
        let before = prior.flatten();
        let all = batches.flatten();
        prior.lemma_flatten_push(last);
        assert(prior.push(last) =~= batches);
        assert(all =~= before + last);
        lemma_batches_log(t, prior);
        let middle = applied_batches(t, prior);
        log_only_grows(middle, last);
        let after = applied_batches(t, batches);
        assert forall|k: EventKeyView| #[trigger] t.events.contains_key(k) implies after.events.contains_key(k)
            && after.events[k] == t.events[k] by {
            assert(middle.events.contains_key(k));
        }
        assert forall|i: int| 0 <= i < all.len() implies after.logs(#[trigger] all[i]) by {
            if i < before.len() {
                assert(all[i] == before[i]);
                assert(middle.logs(before[i]));
                assert(middle.events.contains_key(tables::event_key(before[i])));
            } else {
                assert(all[i] == last[i - before.len()]);
                assert(after.logs(last[i - before.len()]));
            }
        }
        assert forall|k: EventKeyView| #[trigger]
            after.events.contains_key(k) && !t.events.contains_key(k) implies exists|i: int|
            0 <= i < all.len() && after.events[k] == #[trigger] all[i] && tables::event_key(all[i]) == k by {
            if middle.events.contains_key(k) {
                let i = choose|i: int|
                    0 <= i < before.len() && middle.events[k] == #[trigger] before[i] && tables::event_key(before[i]) == k;
                assert(all[i] == before[i]);
            } else {
                let i = choose|i: int|
                    0 <= i < last.len() && after.events[k] == #[trigger] last[i] && tables::event_key(last[i]) == k;
                assert(all[before.len() + i] == last[i]);
            }
        }
    }
}

/// Every event is logged as itself where none was logged before and a number stands for one event.
proof fn lemma_logged_as_itself(t: TablesView, batches: Seq<Seq<EventView>>, i: int)
    requires
        one_event_a_number(batches.flatten()),
        forall|j: int| 0 <= j < batches.flatten().len() ==> !t.logs(#[trigger] batches.flatten()[j]),
        0 <= i < batches.flatten().len(),
    ensures
        applied_batches(t, batches).logs(batches.flatten()[i]),
        applied_batches(t, batches).events[tables::event_key(batches.flatten()[i])] == batches.flatten()[i],
{
    let events = batches.flatten();
    let after = applied_batches(t, batches);
    lemma_batches_log(t, batches);
    let k = tables::event_key(events[i]);
    assert(after.logs(events[i]));
    assert(!t.logs(events[i]));
    assert(after.events.contains_key(k) && !t.events.contains_key(k));
    let j = choose|j: int|
        0 <= j < events.len() && after.events[k] == #[trigger] events[j] && tables::event_key(events[j]) == k;
    assert(events[j] == events[i]);
}

/// Whether no two different events have the same number in the same database.
pub open spec fn one_event_a_number(events: Seq<EventView>) -> bool {
    forall|i: int, j: int|
        #![trigger events[i], events[j]]
        0 <= i < events.len() && 0 <= j < events.len() && tables::event_key(events[i]) == tables::event_key(events[j])
            ==> events[i] == events[j]
}

/// The same new events leave a row that they do not delete the same, in whatever order they come and
/// however they are cut into batches.
pub proof fn order_of_writes_does_not_matter(
    t: TablesView,
    a: Seq<Seq<EventView>>,
    b: Seq<Seq<EventView>>,
    row: RowKeyView,
)
    requires
        up_to_date(t, row),
        one_event_a_number(a.flatten()),
        forall|e: EventView| #[trigger] a.flatten().contains(e) <==> b.flatten().contains(e),
        forall|i: int| 0 <= i < a.flatten().len() ==> !t.logs(#[trigger] a.flatten()[i]),
        forall|i: int| 0 <= i < a.flatten().len() ==> !deletes(#[trigger] a.flatten()[i], row),
    ensures
        ({
            let x = applied_batches(t, a);
            let y = applied_batches(t, b);
            &&& x.current.contains_key(row) <==> y.current.contains_key(row)
            &&& x.current.contains_key(row) ==> x.current[row] == y.current[row]
        }),
{
    let p = a.flatten();
    let q = b.flatten();
    assert forall|j: int| 0 <= j < q.len() implies !t.logs(#[trigger] q[j]) && !deletes(q[j], row) by {
        let i = lemma_same_event(p, q, j);
        assert(p[i] == q[j]);
    }
    assert forall|i: int, j: int|
        #![trigger q[i], q[j]]
        0 <= i < q.len() && 0 <= j < q.len() && tables::event_key(q[i]) == tables::event_key(q[j]) implies q[i] == q[j] by {
        let k = lemma_same_event(p, q, i);
        let l = lemma_same_event(p, q, j);
        assert(p[k] == q[i] && p[l] == q[j]);
    }
    newest_payload_wins(t, a, row);
    newest_payload_wins(t, b, row);
    lemma_not_older(t, a, b, row);
    assert forall|e: EventView| #[trigger] q.contains(e) <==> p.contains(e) by {
        assert(p.contains(e) <==> q.contains(e));
    }
    lemma_not_older(t, b, a, row);
    let x = applied_batches(t, a);
    let y = applied_batches(t, b);
    if x.current.contains_key(row) {
        let kept_x = t.current.contains_key(row) && x.current[row] == t.current[row];
        let kept_y = t.current.contains_key(row) && y.current[row] == t.current[row];
        if !kept_x && !kept_y {
            let i = choose|i: int|
                0 <= i < p.len() && #[trigger] writes(p[i], row) && x.current[row] == written_by(p[i]) && (
                t.current.contains_key(row) ==> p[i].seq > t.current[row].seq);
            let j = choose|j: int|
                0 <= j < q.len() && #[trigger] writes(q[j], row) && y.current[row] == written_by(q[j]) && (
                t.current.contains_key(row) ==> q[j].seq > t.current[row].seq);
            let k = lemma_same_event(p, q, j);
            assert(p[k] == q[j]);
            assert(tables::event_key(p[i]) == tables::event_key(p[k]));
        }
    }
}

proof fn lemma_same_event(p: Seq<EventView>, q: Seq<EventView>, j: int) -> (i: int)
    requires
        forall|e: EventView| #[trigger] p.contains(e) <==> q.contains(e),
        0 <= j < q.len(),
    ensures
        0 <= i < p.len(),
        p[i] == q[j],
{
    assert(q.contains(q[j]));
    assert(p.contains(q[j]));
    choose|i: int| 0 <= i < p.len() && p[i] == q[j]
}

/// What the one order leaves of a row, the other leaves no older.
proof fn lemma_not_older(t: TablesView, a: Seq<Seq<EventView>>, b: Seq<Seq<EventView>>, row: RowKeyView)
    requires
        up_to_date(applied_batches(t, b), row),
        kept_or_written(t, applied_batches(t, a), a.flatten(), row),
        kept_or_written(t, applied_batches(t, b), b.flatten(), row),
        one_event_a_number(b.flatten()),
        forall|i: int| 0 <= i < b.flatten().len() ==> !t.logs(#[trigger] b.flatten()[i]),
        forall|e: EventView| #[trigger] a.flatten().contains(e) <==> b.flatten().contains(e),
    ensures
        applied_batches(t, a).current.contains_key(row) ==> applied_batches(t, b).current.contains_key(row)
            && applied_batches(t, b).current[row].seq >= applied_batches(t, a).current[row].seq,
{
    let p = a.flatten();
    let q = b.flatten();
    let x = applied_batches(t, a);
    let y = applied_batches(t, b);
    if x.current.contains_key(row) && !(t.current.contains_key(row) && x.current[row] == t.current[row]) {
        let i = choose|i: int|
            0 <= i < p.len() && #[trigger] writes(p[i], row) && x.current[row] == written_by(p[i]) && (
            t.current.contains_key(row) ==> p[i].seq > t.current[row].seq);
        assert(p.contains(p[i]));
        assert(q.contains(p[i]));
        let j = choose|j: int| 0 <= j < q.len() && q[j] == p[i];
        lemma_logged_as_itself(t, b, j);
        assert(y.events.contains_key(tables::event_key(q[j])));
    }
}

/// What a drain spools rebuilds the live rows of its database: whoever applies the batches, with
/// nothing of that database seen from the first number on, has each row as the last change says.
pub proof fn drained_changes_rebuild_the_rows(t: TablesView, src_db: Seq<char>, rows: Seq<OutboxRowView>)
    requires
        outbox::by_seq(rows),
        outbox::events_of_rows(src_db, rows) is Ok,
        rows.len() > 0 ==> seen_below(t, src_db, rows[0].seq as int),
    ensures
        applied_batches(
            t,
            outbox::drained(DrainView::start(src_db), rows, seq![]).batches,
        ).current == rebuilt(t.current, outbox::events_of_rows(src_db, rows)->Ok_0),
{
    let events = outbox::events_of_rows(src_db, rows)->Ok_0;
    outbox::drain_takes_everything(src_db, rows);
    outbox::lemma_events_keep_seq(src_db, rows);
    lemma_rows_in_seq_order(src_db, rows);
    batches_in_order_rebuild_the_rows(t, src_db, outbox::drained(DrainView::start(src_db), rows, seq![]).batches);
}

proof fn lemma_rows_in_seq_order(src_db: Seq<char>, rows: Seq<OutboxRowView>)
    requires
        outbox::by_seq(rows),
        outbox::events_of_rows(src_db, rows) is Ok,
    ensures
        in_seq_order(src_db, outbox::events_of_rows(src_db, rows)->Ok_0),
{
    let events = outbox::events_of_rows(src_db, rows)->Ok_0;
    outbox::lemma_events_keep_seq(src_db, rows);
    assert forall|i: int, j: int| #![trigger events[i], events[j]] 0 <= i < j < events.len() implies events[i].seq
        < events[j].seq by {
        assert(rows[i].seq < rows[j].seq);
    }
}

/// What a snapshot spools rebuilds the live rows of its database: whoever applies the batches, with
/// nothing of that database seen from the first number on, has the pending changes and behind them
/// every row of every captured table as it was.
pub proof fn snapshot_rebuilds_the_rows(
    t: TablesView,
    src_db: Seq<char>,
    min_seq: Option<i64>,
    pending: Seq<OutboxRowView>,
    tables: Seq<TableView>,
    contents: Seq<Seq<RowSnap>>,
    ts: i64,
    stored: i64,
)
    requires
        outbox::by_seq(pending),
        forall|i: int| 0 <= i < pending.len() ==> (#[trigger] pending[i]).seq <= stored,
        outbox::events_of_rows(src_db, pending) is Ok,
        contents.len() == tables.len(),
        forall|i: int| 0 <= i < contents.len() && !tables[i].without_rowid ==> table::by_rowid(#[trigger] contents[i]),
        snapshot::raised(stored, min_seq) + snapshot::total_rows(contents, tables.len()) <= i64::MAX,
        seen_below(
            t,
            src_db,
            if pending.len() > 0 {
                pending[0].seq as int
            } else {
                snapshot::raised(stored, min_seq) + 1
            },
        ),
    ensures
        ({
            let end = snapshot::snapshot_run(src_db, min_seq, pending, tables, contents, ts, stored);
            applied_batches(t, end.batches).current == rebuilt(
                rebuilt(t.current, outbox::events_of_rows(src_db, pending)->Ok_0),
                snapshot::tables_events(
                    src_db,
                    tables,
                    contents,
                    ts,
                    snapshot::raised(stored, min_seq) + 1,
                    tables.len(),
                ),
            )
        }),
{
    let n = tables.len();
    let floor = snapshot::raised(stored, min_seq);
    let end = snapshot::snapshot_run(src_db, min_seq, pending, tables, contents, ts, stored);
    let changes = outbox::events_of_rows(src_db, pending)->Ok_0;
    let inserts = snapshot::tables_events(src_db, tables, contents, ts, floor + 1, n);
    let events = end.batches.flatten();
    snapshot::snapshot_spools_every_row(src_db, min_seq, pending, tables, contents, ts, stored);
    outbox::lemma_events_keep_seq(src_db, pending);
    lemma_inserts_of(src_db, tables, contents, ts, floor + 1, n);
    assert(in_seq_order(src_db, events)) by {
        assert forall|i: int| 0 <= i < events.len() implies (#[trigger] events[i]).src_db == src_db by {
            if i < changes.len() {
                assert(events[i] == changes[i]);
            } else {
                assert(events[i] == inserts[i - changes.len()]);
            }
        }
        assert forall|i: int, j: int| #![trigger events[i], events[j]] 0 <= i < j < events.len() implies events[i].seq
            < events[j].seq by {
            if j < pending.len() {
                assert(pending[i].seq < pending[j].seq);
            } else if i < pending.len() {
                assert(pending[i].seq <= stored);
            }
        }
    }
    batches_in_order_rebuild_the_rows(t, src_db, end.batches);
    lemma_rebuilt_concat(t.current, changes, inserts);
}

proof fn lemma_inserts_of(
    src_db: Seq<char>,
    tables: Seq<TableView>,
    contents: Seq<Seq<RowSnap>>,
    ts: i64,
    first: int,
    n: nat,
)
    ensures
        forall|i: int|
            0 <= i < snapshot::tables_events(src_db, tables, contents, ts, first, n).len() ==> (
            #[trigger] snapshot::tables_events(src_db, tables, contents, ts, first, n)[i]).src_db == src_db,
    decreases n,
{
    if n > 0 {
        lemma_inserts_of(src_db, tables, contents, ts, first, (n - 1) as nat);
    }
}

/// A deletion in the log that is later than `seq` and about the same row as an event.
pub open spec fn later_deletion(t: TablesView, row: RowKeyView, seq: i64) -> bool {
    exists|k: EventKeyView| #[trigger] t.events.contains_key(k) && deletes(t.events[k], row) && t.events[k].seq > seq
}

/// An insertion or update with a payload, whose number is not taken, writes its payload, number and time
/// to its row, whatever else the event holds, unless a later deletion of the row is logged or the row is
/// as new. No other row changes.
pub proof fn a_new_payload_is_written(t: TablesView, e: EventView, payload: serde_json::Value)
    requires
        !t.events.contains_key((EventKeyView { src_db: e.src_db, seq: e.seq })),
        e.op != "D"@,
        e.after == Some(payload),
    ensures
        ({
            let row = RowKeyView { src_db: e.src_db, tbl: e.tbl, key: tables::key_of(e.key) };
            apply::applied_one(t, e).current == (if later_deletion(t, row, e.seq) || (t.current.contains_key(row)
                && t.current[row].seq >= e.seq) {
                t.current
            } else {
                t.current.insert(row, Live { after: payload, seq: e.seq, ts: e.ts })
            })
        }),
{
    let row = RowKeyView { src_db: e.src_db, tbl: e.tbl, key: tables::key_of(e.key) };
    let logged = t.with_event(e);
    if later_deletion(t, row, e.seq) {
        let k = choose|k: EventKeyView| #[trigger]
            t.events.contains_key(k) && deletes(t.events[k], row) && t.events[k].seq > e.seq;
        assert(logged.events.contains_key(k) && tables::retires(logged.events[k], row, e.seq));
    } else {
        assert forall|k: EventKeyView| #[trigger] logged.events.contains_key(k) implies !tables::retires(
            logged.events[k],
            row,
            e.seq,
        ) by {
            if k != tables::event_key(e) {
                assert(t.events.contains_key(k));
            }
        }
    }
}

/// A deletion whose number is not taken takes away its row and no other.
pub proof fn a_new_deletion_takes_its_row(t: TablesView, e: EventView)
    requires
        !t.events.contains_key((EventKeyView { src_db: e.src_db, seq: e.seq })),
        e.op == "D"@,
    ensures
        apply::applied_one(t, e).current == t.current.remove(
            RowKeyView { src_db: e.src_db, tbl: e.tbl, key: tables::key_of(e.key) },
        ),
{
}

/// An event whose number is taken, and an insertion or update without a payload, touches no row.
pub proof fn a_known_number_touches_no_row(t: TablesView, e: EventView)
    requires
        t.events.contains_key((EventKeyView { src_db: e.src_db, seq: e.seq })) || (e.op != "D"@ && e.after is None),
    ensures
        apply::applied_one(t, e).current == t.current,
{
}

/// Every event is logged as it is under its database and number, unless that number is taken, and raises
/// the watermark of its database to its number where it is lower.
pub proof fn an_event_is_logged_and_marked(t: TablesView, e: EventView)
    ensures
        ({
            let k = EventKeyView { src_db: e.src_db, seq: e.seq };
            let after = apply::applied_one(t, e);
            &&& after.events == (if t.events.contains_key(k) {
                t.events
            } else {
                t.events.insert(k, e)
            })
            &&& after.watermarks == t.watermarks.insert(
                e.src_db,
                if t.watermarks.contains_key(e.src_db) && t.watermarks[e.src_db] > e.seq {
                    t.watermarks[e.src_db]
                } else {
                    e.seq
                },
            )
        }),
{
}

/// Events are applied one after the other. What an application then takes away is the live rows of the
/// first event's database under a later deletion, and nothing else: other rows stay as they are, and so
/// do the log and the watermarks.
pub proof fn events_are_applied_in_turn(t: TablesView, events: Seq<EventView>, e: EventView)
    ensures
        apply::applied_each(t, seq![]) == t,
        apply::applied(t, seq![]) == t,
        apply::applied_each(t, events.push(e)) == apply::applied_one(apply::applied_each(t, events), e),
        ({
            let each = apply::applied_each(t, events);
            let after = apply::applied(t, events);
            &&& after.events == each.events
            &&& after.watermarks == each.watermarks
            &&& forall|row: RowKeyView| #[trigger]
                after.current.contains_key(row) <==> each.current.contains_key(row) && !(events.len() > 0 && row.src_db
                    == events[0].src_db && later_deletion(each, row, each.current[row].seq))
            &&& forall|row: RowKeyView| #[trigger]
                after.current.contains_key(row) ==> after.current[row] == each.current[row]
        }),
{
    assert(events.push(e).drop_last() =~= events);
    let each = apply::applied_each(t, events);
    let after = apply::applied(t, events);
    assert forall|row: RowKeyView, seq: i64| each.retired(row, seq) == #[trigger] later_deletion(each, row, seq) by {
        if each.retired(row, seq) {
            let k = choose|k: EventKeyView| #[trigger]
                each.events.contains_key(k) && tables::retires(each.events[k], row, seq);
            assert(each.events.contains_key(k) && deletes(each.events[k], row) && each.events[k].seq > seq);
        }
        if later_deletion(each, row, seq) {
            let k = choose|k: EventKeyView| #[trigger]
                each.events.contains_key(k) && deletes(each.events[k], row) && each.events[k].seq > seq;
            assert(each.events.contains_key(k) && tables::retires(each.events[k], row, seq));
        }
    }
    assert forall|row: RowKeyView| #[trigger] after.current.contains_key(row) <==> each.current.contains_key(row) && !(
    events.len() > 0 && row.src_db == events[0].src_db && later_deletion(each, row, each.current[row].seq)) by {
        assert(each.retired(row, each.current[row].seq) == later_deletion(each, row, each.current[row].seq));
    }
}

/// An application of one event with a payload, newer than everything known of its row, leaves that
/// payload as the live row.
pub proof fn one_event_is_the_live_row(t: TablesView, e: EventView, payload: serde_json::Value)
    requires
        !t.events.contains_key((EventKeyView { src_db: e.src_db, seq: e.seq })),
        e.op != "D"@,
        e.after == Some(payload),
        ({
            let row = RowKeyView { src_db: e.src_db, tbl: e.tbl, key: tables::key_of(e.key) };
            &&& !later_deletion(t, row, e.seq)
            &&& t.current.contains_key(row) ==> t.current[row].seq < e.seq
        }),
    ensures
        ({
            let row = RowKeyView { src_db: e.src_db, tbl: e.tbl, key: tables::key_of(e.key) };
            let after = apply::applied(t, seq![e]);
            after.current.contains_key(row) && after.current[row] == (Live { after: payload, seq: e.seq, ts: e.ts })
        }),
{
    let none = Seq::<EventView>::empty();
    let row = RowKeyView { src_db: e.src_db, tbl: e.tbl, key: tables::key_of(e.key) };
    events_are_applied_in_turn(t, none, e);
    assert(none.push(e) =~= seq![e]);
    events_are_applied_in_turn(t, seq![e], e);
    a_new_payload_is_written(t, e, payload);
    let each = apply::applied_each(t, seq![e]);
    assert(each == apply::applied_one(t, e));
    an_event_is_logged_and_marked(t, e);
    if later_deletion(each, row, e.seq) {
        let k = choose|k: EventKeyView| #[trigger]
            each.events.contains_key(k) && deletes(each.events[k], row) && each.events[k].seq > e.seq;
        assert(t.events.contains_key(k));
    }
    assert(apply::applied(t, seq![e]).current.contains_key(row));
}

/// As many events are new as the log grows by.
pub proof fn new_events_are_what_the_log_grows_by(t: TablesView, events: Seq<EventView>)
    requires
        t.events.dom().finite(),
    ensures
        apply::applied(t, events).events.dom().finite(),
        apply::applied(t, events).events.dom().len() == t.events.dom().len() + apply::newly_logged(t, events),
    decreases events.len(),
{
    if events.len() > 0 {
        let prior = events.drop_last();
        let e = events.last();
        new_events_are_what_the_log_grows_by(t, prior);
        let before = apply::applied_each(t, prior);
        assert(before.events == apply::applied(t, prior).events);
        an_event_is_logged_and_marked(before, e);
        assert(before.events.insert(tables::event_key(e), e).dom() =~= before.events.dom().insert(tables::event_key(e)));
    }
}

/// A row is found by its database, its table and its key; an event is logged under its database and its
/// number; a key is its compact JSON text with every number in the one form for its value.
pub proof fn rows_and_events_by_their_keys(e: EventView, f: EventView)
    ensures
        tables::row_key(e) == tables::row_key(f) <==> e.src_db == f.src_db && e.tbl == f.tbl && tables::key_of(e.key)
            == tables::key_of(f.key),
        tables::event_key(e) == tables::event_key(f) <==> e.src_db == f.src_db && e.seq == f.seq,
        tables::key_of(e.key) == crate::keytext::normal_json(crate::json::json_text(e.key), false),
{
}

/// Each operation on the tables changes its own table only, and in it the entry of its own key only.
pub proof fn each_operation_changes_its_own_entry(t: TablesView, e: EventView, payload: serde_json::Value)
    ensures
        ({
            let k = EventKeyView { src_db: e.src_db, seq: e.seq };
            let row = RowKeyView { src_db: e.src_db, tbl: e.tbl, key: tables::key_of(e.key) };
            &&& t.with_event(e).current == t.current && t.with_event(e).watermarks == t.watermarks
            &&& t.with_event(e).events == (if t.events.contains_key(k) {
                t.events
            } else {
                t.events.insert(k, e)
            })
            &&& t.without_row(e).events == t.events && t.without_row(e).watermarks == t.watermarks
            &&& t.without_row(e).current == t.current.remove(row)
            &&& t.with_row(e, payload).events == t.events && t.with_row(e, payload).watermarks == t.watermarks
            &&& t.with_row(e, payload).current == (if later_deletion(t, row, e.seq) || (t.current.contains_key(row)
                && t.current[row].seq >= e.seq) {
                t.current
            } else {
                t.current.insert(row, Live { after: payload, seq: e.seq, ts: e.ts })
            })
            &&& t.with_watermark(e.src_db, e.seq).events == t.events && t.with_watermark(e.src_db, e.seq).current
                == t.current
        }),
{
    let row = RowKeyView { src_db: e.src_db, tbl: e.tbl, key: tables::key_of(e.key) };
    if later_deletion(t, row, e.seq) {
        let k = choose|k: EventKeyView| #[trigger]
            t.events.contains_key(k) && deletes(t.events[k], row) && t.events[k].seq > e.seq;
        assert(t.events.contains_key(k) && tables::retires(t.events[k], row, e.seq));
    } else if t.retired(row, e.seq) {
        let k = choose|k: EventKeyView| #[trigger]
            t.events.contains_key(k) && tables::retires(t.events[k], row, e.seq);
        assert(t.events.contains_key(k) && deletes(t.events[k], row) && t.events[k].seq > e.seq);
    }
}

} // verus!
