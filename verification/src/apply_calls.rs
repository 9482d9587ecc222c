//! What callers of the applyer rely on: each law takes the arguments of one call and what came of it.

use vstd::prelude::*;

use crate::apply;
use crate::apply::{apply_events, apply_file, apply_spool, event_lines, file_events};
use crate::apply::{ApplyAction, ApplyPhase, ApplyRun, ApplyStats, EventLine, SpoolAction, SpoolPhase, SpoolRun};
use crate::event::{Event, EventView};
use crate::keyed::{Key, Keyed};
use crate::model;
use crate::replay;
use crate::tables;
use crate::tables::{EventKeyView, Live, RowKeyView, Tables};
use crate::text;

verus! {

/// `apply_events` on one insertion or update with a payload, whose number is not taken and that is newer
/// than everything known of its row, leaves that payload as the live row, whatever else the event holds.
pub proof fn applying_a_payload_writes_it(tables: &mut Tables, events: Vec<Event>, r: ApplyStats, payload: serde_json::Value)
    requires
        call_ensures(apply_events, (tables, events), r),
        events@.len() == 1,
        !old(tables)@.events.contains_key((EventKeyView { src_db: events@[0].src_db@, seq: events@[0].seq })),
        events@[0].op@ != "D"@,
        events@[0].after == Some(payload),
        ({
            let e = events@[0];
            let row = RowKeyView { src_db: e.src_db@, tbl: e.tbl@, key: tables::key_of(e.key) };
            &&& !replay::later_deletion(old(tables)@, row, e.seq)
            &&& old(tables)@.current.contains_key(row) ==> old(tables)@.current[row].seq < e.seq
        }),
    ensures
        r == (ApplyStats { files: 0, events: 1, inserted: 1 }),
        ({
            let e = events@[0];
            let row = RowKeyView { src_db: e.src_db@, tbl: e.tbl@, key: tables::key_of(e.key) };
            &&& final(tables)@.current.contains_key(row)
            &&& final(tables)@.current[row] == (Live { after: payload, seq: e.seq, ts: e.ts })
            &&& final(tables)@.events.contains_key((EventKeyView { src_db: e.src_db@, seq: e.seq }))
            &&& final(tables)@.events[EventKeyView { src_db: e.src_db@, seq: e.seq }] == e@
        }),
{
    let t = old(tables)@;
    let e = events@[0]@;
    let all = model::views(events@);
    assert(all =~= seq![e]);
    replay::one_event_is_the_live_row(t, e, payload);
    replay::events_are_applied_in_turn(t, seq![], e);
    replay::events_are_applied_in_turn(t, seq![e], e);
    replay::an_event_is_logged_and_marked(t, e);
    assert(Seq::<EventView>::empty().push(e) =~= seq![e]);
    reveal_with_fuel(apply::newly_logged, 2);
    assert(seq![e].drop_last() =~= Seq::<EventView>::empty());
}

/// `apply_events` on one deletion whose number is not taken takes its row away.
pub proof fn applying_a_deletion_takes_its_row(tables: &mut Tables, events: Vec<Event>, r: ApplyStats)
    requires
        call_ensures(apply_events, (tables, events), r),
        events@.len() == 1,
        !old(tables)@.events.contains_key((EventKeyView { src_db: events@[0].src_db@, seq: events@[0].seq })),
        events@[0].op@ == "D"@,
    ensures
        r == (ApplyStats { files: 0, events: 1, inserted: 1 }),
        ({
            let e = events@[0];
            !final(tables)@.current.contains_key(
                (RowKeyView { src_db: e.src_db@, tbl: e.tbl@, key: tables::key_of(e.key) }),
            )
        }),
{
    let t = old(tables)@;
    let e = events@[0]@;
    assert(model::views(events@) =~= seq![e]);
    replay::a_new_deletion_takes_its_row(t, e);
    replay::events_are_applied_in_turn(t, seq![], e);
    replay::events_are_applied_in_turn(t, seq![e], e);
    assert(Seq::<EventView>::empty().push(e) =~= seq![e]);
    let row = RowKeyView { src_db: e.src_db, tbl: e.tbl, key: tables::key_of(e.key) };
    assert(!apply::applied(t, seq![e]).current.contains_key(row));
    reveal_with_fuel(apply::newly_logged, 2);
    assert(seq![e].drop_last() =~= Seq::<EventView>::empty());
}

/// `apply_events` applies every event in order, and counts the events and what the log grew by.
pub proof fn applying_events_counts_them(tables: &mut Tables, events: Vec<Event>, r: ApplyStats)
    requires
        call_ensures(apply_events, (tables, events), r),
        old(tables)@.events.dom().finite(),
    ensures
        final(tables)@ == apply::applied(old(tables)@, model::views(events@)),
        r.files == 0,
        r.events == events@.len(),
        r.inserted == final(tables)@.events.dom().len() - old(tables)@.events.dom().len(),
{
    assert(events.len() == events@.len());
    replay::new_events_are_what_the_log_grows_by(old(tables)@, model::views(events@));
    apply::lemma_newly_logged_bound(old(tables)@, model::views(events@));
}

/// After `ApplyRun::logged` the row of the event at hand is taken away if the event is a deletion, and
/// written if it is anything else with a payload, but only where the event was new in the log.
pub proof fn logging_decides_what_comes_of_the_row(run: &mut ApplyRun, n: usize)
    requires
        call_ensures(ApplyRun::logged, (run, n), ()),
        old(run)@.at < old(run)@.events.len(),
    ensures
        ({
            let e = old(run)@.events[old(run)@.at as int];
            let phase = final(run)@.phase;
            &&& phase == ApplyPhase::Delete <==> n > 0 && e.op == "D"@
            &&& phase == ApplyPhase::Upsert <==> n > 0 && e.op != "D"@ && e.after is Some
            &&& phase == ApplyPhase::Watermark <==> n == 0 || (e.op != "D"@ && e.after is None)
            &&& final(run)@.events == old(run)@.events
            &&& final(run)@.at == old(run)@.at
            &&& final(run)@.inserted == old(run)@.inserted + n
        }),
{
}

/// `ApplyRun::row_done` leads to the watermark of the same event.
pub proof fn behind_the_row_comes_the_watermark(run: &mut ApplyRun)
    requires
        call_ensures(ApplyRun::row_done, (run,), ()),
    ensures
        final(run)@.phase == ApplyPhase::Watermark,
        final(run)@.events == old(run)@.events,
        final(run)@.at == old(run)@.at,
        final(run)@.inserted == old(run)@.inserted,
{
}

/// `ApplyRun::marked` leads to the next event, and behind the last one to the rows under later deletions.
pub proof fn behind_the_watermark_comes_the_next_event(run: &mut ApplyRun)
    requires
        call_ensures(ApplyRun::marked, (run,), ()),
    ensures
        final(run)@.at == old(run)@.at + 1,
        final(run)@.phase == (if old(run)@.at + 1 < old(run)@.events.len() {
            ApplyPhase::Insert
        } else {
            ApplyPhase::Retract
        }),
        final(run)@.events == old(run)@.events,
        final(run)@.inserted == old(run)@.inserted,
{
}

/// `ApplyRun::retracted` ends an application.
pub proof fn behind_the_retraction_comes_the_end(run: &mut ApplyRun)
    requires
        call_ensures(ApplyRun::retracted, (run,), ()),
    ensures
        final(run)@.phase == ApplyPhase::Done,
        final(run)@.events == old(run)@.events,
        final(run)@.at == old(run)@.at,
        final(run)@.inserted == old(run)@.inserted,
{
}

/// `ApplyRun::new` starts with the first event, and has nothing to do without one.
pub proof fn an_application_starts_with_the_first_event(events: Vec<Event>, run: ApplyRun)
    requires
        call_ensures(ApplyRun::new, (events,), run),
    ensures
        run@.events == model::views(events@),
        run@.at == 0,
        run@.inserted == 0,
        run@.phase == (if events@.len() == 0 {
            ApplyPhase::Done
        } else {
            ApplyPhase::Insert
        }),
{
}

/// `ApplyRun::action` asks for what the phase is about, for the event at hand.
pub proof fn an_application_asks_by_its_phase(run: &ApplyRun, r: ApplyAction)
    requires
        call_ensures(ApplyRun::action, (run,), r),
    ensures
        run@.phase == ApplyPhase::Insert ==> r == (ApplyAction::Insert { index: run@.at as usize }),
        run@.phase == ApplyPhase::Delete ==> r == (ApplyAction::Delete { index: run@.at as usize }),
        run@.phase == ApplyPhase::Upsert ==> r == (ApplyAction::Upsert { index: run@.at as usize }),
        run@.phase == ApplyPhase::Watermark ==> r == (ApplyAction::Watermark { index: run@.at as usize }),
        run@.phase == ApplyPhase::Retract ==> r == ApplyAction::Retract,
        run@.phase == ApplyPhase::Done ==> r == ApplyAction::Done,
{
}

/// `ApplyRun::stats` counts the events and those that were new, and `ApplyRun::events` gives them all.
pub proof fn an_application_counts_its_events(run: &ApplyRun, stats: ApplyStats, events: &Vec<Event>)
    requires
        call_ensures(ApplyRun::stats, (run,), stats),
        call_ensures(ApplyRun::events, (run,), events),
    ensures
        stats == (ApplyStats { files: 0, events: run@.events.len() as usize, inserted: run@.inserted as usize }),
        events@.len() == run@.events.len(),
        forall|i: int| 0 <= i < events@.len() ==> (#[trigger] events@[i])@ == run@.events[i],
{
    assert forall|i: int| 0 <= i < events@.len() implies (#[trigger] events@[i])@ == run@.events[i] by {
        assert(model::views(events@)[i] == events@[i]@);
    }
}

/// `event_lines` gives every line with a character that is no white space, each with its number, and no
/// other.
pub proof fn event_lines_are_the_lines_with_text(body: &str, r: Vec<EventLine>)
    requires
        call_ensures(event_lines, (body,), r),
    ensures
        model::views(r@) == apply::not_blank(text::lines_of(body@)),
        forall|i: int|
            0 <= i < r@.len() ==> {
                let line = #[trigger] r@[i];
                &&& 1 <= line.number <= text::lines_of(body@).len()
                &&& line.text@ == text::lines_of(body@)[line.number - 1]
                &&& exists|k: int| 0 <= k < line.text@.len() && !text::is_space(#[trigger] line.text@[k])
            },
        forall|n: int|
            0 <= n < text::lines_of(body@).len() && !text::is_blank(#[trigger] text::lines_of(body@)[n]) ==> exists|i: int|
                0 <= i < r@.len() && (#[trigger] r@[i]).number == n + 1,
{
    let all = text::lines_of(body@);
    lemma_not_blank(all);
    assert forall|i: int| 0 <= i < r@.len() implies {
        let line = #[trigger] r@[i];
        &&& 1 <= line.number <= all.len()
        &&& line.text@ == all[line.number - 1]
        &&& exists|k: int| 0 <= k < line.text@.len() && !text::is_space(#[trigger] line.text@[k])
    } by {
        assert(model::views(r@)[i] == r@[i]@);
    }
    assert forall|n: int| 0 <= n < all.len() && !text::is_blank(#[trigger] all[n]) implies exists|i: int|
        0 <= i < r@.len() && (#[trigger] r@[i]).number == n + 1 by {
        let i = choose|i: int|
            0 <= i < apply::not_blank(all).len() && (#[trigger] apply::not_blank(all)[i]).number == n + 1;
        assert(model::views(r@)[i] == r@[i]@);
    }
}

proof fn lemma_not_blank(all: Seq<Seq<char>>)
    ensures
        forall|i: int|
            0 <= i < apply::not_blank(all).len() ==> {
                let line = #[trigger] apply::not_blank(all)[i];
                &&& 1 <= line.number <= all.len()
                &&& line.text == all[line.number - 1]
                &&& !text::is_blank(line.text)
            },
        forall|n: int|
            0 <= n < all.len() && !text::is_blank(#[trigger] all[n]) ==> exists|i: int|
                0 <= i < apply::not_blank(all).len() && (#[trigger] apply::not_blank(all)[i]).number == n + 1,
    decreases all.len(),
{
    if all.len() > 0 {
        let prior = all.drop_last();
        lemma_not_blank(prior);
        let before = apply::not_blank(prior);
        let after = apply::not_blank(all);
        assert forall|i: int| 0 <= i < after.len() implies {
            let line = #[trigger] after[i];
            &&& 1 <= line.number <= all.len()
            &&& line.text == all[line.number - 1]
            &&& !text::is_blank(line.text)
        } by {
            if i < before.len() {
                assert(after[i] == before[i]);
            }
        }
        assert forall|n: int| 0 <= n < all.len() && !text::is_blank(#[trigger] all[n]) implies exists|i: int|
            0 <= i < after.len() && (#[trigger] after[i]).number == n + 1 by {
            if n < prior.len() {
                assert(prior[n] == all[n]);
                let i = choose|i: int| 0 <= i < before.len() && (#[trigger] before[i]).number == n + 1;
                assert(after[i] == before[i]);
            } else {
                assert(after[after.len() - 1].number == n + 1);
            }
        }
    }
}

/// `file_events` gives the event of every line, in order, where every line holds one, and else the number
/// of the first line that holds none.
pub proof fn file_events_are_those_of_every_line(
    lines: &Vec<EventLine>,
    parsed: Vec<Option<Event>>,
    r: Result<Vec<Event>, usize>,
)
    requires
        call_ensures(file_events, (lines, parsed), r),
        lines@.len() == parsed@.len(),
    ensures
        match r {
            Ok(events) => {
                &&& events@.len() == parsed@.len()
                &&& forall|i: int|
                    0 <= i < parsed@.len() ==> (#[trigger] parsed@[i]) is Some && parsed@[i]->0@ == events@[i]@
            },
            Err(number) => exists|bad: int|
                {
                    &&& 0 <= bad < parsed@.len()
                    &&& (#[trigger] parsed@[bad]) is None
                    &&& number == lines@[bad].number
                    &&& forall|i: int| 0 <= i < bad ==> (#[trigger] parsed@[i]) is Some
                },
        },
{
    let all = apply::parsed_views(parsed@);
    let ls = model::views(lines@);
    apply::batch_is_taken_whole(ls, all);
    assert forall|i: int| 0 <= i < parsed@.len() implies all[i] == #[trigger] model::option_view(parsed@[i]) by {}
    match r {
        Ok(events) => {
            assert forall|i: int| 0 <= i < parsed@.len() implies (#[trigger] parsed@[i]) is Some && parsed@[i]->0@
                == events@[i]@ by {
                assert(all[i] == model::option_view(parsed@[i]));
                assert(model::views(events@)[i] == events@[i]@);
                assert(all[i] == Some(model::views(events@)[i]));
            }
        },
        Err(number) => {
            let bad = choose|bad: int|
                {
                    &&& 0 <= bad < all.len()
                    &&& number == (#[trigger] ls[bad]).number
                    &&& all[bad] is None
                    &&& forall|i: int| 0 <= i < bad ==> (#[trigger] all[i]) is Some
                };
            assert(all[bad] == model::option_view(parsed@[bad]));
            assert(ls[bad] == lines@[bad]@);
            assert forall|i: int| 0 <= i < bad implies (#[trigger] parsed@[i]) is Some by {
                assert(all[i] == model::option_view(parsed@[i]));
                assert(all[i] is Some);
            }
            assert(parsed@[bad] is None);
        },
    }
}

/// `apply_file` takes a batch whole, or leaves the tables as they are.
pub proof fn a_file_is_applied_whole(
    tables: &mut Tables,
    lines: &Vec<EventLine>,
    parsed: Vec<Option<Event>>,
    r: Result<ApplyStats, usize>,
)
    requires
        call_ensures(apply_file, (tables, lines, parsed), r),
        lines@.len() == parsed@.len(),
    ensures
        r is Ok <==> forall|i: int| 0 <= i < parsed@.len() ==> (#[trigger] parsed@[i]) is Some,
        r is Err ==> final(tables)@ == old(tables)@,
        r is Ok ==> final(tables)@ == apply::applied(
            old(tables)@,
            Seq::new(parsed@.len(), |i: int| parsed@[i]->0@),
        ),
{
    let all = apply::parsed_views(parsed@);
    let ls = model::views(lines@);
    apply::batch_is_taken_whole(ls, all);
    assert forall|i: int| 0 <= i < parsed@.len() implies all[i] == #[trigger] model::option_view(parsed@[i]) by {}
    if forall|i: int| 0 <= i < parsed@.len() ==> (#[trigger] parsed@[i]) is Some {
        assert forall|i: int| 0 <= i < all.len() implies (#[trigger] all[i]) is Some by {
            assert(all[i] == model::option_view(parsed@[i]));
            assert(parsed@[i] is Some);
        }
    }
    if forall|i: int| 0 <= i < all.len() ==> (#[trigger] all[i]) is Some {
        assert forall|i: int| 0 <= i < parsed@.len() implies (#[trigger] parsed@[i]) is Some by {
            assert(all[i] == model::option_view(parsed@[i]));
            assert(all[i] is Some);
        }
    }
    if let Ok(events) = apply::events_of_file(ls, all) {
        assert forall|i: int| 0 <= i < events.len() implies events[i] == parsed@[i]->0@ by {
            assert(all[i] == model::option_view(parsed@[i]));
            assert(all[i] == Some(events[i]));
        }
        assert(events =~= Seq::new(parsed@.len(), |i: int| parsed@[i]->0@));
    }
}

/// `apply_spool` starts with the first file, and has nothing to do without one.
pub proof fn a_spool_starts_with_the_first_file(files: usize, delete_after: bool, run: SpoolRun)
    requires
        call_ensures(apply_spool, (files, delete_after), run),
    ensures
        run.files == files,
        run.delete_after == delete_after,
        run.at == 0,
        run.stats == (ApplyStats { files: 0, events: 0, inserted: 0 }),
        run.phase == (if files == 0 {
            SpoolPhase::Done
        } else {
            SpoolPhase::Apply
        }),
{
}

/// `SpoolRun::action` asks for what the phase is about, for the file at hand.
pub proof fn a_spool_asks_by_its_phase(run: &SpoolRun, r: SpoolAction)
    requires
        call_ensures(SpoolRun::action, (run,), r),
    ensures
        run.phase == SpoolPhase::Apply ==> r == (SpoolAction::Apply { index: run.at }),
        run.phase == SpoolPhase::Remove ==> r == (SpoolAction::Remove { index: run.at }),
        run.phase == SpoolPhase::Done ==> r == SpoolAction::Done,
{
}

/// `SpoolRun::applied` counts the file with its events. Where files are removed, that comes next; else the
/// next file does, and behind the last one the end.
pub proof fn an_applied_file_counts(run: &mut SpoolRun, s: ApplyStats)
    requires
        call_ensures(SpoolRun::applied, (run, s), ()),
        old(run).at < old(run).files,
        old(run).stats.files < usize::MAX,
        old(run).stats.events + s.events <= usize::MAX,
        old(run).stats.inserted + s.inserted <= usize::MAX,
    ensures
        final(run).files == old(run).files,
        final(run).delete_after == old(run).delete_after,
        final(run).stats.files == old(run).stats.files + 1,
        final(run).stats.events == old(run).stats.events + s.events,
        final(run).stats.inserted == old(run).stats.inserted + s.inserted,
        old(run).delete_after ==> final(run).at == old(run).at && final(run).phase == SpoolPhase::Remove,
        !old(run).delete_after ==> final(run).at == old(run).at + 1 && final(run).phase == (if old(run).at + 1
            < old(run).files {
            SpoolPhase::Apply
        } else {
            SpoolPhase::Done
        }),
{
}

/// `SpoolRun::removed` leads to the next file, and behind the last one to the end.
pub proof fn behind_a_removed_file_comes_the_next(run: &mut SpoolRun)
    requires
        call_ensures(SpoolRun::removed, (run,), ()),
        old(run).at < old(run).files,
    ensures
        final(run).files == old(run).files,
        final(run).delete_after == old(run).delete_after,
        final(run).stats == old(run).stats,
        final(run).at == old(run).at + 1,
        final(run).phase == (if old(run).at + 1 < old(run).files {
            SpoolPhase::Apply
        } else {
            SpoolPhase::Done
        }),
{
}

/// `Tables::new` gives tables without rows.
pub proof fn new_tables_are_empty(tables: Tables)
    requires
        call_ensures(Tables::new, (), tables),
    ensures
        tables@.events.dom() =~= Set::empty(),
        tables@.current.dom() =~= Set::empty(),
        tables@.watermarks.dom() =~= Set::empty(),
{
}

/// `Tables::event`, `Tables::live` and `Tables::watermark` give what stands under the key, and nothing
/// where nothing does.
pub proof fn tables_give_what_stands_under_the_key(
    tables: &Tables,
    src_db: &str,
    seq: i64,
    tbl: &str,
    key: &serde_json::Value,
    event: Option<&Event>,
    live: Option<&Live>,
    last: Option<i64>,
)
    requires
        call_ensures(Tables::event, (tables, src_db, seq), event),
        call_ensures(Tables::live, (tables, src_db, tbl, key), live),
        call_ensures(Tables::watermark, (tables, src_db), last),
    ensures
        ({
            let k = EventKeyView { src_db: src_db@, seq };
            let row = RowKeyView { src_db: src_db@, tbl: tbl@, key: tables::key_of(*key) };
            &&& event is Some <==> tables@.events.contains_key(k)
            &&& event matches Some(e) ==> e@ == tables@.events[k]
            &&& live is Some <==> tables@.current.contains_key(row)
            &&& live matches Some(found) ==> *found == tables@.current[row]
            &&& last is Some <==> tables@.watermarks.contains_key(src_db@)
            &&& last matches Some(seq) ==> seq == tables@.watermarks[src_db@]
        }),
{
}

/// `Tables::insert_event` logs an event under its database and number unless that is taken, and says how
/// many it logged.
pub proof fn an_event_is_logged_once(tables: &mut Tables, e: &Event, n: usize)
    requires
        call_ensures(Tables::insert_event, (tables, e), n),
    ensures
        ({
            let k = EventKeyView { src_db: e.src_db@, seq: e.seq };
            &&& n == 0 <==> old(tables)@.events.contains_key(k)
            &&& n <= 1
            &&& n == 0 ==> final(tables)@ == old(tables)@
            &&& n == 1 ==> final(tables)@.events == old(tables)@.events.insert(k, e@)
            &&& final(tables)@.current == old(tables)@.current
            &&& final(tables)@.watermarks == old(tables)@.watermarks
        }),
{
}

/// `Tables::delete_row` takes away the row of an event and nothing else.
pub proof fn a_row_is_taken_away(tables: &mut Tables, e: &Event)
    requires
        call_ensures(Tables::delete_row, (tables, e), ()),
    ensures
        final(tables)@.current == old(tables)@.current.remove(
            RowKeyView { src_db: e.src_db@, tbl: e.tbl@, key: tables::key_of(e.key) },
        ),
        final(tables)@.events == old(tables)@.events,
        final(tables)@.watermarks == old(tables)@.watermarks,
{
}

/// `Tables::upsert_row` writes the payload, number and time to the row of an event, unless a later deletion
/// of it is logged or the row is as new.
pub proof fn a_row_is_written(tables: &mut Tables, e: &Event, after: &serde_json::Value)
    requires
        call_ensures(Tables::upsert_row, (tables, e, after), ()),
    ensures
        ({
            let row = RowKeyView { src_db: e.src_db@, tbl: e.tbl@, key: tables::key_of(e.key) };
            let t = old(tables)@;
            final(tables)@.current == (if replay::later_deletion(t, row, e.seq) || (t.current.contains_key(row)
                && t.current[row].seq >= e.seq) {
                t.current
            } else {
                t.current.insert(row, Live { after: *after, seq: e.seq, ts: e.ts })
            })
        }),
        final(tables)@.events == old(tables)@.events,
        final(tables)@.watermarks == old(tables)@.watermarks,
{
    replay::each_operation_changes_its_own_entry(old(tables)@, e@, *after);
}

/// `Tables::bump_watermark` raises the watermark of a database to a number where it is lower or missing.
pub proof fn a_watermark_is_raised(tables: &mut Tables, src_db: &str, seq: i64)
    requires
        call_ensures(Tables::bump_watermark, (tables, src_db, seq), ()),
    ensures
        ({
            let t = old(tables)@;
            final(tables)@.watermarks == t.watermarks.insert(
                src_db@,
                if t.watermarks.contains_key(src_db@) && t.watermarks[src_db@] > seq {
                    t.watermarks[src_db@]
                } else {
                    seq
                },
            )
        }),
        final(tables)@.events == old(tables)@.events,
        final(tables)@.current == old(tables)@.current,
{
}

/// `Tables::retract_stale` takes away exactly the live rows of a database under a later deletion.
pub proof fn rows_under_later_deletions_go(tables: &mut Tables, src_db: &str, row: RowKeyView)
    requires
        call_ensures(Tables::retract_stale, (tables, src_db), ()),
    ensures
        ({
            let t = old(tables)@;
            &&& final(tables)@.current.contains_key(row) <==> t.current.contains_key(row) && !(row.src_db == src_db@
                && replay::later_deletion(t, row, t.current[row].seq))
            &&& final(tables)@.current.contains_key(row) ==> final(tables)@.current[row] == t.current[row]
            &&& final(tables)@.events == t.events
            &&& final(tables)@.watermarks == t.watermarks
        }),
{
    let t = old(tables)@;
    let seq = t.current[row].seq;
    if t.retired(row, seq) {
        let k = choose|k: EventKeyView| #[trigger] t.events.contains_key(k) && tables::retires(t.events[k], row, seq);
        assert(t.events.contains_key(k) && replay::deletes(t.events[k], row) && t.events[k].seq > seq);
    }
    if replay::later_deletion(t, row, seq) {
        let k = choose|k: EventKeyView| #[trigger]
            t.events.contains_key(k) && replay::deletes(t.events[k], row) && t.events[k].seq > seq;
        assert(t.events.contains_key(k) && tables::retires(t.events[k], row, seq));
    }
}

/// `Tables::put_live` puts a row in place and changes nothing else.
pub proof fn a_row_is_put_in_place(tables: &mut Tables, src_db: &str, tbl: &str, key: &serde_json::Value, live: Live)
    requires
        call_ensures(Tables::put_live, (tables, src_db, tbl, key, live), ()),
    ensures
        final(tables)@.current == old(tables)@.current.insert(
            RowKeyView { src_db: src_db@, tbl: tbl@, key: tables::key_of(*key) },
            live,
        ),
        final(tables)@.events == old(tables)@.events,
        final(tables)@.watermarks == old(tables)@.watermarks,
{
}

/// `Keyed::get` gives what stands under a key.
pub proof fn a_key_gives_its_row<K: Key, V: View>(table: &Keyed<K, V>, k: &K, r: Option<&V>)
    requires
        call_ensures(Keyed::<K, V>::get, (table, k), r),
    ensures
        r is Some <==> table@.contains_key(k@),
        r is Some ==> r->0@ == table@[k@],
{
}

/// `Keyed::set` gives a key a row and leaves all others.
pub proof fn a_key_gets_its_row<K: Key, V: View>(table: &mut Keyed<K, V>, k: K, v: V)
    requires
        call_ensures(Keyed::<K, V>::set, (table, k, v), ()),
    ensures
        final(table)@.contains_key(k@),
        final(table)@[k@] == v@,
        forall|other: K::V|
            other != k@ ==> (#[trigger] final(table)@.contains_key(other) <==> old(table)@.contains_key(other)),
        forall|other: K::V|
            other != k@ && #[trigger] old(table)@.contains_key(other) ==> final(table)@[other] == old(table)@[other],
{
}

/// `Keyed::remove` takes the row of a key and leaves all others.
pub proof fn a_key_loses_its_row<K: Key, V: View>(table: &mut Keyed<K, V>, k: &K)
    requires
        call_ensures(Keyed::<K, V>::remove, (table, k), ()),
    ensures
        !final(table)@.contains_key(k@),
        forall|other: K::V|
            other != k@ ==> (#[trigger] final(table)@.contains_key(other) <==> old(table)@.contains_key(other)),
        forall|other: K::V|
            other != k@ && #[trigger] old(table)@.contains_key(other) ==> final(table)@[other] == old(table)@[other],
{
}

} // verus!
