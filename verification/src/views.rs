//! What the views show: every part of a value, each as it is.

use vstd::prelude::*;

use crate::announce;
use crate::announce::{Announce, AnnounceFile, FileName};
use crate::apply;
use crate::apply::EventLine;
use crate::collect;
use crate::collect::{DrainStats, Outcome, OutcomeView, ServeStep, ServeStepView};
use crate::error;
use crate::error::{CaptureError, ErrorView, JsonField};
use crate::event::Event;
use crate::model;
use crate::outbox;
use crate::outbox::OutboxRow;
use crate::schema::{CapturedTable, Col, Trigger};
use crate::spool::{BatchFile, SpoolFile};
use crate::tables::{EventKey, Live, RowKey};

verus! {

/// The views of items are one for one and in order, and so for what is optional and for results.
pub proof fn items_are_seen_one_for_one<T: View, E: View>(s: Seq<T>, x: T, e: E)
    ensures
        model::views(s).len() == s.len(),
        forall|i: int| 0 <= i < s.len() ==> #[trigger] model::views(s)[i] == s[i]@,
        model::option_view(Some(x)) == Some(x@),
        model::option_view(None::<T>) is None,
        model::result_view(Ok::<T, E>(x)) == Ok::<T::V, E::V>(x@),
        model::result_view(Err::<T, E>(e)) == Err::<T::V, E::V>(e@),
{
}

/// Both sides of a result are seen as they are.
pub proof fn results_are_seen_as_they_are(
    events: Vec<Event>,
    stats: Vec<DrainStats>,
    found: Option<Announce>,
    parsed: Seq<Option<Event>>,
    number: usize,
    v: serde_json::Value,
    e: CaptureError,
)
    ensures
        error::refusal_view(Ok::<serde_json::Value, CaptureError>(v)) == Ok::<serde_json::Value, ErrorView>(v),
        error::refusal_view(Err::<serde_json::Value, CaptureError>(e)) == Err::<serde_json::Value, ErrorView>(e@),
        outbox::events_view(Ok(events)) == Ok::<_, ErrorView>(model::views(events@)),
        outbox::events_view(Err(e)) is Err && outbox::events_view(Err(e))->Err_0 == e@,
        collect::reports_view(Ok(stats)) == Ok::<_, ErrorView>(model::views(stats@)),
        collect::reports_view(Err(e)) is Err && collect::reports_view(Err(e))->Err_0 == e@,
        announce::announce_view(Ok(found)) == Ok::<_, ErrorView>(model::option_view(found)),
        announce::announce_view(Err(e)) is Err && announce::announce_view(Err(e))->Err_0 == e@,
        apply::file_view(Ok(events)) == Ok::<_, nat>(model::views(events@)),
        apply::file_view(Err(number)) is Err && apply::file_view(Err(number))->Err_0 == number,
        apply::parsed_views(parsed).len() == parsed.len(),
        forall|i: int| 0 <= i < parsed.len() ==> #[trigger] apply::parsed_views(parsed)[i] == model::option_view(parsed[i]),
{
}

/// Every field of an event and of an `_outbox` row is seen as it is.
pub proof fn events_are_seen_whole(event: Event, row: OutboxRow)
    ensures
        ({
            let seen = event@;
            &&& seen.src_db == event.src_db@ && seen.seq == event.seq && seen.tbl == event.tbl@ && seen.op == event.op@
            &&& seen.ts == event.ts && seen.key == event.key
            &&& seen.before == event.before && seen.after == event.after
        }),
        ({
            let seen = row@;
            &&& seen.seq == row.seq && seen.tbl == row.tbl@ && seen.op == row.op@ && seen.ts == row.ts
            &&& seen.key == row.key@
            &&& seen.before == model::option_view(row.before)
            &&& seen.after == model::option_view(row.after)
        }),
{
}

/// Every field of an announcement is seen as it is.
pub proof fn announcements_are_seen_whole(a: Announce, file: AnnounceFile, name: FileName)
    ensures
        a@.db_name == a.db_name@ && a@.sqlite_path == a.sqlite_path@,
        file@.file == file.file@ && file@.parsed == model::option_view(file.parsed),
        name@ == name.bytes@,
{
}

/// Every field of a batch, of a file of the spool and of a line is seen as it is.
pub proof fn batches_are_seen_whole(batch: BatchFile, file: SpoolFile, line: EventLine)
    ensures
        batch@.dir == batch.dir@ && batch@.name == batch.name@ && batch@.tmp_name == batch.tmp_name@,
        file@.parent == model::option_view(file.parent) && file@.path == model::views(file.path@),
        line@.number == line.number && line@.text == line.text@,
{
}

/// Every field of a captured table, of its columns and of its trigger is seen as it is.
pub proof fn tables_are_seen_whole(col: Col, table: CapturedTable, trigger: Trigger)
    ensures
        col@.name == col.name@ && col@.pk == col.pk,
        table@.name == table.name@ && table@.pk == model::views(table.pk@) && table@.payload == model::views(
            table.payload@,
        ) && table@.without_rowid == table.without_rowid,
        trigger@.name == trigger.name@ && trigger@.sql == trigger.sql@,
{
}

/// Every field of a key and of a live row is seen as it is.
pub proof fn keys_are_seen_whole(event: EventKey, row: RowKey, live: Live)
    ensures
        event@.src_db == event.src_db@ && event@.seq == event.seq,
        row@.src_db == row.src_db@ && row@.tbl == row.tbl@ && row@.key == row.key@,
        live@ == live,
{
}

/// Every field of a report is seen as it is, and outcomes and steps as what they are.
pub proof fn reports_are_seen_whole(stats: DrainStats, name: String)
    ensures
        stats@.src_db == stats.src_db@ && stats@.rows == stats.rows,
        stats@.seq_lo == stats.seq_lo && stats@.seq_hi == stats.seq_hi,
        Outcome::Spooled(stats)@ == OutcomeView::Spooled(stats@),
        Outcome::Nothing@ == OutcomeView::Nothing,
        Outcome::Failed@ == OutcomeView::Failed,
        ServeStep::Clock@ == ServeStepView::Clock,
        ServeStep::DrainAll@ == ServeStepView::DrainAll,
        ServeStep::Receive@ == ServeStepView::Receive,
        ServeStep::DrainNamed(name)@ == ServeStepView::DrainNamed(name@),
        ServeStep::Stop@ == ServeStepView::Stop,
{
}

/// Every refusal is seen as what it is, with every one of its texts.
pub proof fn refusals_are_seen_whole(text: String, names: Vec<String>, seq: i64, field: JsonField)
    ensures
        (CaptureError::DbName { name: text })@ == (ErrorView::DbName { name: text@ }),
        (CaptureError::EmptySqlitePath { file: text })@ == (ErrorView::EmptySqlitePath { file: text@ }),
        (CaptureError::SqliteMissing { path: text })@ == (ErrorView::SqliteMissing { path: text@ }),
        (CaptureError::DrainFailed { names })@ == (ErrorView::DrainFailed { names: model::views(names@) }),
        (CaptureError::SnapshotFailed { names })@ == (ErrorView::SnapshotFailed { names: model::views(names@) }),
        (CaptureError::NotJson { seq, field, cause: text })@ == (ErrorView::NotJson { seq, field, cause: text@ }),
        (CaptureError::UnexpectedTrigger { trigger: text })@ == (ErrorView::UnexpectedTrigger { trigger: text@ }),
        (CaptureError::NoPayload { trigger: text })@ == (ErrorView::NoPayload { trigger: text@ }),
        (CaptureError::Ident { name: text })@ == (ErrorView::Ident { name: text@ }),
        (CaptureError::NoColumns { table: text })@ == (ErrorView::NoColumns { table: text@ }),
        CaptureError::ReserveCount@ == ErrorView::ReserveCount,
{
}

} // verus!
