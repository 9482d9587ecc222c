//! What callers of the snapshot rely on: each law takes the arguments of one call and what came of it.

use vstd::prelude::*;

use crate::announce::Announce;
use crate::collect::{CollectCfg, DrainStats, Round};
use crate::error;
use crate::error::{CaptureError, ErrorView};
use crate::event::Event;
use crate::json;
use crate::json::JsonNode;
use crate::model;
use crate::number;
use crate::rows;
use crate::rows::{row_snap, sql_value_to_json, RowSnap, SqlValue};
use crate::schema;
use crate::schema::{all_rows_sql, captured_table, is_without_rowid, ordered_cols, payload_from_insert_trigger};
use crate::schema::{pk_columns, rowid_page_sql, select_list, table_info_sql, trigger_table, validate_ident};
use crate::schema::{CapturedTable, Col, TableScan, Trigger, TriggerView};
use crate::snapshot::{one_report, snapshot_all, snapshot_sqlite, SnapAction, SnapPhase, SnapshotPlan, SnapshotRun};
use crate::table;
use crate::table::{current_outbox_seq, emit_batch, floor_outbox_seq, reserve_outbox_seq};
use crate::table::{TableAction, TablePhase, TableRun};
use crate::text;

verus! {

/// `validate_ident` accepts exactly the SQL identifiers, and names what it refuses.
pub proof fn an_identifier_is_accepted(name: &str, r: Result<(), CaptureError>)
    requires
        call_ensures(validate_ident, (name,), r),
    ensures
        r is Ok <==> {
            &&& 1 <= name@.len() <= 128
            &&& !('0' <= name@[0] <= '9')
            &&& forall|i: int|
                0 <= i < name@.len() ==> {
                    ||| '0' <= #[trigger] name@[i] <= '9'
                    ||| 'A' <= name@[i] <= 'Z'
                    ||| 'a' <= name@[i] <= 'z'
                    ||| name@[i] == '_'
                }
        },
        r matches Err(e) ==> e@ == (ErrorView::Ident { name: name@ }),
{
    schema::identifiers_by_their_characters(name@);
}

/// `payload_from_insert_trigger` gives every column that the last `json_object(` lists, however many they
/// are, and nothing for a trigger without one.
pub proof fn every_payload_column_is_found(
    sql: &str,
    r: Option<Vec<String>>,
    before: Seq<char>,
    columns: Seq<Seq<char>>,
    exprs: Seq<Seq<char>>,
    behind: Seq<char>,
)
    requires
        call_ensures(payload_from_insert_trigger, (sql,), r),
        columns.len() == exprs.len(),
        forall|i: int| 0 <= i < columns.len() ==> schema::valid_ident(#[trigger] columns[i]),
        forall|i: int, j: int|
            0 <= i < exprs.len() && 0 <= j < exprs[i].len() ==> (#[trigger] exprs[i][j]) != '\'' && exprs[i][j] != ')',
    ensures
        ({
            let args = schema::arguments(columns, exprs) + seq![')'] + behind;
            sql@ == before + "json_object("@ + args && (forall|i: int|
                i > before.len() ==> !text::occurs_at(sql@, "json_object("@, i)) ==> if columns.len() == 0 {
                r is None
            } else {
                r is Some && model::views(r->0@) == columns
            }
        }),
        !text::occurs_in(sql@, "json_object("@) ==> r is None,
{
    let args = schema::arguments(columns, exprs) + seq![')'] + behind;
    if sql@ == before + "json_object("@ + args && (forall|i: int|
        i > before.len() ==> !text::occurs_at(sql@, "json_object("@, i)) {
        schema::the_payload_is_every_listed_column(before, columns, exprs, behind);
    }
    schema::the_payload_stands_behind_the_last_json_object(before, sql@);
}

/// `pk_columns` gives the columns with a place in the primary key, each once: by place, columns that share
/// one as they are listed.
pub proof fn key_columns_come_by_place(cols: &Vec<Col>, r: Vec<String>)
    requires
        call_ensures(pk_columns, (cols,), r),
    ensures
        exists|order: Seq<int>|
            {
                &&& r@.len() == #[trigger] order.len()
                &&& forall|a: int|
                    0 <= a < order.len() ==> 0 <= #[trigger] order[a] < cols@.len() && cols@[order[a]].pk > 0 && r@[a]@
                        == cols@[order[a]].name@
                &&& forall|a: int, b: int|
                    #![trigger order[a], order[b]]
                    0 <= a < b < order.len() ==> cols@[order[a]].pk < cols@[order[b]].pk || (cols@[order[a]].pk
                        == cols@[order[b]].pk && order[a] < order[b])
                &&& forall|k: int| 0 <= k < cols@.len() && (#[trigger] cols@[k]).pk > 0 ==> order.contains(k)
            },
{
    let all = model::views(cols@);
    assert forall|k: int| 0 <= k < cols@.len() implies #[trigger] all[k] == cols@[k]@ by {}
    schema::the_primary_key_goes_by_place(all);
    let order = choose|order: Seq<int>|
        {
            &&& schema::pk_names(all).len() == #[trigger] order.len()
            &&& forall|a: int| 0 <= a < order.len() ==> #[trigger] schema::pk_names(all)[a] == all[order[a]].name
            &&& forall|a: int| 0 <= a < order.len() ==> 0 <= #[trigger] order[a] < all.len() && all[order[a]].pk > 0
            &&& forall|a: int, b: int|
                #![trigger order[a], order[b]]
                0 <= a < b < order.len() ==> all[order[a]].pk < all[order[b]].pk || (all[order[a]].pk
                    == all[order[b]].pk && order[a] < order[b])
            &&& forall|k: int| 0 <= k < all.len() && (#[trigger] all[k]).pk > 0 ==> order.contains(k)
        };
    let names = model::views(r@);
    assert(names == schema::pk_names(all));
    assert(r@.len() == order.len());
    assert forall|a: int| 0 <= a < order.len() implies 0 <= #[trigger] order[a] < cols@.len() && cols@[order[a]].pk > 0
        && r@[a]@ == cols@[order[a]].name@ by {
        assert(names[a] == r@[a]@);
        assert(schema::pk_names(all)[a] == all[order[a]].name);
        assert(all[order[a]] == cols@[order[a]]@);
    }
    assert forall|a: int, b: int| #![trigger order[a], order[b]] 0 <= a < b < order.len() implies cols@[order[a]].pk
        < cols@[order[b]].pk || (cols@[order[a]].pk == cols@[order[b]].pk && order[a] < order[b]) by {
        assert(all[order[a]] == cols@[order[a]]@);
        assert(all[order[b]] == cols@[order[b]]@);
    }
    assert forall|k: int| 0 <= k < cols@.len() && (#[trigger] cols@[k]).pk > 0 implies order.contains(k) by {
        assert(all[k] == cols@[k]@);
    }
}

/// `is_without_rowid` finds the words WITHOUT and ROWID in any case, with one space, tab or line end
/// between them.
pub proof fn a_table_without_rowids_says_so(create_sql: Option<&str>, r: bool)
    requires
        call_ensures(is_without_rowid, (create_sql,), r),
    ensures
        r <==> create_sql is Some && exists|at: int|
            0 <= at <= create_sql->0@.len() - 13 && #[trigger] schema::says_without_rowid(
                create_sql->0@.subrange(at, at + 13),
            ),
{
    if let Some(s) = create_sql {
        schema::without_rowid_in_any_case(s@);
    }
}

/// `ordered_cols` gives the columns of the key and behind them those of the payload that are new.
pub proof fn columns_are_selected_once(table: &CapturedTable, r: Vec<String>)
    requires
        call_ensures(ordered_cols, (table,), r),
    ensures
        model::views(r@) == schema::selected(table@),
        table.payload@.len() == 0 ==> model::views(r@) == model::views(table.pk@),
        model::views(table.pk@).is_prefix_of(model::views(r@)),
        forall|name: Seq<char>| #[trigger]
            model::views(r@).contains(name) <==> model::views(table.pk@).contains(name) || model::views(
                table.payload@,
            ).contains(name),
{
    lemma_selected(table@.pk, table@.payload);
}

proof fn lemma_selected(names: Seq<Seq<char>>, more: Seq<Seq<char>>)
    ensures
        more.len() == 0 ==> schema::with_new(names, more) == names,
        names.is_prefix_of(schema::with_new(names, more)),
        forall|name: Seq<char>| #[trigger]
            schema::with_new(names, more).contains(name) <==> names.contains(name) || more.contains(name),
    decreases more.len(),
{
    if more.len() > 0 {
        let prior = more.drop_last();
        lemma_selected(names, prior);
        let before = schema::with_new(names, prior);
        let after = schema::with_new(names, more);
        assert(after == before || after == before.push(more.last()));
        assert(names =~= after.subrange(0, names.len() as int)) by {
            assert(names =~= before.subrange(0, names.len() as int));
        }
        assert forall|name: Seq<char>| #[trigger] after.contains(name) <==> names.contains(name) || more.contains(name) by {
            assert(more =~= prior.push(more.last()));
            assert(before.contains(name) <==> names.contains(name) || prior.contains(name));
            if prior.contains(name) {
                let i = choose|i: int| 0 <= i < prior.len() && prior[i] == name;
                assert(more[i] == name);
            }
            if more.contains(name) && name != more.last() {
                let i = choose|i: int| 0 <= i < more.len() && more[i] == name;
                assert(prior[i] == name);
            }
            if before.contains(name) {
                let i = choose|i: int| 0 <= i < before.len() && before[i] == name;
                assert(after[i] == name);
            }
            if after.contains(name) && !before.contains(name) {
                let i = choose|i: int| 0 <= i < after.len() && after[i] == name;
                assert(i < before.len() ==> before[i] == name);
            }
            assert(more[more.len() - 1] == more.last());
            if after != before {
                assert(after[after.len() - 1] == more.last());
            } else {
                assert(before.contains(more.last()));
            }
        }
    } else {
        assert(names =~= schema::with_new(names, more).subrange(0, names.len() as int));
    }
}

/// `select_list`, `rowid_page_sql` and `all_rows_sql` name every selected column in double quotes, and
/// `table_info_sql` the table.
pub proof fn statements_name_columns_and_table(
    table: &CapturedTable,
    first: bool,
    limit: usize,
    name: &str,
    list: Result<String, CaptureError>,
    page: Result<String, CaptureError>,
    all: Result<String, CaptureError>,
    info: String,
)
    requires
        call_ensures(select_list, (table,), list),
        call_ensures(rowid_page_sql, (table, first, limit), page),
        call_ensures(all_rows_sql, (table,), all),
        call_ensures(table_info_sql, (name,), info),
    ensures
        info@ == "PRAGMA table_info(\""@ + name@ + "\")"@,
        list is Ok <==> page is Ok,
        list is Ok <==> all is Ok,
        list matches Ok(text) ==> {
            let names = schema::selected(table@);
            &&& text@ == error::joined(Seq::new(names.len(), |i: int| seq!['"'] + names[i] + seq!['"']), ", "@)
            &&& all->Ok_0@ == "SELECT "@ + text@ + " FROM \""@ + table.name@ + "\""@
            &&& first ==> page->Ok_0@ == "SELECT rowid, "@ + text@ + " FROM \""@ + table.name@
                + "\" ORDER BY rowid LIMIT "@ + number::decimal(limit as int)
            &&& !first ==> page->Ok_0@ == "SELECT rowid, "@ + text@ + " FROM \""@ + table.name@
                + "\" WHERE rowid > ?1 ORDER BY rowid LIMIT "@ + number::decimal(limit as int)
        },
        list matches Err(e) ==> {
            &&& e@ is NoColumns || e@ is Ident
            &&& page->Err_0@ == e@
            &&& all->Err_0@ == e@
        },
{
    schema::a_select_list_names_every_column(table@);
    schema::statements_word_for_word(table@.name, name@, limit as int);
    if let Ok(text) = list {
        schema::statements_word_for_word(text@, table@.name, limit as int);
    }
}

/// `trigger_table` gives the table that a trigger is named after, none for the `_outbox`, and refuses every
/// other trigger.
pub proof fn a_trigger_names_its_table(trigger: &str, r: Result<Option<String>, CaptureError>, table: Seq<char>)
    requires
        call_ensures(trigger_table, (trigger,), r),
    ensures
        trigger@ == "_cap_I_"@ + table && table != "_outbox"@ && schema::valid_ident(table) ==> r is Ok && r->Ok_0 is Some
            && r->Ok_0->0@ == table,
        trigger@ == "_cap_I_"@ + table && table != "_outbox"@ && !schema::valid_ident(table) ==> r is Err && r->Err_0@
            == (ErrorView::Ident { name: table }),
        trigger@ == "_cap_I_"@ + "_outbox"@ ==> r is Ok && r->Ok_0 is None,
        (forall|t: Seq<char>| trigger@ != #[trigger] ("_cap_I_"@ + t)) ==> r is Err && r->Err_0@
            == (ErrorView::UnexpectedTrigger { trigger: trigger@ }),
{
    schema::triggers_are_named_after_their_tables(table, trigger@);
}

/// `captured_table` gives a table with its name, its key, the payload of its trigger, and whether it lacks
/// rowids, and refuses one without a payload or with a column that is no identifier.
pub proof fn a_table_is_captured(
    trigger: &Trigger,
    table: String,
    cols: &Vec<Col>,
    create_sql: Option<&str>,
    r: Result<CapturedTable, CaptureError>,
)
    requires
        call_ensures(captured_table, (trigger, table, cols, create_sql), r),
    ensures
        ({
            let key = schema::pk_names(model::views(cols@));
            let payload = schema::payload_names(trigger.sql@);
            let columns = key + payload;
            match r {
                Ok(found) => {
                    &&& found.name@ == table@
                    &&& model::views(found.pk@) == key
                    &&& model::views(found.payload@) == payload
                    &&& payload.len() > 0
                    &&& found.without_rowid == schema::lacks_rowid(
                        if create_sql is Some {
                            Some(create_sql->0@)
                        } else {
                            None
                        },
                    )
                    &&& forall|i: int| 0 <= i < columns.len() ==> schema::valid_ident(#[trigger] columns[i])
                },
                Err(e) => if payload.len() == 0 {
                    e@ == (ErrorView::NoPayload { trigger: trigger.name@ })
                } else {
                    exists|k: int|
                        {
                            &&& 0 <= k < columns.len()
                            &&& e@ == (ErrorView::Ident { name: #[trigger] columns[k] })
                            &&& !schema::valid_ident(columns[k])
                            &&& forall|i: int| 0 <= i < k ==> schema::valid_ident(#[trigger] columns[i])
                        }
                },
            }
        }),
{
    let sql = if create_sql is Some {
        Some(create_sql->0@)
    } else {
        None
    };
    schema::a_captured_table_is_what_its_trigger_lists(trigger@, table@, model::views(cols@), sql);
}

/// `sql_value_to_json` gives null for NULL and for bytes, and else the value of the cell.
pub proof fn a_cell_becomes_json(cell: SqlValue, v: serde_json::Value)
    requires
        call_ensures(sql_value_to_json, (cell,), v),
    ensures
        match cell {
            SqlValue::Null => json::json_node(v) == JsonNode::Null,
            SqlValue::Integer(n) => json::json_node(v) == (JsonNode::Integer { number: n }),
            SqlValue::Real(x) => v == x,
            SqlValue::Text(s) => json::json_node(v) == (JsonNode::Text { text: s@ }),
            SqlValue::Blob => json::json_node(v) == JsonNode::Null,
        },
{
}

/// `row_snap` gives a row with its rowid, whose payload has the JSON of each payload cell under the name of
/// its column, and whose key has that of each key cell, or else the rowid.
pub proof fn a_row_holds_its_cells(table: &CapturedTable, values: Vec<SqlValue>, rowid: i64, r: RowSnap, i: int)
    requires
        call_ensures(row_snap, (table, values, rowid), r),
        values@.len() == schema::selected(table@).len(),
        0 <= i < values@.len(),
        forall|j: int| i < j < values@.len() ==> (#[trigger] schema::selected(table@)[j]) != schema::selected(table@)[i],
    ensures
        ({
            let name = schema::selected(table@)[i];
            &&& r.rowid == rowid
            &&& match json::json_node(r.after) {
                JsonNode::Object { fields } => {
                    &&& forall|n: Seq<char>| #[trigger] fields.contains_key(n) <==> table@.payload.contains(n)
                    &&& table@.payload.contains(name) ==> rows::stands_for(values@[i], fields[name])
                },
                _ => false,
            }
            &&& match json::json_node(r.key) {
                JsonNode::Object { fields } => if table@.pk.len() == 0 {
                    &&& forall|n: Seq<char>| #[trigger] fields.contains_key(n) <==> n == "rowid"@
                    &&& json::json_node(fields["rowid"@]) == (JsonNode::Integer { number: rowid })
                } else {
                    &&& forall|n: Seq<char>| #[trigger] fields.contains_key(n) <==> table@.pk.contains(n)
                    &&& table@.pk.contains(name) ==> rows::stands_for(values@[i], fields[name])
                },
                _ => false,
            }
        }),
{
    let cells = choose|cells: Seq<serde_json::Value>|
        {
            &&& cells.len() == values@.len()
            &&& forall|i: int| 0 <= i < cells.len() ==> rows::stands_for(values@[i], #[trigger] cells[i])
            &&& #[trigger] rows::snapped(table@, rowid, cells, r)
        };
    rows::an_emitted_row_holds_its_cells(table@, rowid, cells, r, i);
    rows::row_names_listed_columns_only(table@, rowid, cells, r);
    assert(rows::stands_for(values@[i], cells[i]));
}

/// `current_outbox_seq` gives the higher of the stored counter and the highest number in the `_outbox`.
pub proof fn the_counter_is_the_higher_one(seq_tbl: Option<i64>, seq_out: i64, r: i64)
    requires
        call_ensures(current_outbox_seq, (seq_tbl, seq_out), r),
    ensures
        r >= seq_out,
        seq_tbl matches Some(stored) ==> r >= stored && (r == stored || r == seq_out),
        seq_tbl is None ==> r >= 0 && (r == 0 || r == seq_out),
{
}

/// `floor_outbox_seq` stores the floor exactly when the counter is below it, and `reserve_outbox_seq` gives
/// as many numbers as are asked for, right behind the counter, and refuses to give none.
pub proof fn numbers_are_reserved_behind_the_counter(
    cur: i64,
    min: i64,
    n: i64,
    floor: Option<i64>,
    r: Result<(i64, i64), CaptureError>,
)
    requires
        call_ensures(floor_outbox_seq, (cur, min), floor),
        call_ensures(reserve_outbox_seq, (cur, n), r),
        cur + n <= i64::MAX,
    ensures
        cur < min ==> floor == Some(min),
        cur >= min ==> floor is None,
        n > 0 ==> r is Ok && r->Ok_0.0 == cur + 1 && r->Ok_0.1 == cur + n,
        n <= 0 ==> r is Err && r->Err_0@ == ErrorView::ReserveCount,
{
}

/// `emit_batch` makes one insertion of every row, in order, each with its own number, key and payload.
pub proof fn every_row_is_emitted(src_db: &str, tbl: &str, ts: i64, first: i64, all: &Vec<RowSnap>, r: Vec<Event>)
    requires
        call_ensures(emit_batch, (src_db, tbl, ts, first, all), r),
        first + all@.len() <= i64::MAX + 1,
    ensures
        r@.len() == all@.len(),
        forall|i: int|
            0 <= i < r@.len() ==> {
                let e = #[trigger] r@[i];
                &&& e.src_db@ == src_db@
                &&& e.tbl@ == tbl@
                &&& e.op@ == "I"@
                &&& e.ts == ts
                &&& e.seq == first + i
                &&& e.key == all@[i].key
                &&& e.before is None
                &&& e.after == Some(all@[i].after)
            },
{
    assert(model::views(r@).len() == r@.len());
    assert forall|i: int| 0 <= i < r@.len() implies {
        let e = #[trigger] r@[i];
        &&& e.src_db@ == src_db@
        &&& e.tbl@ == tbl@
        &&& e.op@ == "I"@
        &&& e.ts == ts
        &&& e.seq == first + i
        &&& e.key == all@[i].key
        &&& e.before is None
        &&& e.after == Some(all@[i].after)
    } by {
        table::each_row_becomes_an_insertion(src_db@, tbl@, ts, first as int, all@, i);
        assert(model::views(r@)[i] == r@[i]@);
    }
}

/// `TableRun::new` starts before the first row of the table.
pub proof fn a_table_run_starts_before_its_rows(src_db: &str, table: &CapturedTable, ts: i64, run: TableRun)
    requires
        call_ensures(TableRun::new, (src_db, table, ts), run),
    ensures
        run@.src_db == src_db@ && run@.tbl == table.name@ && run@.ts == ts && run@.streamed == table.without_rowid,
        run@.phase == TablePhase::Fetch && run@.after_rowid is None && !run@.last,
        run@.rows.len() == 0 && run@.written == 0,
{
}

/// `TableRun::action` asks by the phase; `TableRun::pending`, `TableRun::written` and `TableRun::batch` give
/// the rows at hand, those done, and the events of those at hand.
pub proof fn a_table_run_asks_by_its_phase(run: &TableRun, r: TableAction, pending: usize, written: usize, batch: Vec<Event>)
    requires
        call_ensures(TableRun::action, (run,), r),
        call_ensures(TableRun::pending, (run,), pending),
        call_ensures(TableRun::written, (run,), written),
        call_ensures(TableRun::batch, (run,), batch),
    ensures
        run@.phase == TablePhase::Fetch && run@.streamed ==> r == TableAction::Row,
        run@.phase == TablePhase::Fetch && !run@.streamed ==> r == (TableAction::Page {
            after: run@.after_rowid,
            limit: 5_000,
        }),
        run@.phase == TablePhase::Reserve ==> r == TableAction::ReadSeq,
        run@.phase == TablePhase::Store ==> r == (TableAction::WriteSeq {
            seq: (run@.first + run@.rows.len() - 1) as i64,
        }),
        run@.phase == TablePhase::Spool ==> r == TableAction::Spool,
        run@.phase == TablePhase::Done ==> r == TableAction::Done,
        pending == run@.rows.len(),
        written == run@.written,
        model::views(batch@) == table::snap_events(run@.src_db, run@.tbl, run@.ts, run@.first as int, run@.rows),
{
}

/// `TableRun::paged` takes a page whole and goes on behind its last row, or ends with an empty one.
pub proof fn a_table_run_takes_a_page(run: &mut TableRun, page: Vec<RowSnap>)
    requires
        call_ensures(TableRun::paged, (run, page), ()),
    ensures
        table::same_table(final(run)@, old(run)@),
        final(run)@.written == old(run)@.written,
        page@.len() == 0 ==> final(run)@.phase == TablePhase::Done,
        page@.len() > 0 ==> {
            &&& final(run)@.phase == TablePhase::Reserve
            &&& final(run)@.rows == page@
            &&& final(run)@.after_rowid == Some(page@[page@.len() - 1].rowid)
            &&& final(run)@.last <==> page@.len() < 5_000
        },
{
}

/// `TableRun::row` adds a row to those at hand, which are ready once they are five thousand.
pub proof fn a_table_run_takes_a_row(run: &mut TableRun, row: RowSnap)
    requires
        call_ensures(TableRun::row, (run, row), ()),
    ensures
        table::same_table(final(run)@, old(run)@),
        final(run)@.written == old(run)@.written && final(run)@.last == old(run)@.last,
        final(run)@.rows == old(run)@.rows.push(row),
        final(run)@.phase == (if old(run)@.rows.len() + 1 >= 5_000 {
            TablePhase::Reserve
        } else {
            TablePhase::Fetch
        }),
{
}

/// `TableRun::rows_end` makes the rows at hand the last ones, and ends where there are none.
pub proof fn a_table_run_comes_to_its_last_rows(run: &mut TableRun)
    requires
        call_ensures(TableRun::rows_end, (run,), ()),
    ensures
        table::same_table(final(run)@, old(run)@),
        final(run)@.written == old(run)@.written && final(run)@.last && final(run)@.rows == old(run)@.rows,
        final(run)@.phase == (if old(run)@.rows.len() == 0 {
            TablePhase::Done
        } else {
            TablePhase::Reserve
        }),
{
}

/// `TableRun::seq_read` numbers the rows at hand right behind the counter, which is then to be stored.
pub proof fn a_table_run_numbers_its_rows(run: &mut TableRun, cur: i64)
    requires
        call_ensures(TableRun::seq_read, (run, cur), ()),
        cur < i64::MAX,
    ensures
        table::same_table(final(run)@, old(run)@),
        final(run)@.written == old(run)@.written && final(run)@.last == old(run)@.last,
        final(run)@.rows == old(run)@.rows && final(run)@.after_rowid == old(run)@.after_rowid,
        final(run)@.first == cur + 1,
        final(run)@.phase == TablePhase::Store,
{
}

/// `TableRun::seq_written` leads to the spooling of the same rows.
pub proof fn a_table_run_spools_numbered_rows(run: &mut TableRun)
    requires
        call_ensures(TableRun::seq_written, (run,), ()),
    ensures
        table::same_table(final(run)@, old(run)@),
        final(run)@.written == old(run)@.written && final(run)@.last == old(run)@.last,
        final(run)@.rows == old(run)@.rows && final(run)@.after_rowid == old(run)@.after_rowid,
        final(run)@.first == old(run)@.first,
        final(run)@.phase == TablePhase::Spool,
{
}

/// `TableRun::spooled` counts the rows at hand, and goes on where they were not the last.
pub proof fn a_table_run_counts_spooled_rows(run: &mut TableRun)
    requires
        call_ensures(TableRun::spooled, (run,), ()),
    ensures
        table::same_table(final(run)@, old(run)@),
        final(run)@.rows.len() == 0,
        final(run)@.written == old(run)@.written + old(run)@.rows.len(),
        final(run)@.after_rowid == old(run)@.after_rowid && final(run)@.last == old(run)@.last,
        final(run)@.phase == (if old(run)@.last {
            TablePhase::Done
        } else {
            TablePhase::Fetch
        }),
{
}

/// `SnapshotRun::new` and `snapshot_sqlite` start with the floor, where there is one, and else with the
/// drain; a database without an `_outbox` gets no snapshot.
pub proof fn a_snapshot_starts_with_its_floor(
    src_db: &str,
    min_seq: Option<i64>,
    has_outbox: bool,
    run: SnapshotRun,
    r: Option<SnapshotRun>,
)
    requires
        call_ensures(SnapshotRun::new, (src_db, min_seq), run),
        call_ensures(snapshot_sqlite, (src_db, min_seq, has_outbox), r),
    ensures
        run@.src_db == src_db@ && run@.min_seq == min_seq,
        run@.phase == (if min_seq is Some {
            SnapPhase::Floor
        } else {
            SnapPhase::Drain
        }),
        run@.drained is None && run@.tables.len() == 0 && run@.at == 0 && run@.snap_rows == 0,
        run@.seq_lo is None && run@.seq_hi is None,
        r is Some <==> has_outbox,
        r matches Some(begun) ==> begun@ == run@,
{
}

/// `SnapshotRun::action` asks by the phase; the other readers give the tables and the rows counted so far.
pub proof fn a_snapshot_asks_by_its_phase(
    run: &SnapshotRun,
    r: SnapAction,
    all: &Vec<CapturedTable>,
    drain_rows: usize,
    snap_rows: usize,
)
    requires
        call_ensures(SnapshotRun::action, (run,), r),
        call_ensures(SnapshotRun::tables, (run,), all),
        call_ensures(SnapshotRun::drain_rows, (run,), drain_rows),
        call_ensures(SnapshotRun::snap_rows, (run,), snap_rows),
    ensures
        run@.phase == SnapPhase::Floor ==> r == SnapAction::ReadSeq,
        run@.phase == SnapPhase::Raise ==> r == (SnapAction::WriteSeq { seq: run@.min_seq->0 }),
        run@.phase == SnapPhase::Drain ==> r == SnapAction::Drain,
        run@.phase == SnapPhase::List ==> r == SnapAction::List,
        run@.phase == SnapPhase::Table ==> r == (SnapAction::Table { index: run@.at as usize }),
        run@.phase == SnapPhase::Total ==> r == SnapAction::ReadSeq,
        run@.phase == SnapPhase::Done ==> r == SnapAction::Done,
        model::views(all@) == run@.tables,
        drain_rows == (if run@.drained is Some {
            run@.drained->0.rows
        } else {
            0
        }),
        snap_rows == run@.snap_rows,
{
}

/// `SnapshotRun::seq_read` compares the counter with the floor before the drain, and reports it behind the
/// tables; `SnapshotRun::seq_written` leads to the drain.
pub proof fn a_snapshot_reads_the_counter(run: &mut SnapshotRun, cur: i64)
    requires
        call_ensures(SnapshotRun::seq_read, (run, cur), ()),
        old(run)@.phase == SnapPhase::Floor || old(run)@.phase == SnapPhase::Total,
        cur - old(run)@.snap_rows >= i64::MIN,
    ensures
        final(run)@.src_db == old(run)@.src_db && final(run)@.min_seq == old(run)@.min_seq,
        final(run)@.drained == old(run)@.drained && final(run)@.tables == old(run)@.tables,
        final(run)@.at == old(run)@.at && final(run)@.snap_rows == old(run)@.snap_rows,
        old(run)@.phase == SnapPhase::Floor ==> {
            &&& final(run)@.seq_lo == old(run)@.seq_lo && final(run)@.seq_hi == old(run)@.seq_hi
            &&& final(run)@.phase == (if cur >= old(run)@.min_seq->0 {
                SnapPhase::Drain
            } else {
                SnapPhase::Raise
            })
        },
        old(run)@.phase == SnapPhase::Total ==> {
            let lo = if old(run)@.drained is Some {
                old(run)@.drained->0.seq_lo
            } else {
                None
            };
            &&& final(run)@.phase == SnapPhase::Done
            &&& final(run)@.seq_hi == Some(cur)
            &&& lo is Some ==> final(run)@.seq_lo == lo
            &&& lo is None && old(run)@.snap_rows == 0 ==> final(run)@.seq_lo is None
            &&& lo is None && old(run)@.snap_rows > 0 ==> final(run)@.seq_lo is Some && final(run)@.seq_lo->0 == cur
                - old(run)@.snap_rows + 1
        },
{
}

/// `SnapshotRun::seq_written` leads to the drain.
pub proof fn a_raised_counter_leads_to_the_drain(run: &mut SnapshotRun)
    requires
        call_ensures(SnapshotRun::seq_written, (run,), ()),
    ensures
        final(run)@ == (crate::snapshot::SnapshotView { phase: SnapPhase::Drain, ..old(run)@ }),
{
}

/// `SnapshotRun::drained` keeps the report of the drain and leads to the list of the tables.
pub proof fn a_drain_leads_to_the_tables(run: &mut SnapshotRun, stats: Option<DrainStats>)
    requires
        call_ensures(SnapshotRun::drained, (run, stats), ()),
    ensures
        final(run)@ == (crate::snapshot::SnapshotView {
            phase: SnapPhase::List,
            drained: if stats is Some {
                Some(stats->0@)
            } else {
                None
            },
            ..old(run)@
        }),
{
}

/// `SnapshotRun::listed` leads to the first table, and ends without one.
pub proof fn the_list_leads_to_the_first_table(run: &mut SnapshotRun, all: Vec<CapturedTable>)
    requires
        call_ensures(SnapshotRun::listed, (run, all), ()),
    ensures
        final(run)@ == (crate::snapshot::SnapshotView {
            phase: if all@.len() == 0 {
                SnapPhase::Done
            } else {
                SnapPhase::Table
            },
            tables: model::views(all@),
            at: 0,
            ..old(run)@
        }),
{
}

/// `SnapshotRun::table_done` counts the rows of a table and leads to the next. Behind the last one the
/// counter is read, unless nothing at all was spooled.
pub proof fn a_table_leads_to_the_next(run: &mut SnapshotRun, written: usize)
    requires
        call_ensures(SnapshotRun::table_done, (run, written), ()),
    ensures
        ({
            let drained = if old(run)@.drained is Some {
                old(run)@.drained->0.rows
            } else {
                0
            };
            final(run)@ == (crate::snapshot::SnapshotView {
                phase: if old(run)@.at + 1 < old(run)@.tables.len() {
                    SnapPhase::Table
                } else if drained + old(run)@.snap_rows + written == 0 {
                    SnapPhase::Done
                } else {
                    SnapPhase::Total
                },
                at: old(run)@.at + 1,
                snap_rows: old(run)@.snap_rows + written as nat,
                ..old(run)@
            })
        }),
{
}

/// `SnapshotRun::finish` reports what the drain reported where there is no table, and else the rows of the
/// drain and of the tables together, where any were spooled.
pub proof fn a_snapshot_reports_its_rows(run: SnapshotRun, r: Option<DrainStats>)
    requires
        call_ensures(SnapshotRun::finish, (run,), r),
    ensures
        run@.tables.len() == 0 ==> model::option_view(r) == run@.drained,
        run@.tables.len() > 0 && run@.seq_hi is None ==> r is None,
        run@.tables.len() > 0 && run@.seq_hi is Some ==> {
            &&& r is Some
            &&& r->0.src_db@ == run@.src_db
            &&& r->0.rows == run@.snap_rows + (if run@.drained is Some {
                run@.drained->0.rows
            } else {
                0
            })
            &&& r->0.seq_lo == run@.seq_lo
            &&& r->0.seq_hi == run@.seq_hi
        },
{
}

/// `snapshot_all` takes the one database that is configured, and else all that are announced; `one_report`
/// is the report of the one, if there is one.
pub proof fn a_snapshot_is_of_one_database_or_all(
    cfg: &CollectCfg,
    announced: Vec<Announce>,
    plan: SnapshotPlan,
    report: Option<DrainStats>,
    reports: Vec<DrainStats>,
)
    requires
        call_ensures(snapshot_all, (cfg, announced), plan),
        call_ensures(one_report, (report,), reports),
    ensures
        match plan {
            SnapshotPlan::One(name) => cfg.snapshot_db is Some && name@ == cfg.snapshot_db->0@,
            SnapshotPlan::All(sweep) => {
                &&& cfg.snapshot_db is None
                &&& sweep@.round == Round::Snapshot
                &&& sweep@.names.len() == announced@.len()
                &&& forall|i: int| 0 <= i < announced@.len() ==> (#[trigger] sweep@.names[i]) == announced@[i].db_name@
                &&& sweep@.at == 0 && sweep@.stats.len() == 0 && sweep@.failed.len() == 0
            },
        },
        report is None ==> reports@.len() == 0,
        report matches Some(stats) ==> reports@.len() == 1 && reports@[0]@ == stats@,
{
    let seen = model::views(reports@);
    assert(seen.len() == reports@.len());
    if reports@.len() > 0 {
        assert(seen[0] == reports@[0]@);
    }
}

/// `TableScan::new` starts at the first trigger with nothing found, and `TableScan::finish` gives what was
/// found.
pub proof fn a_scan_starts_and_ends(triggers: Vec<Trigger>, scan: TableScan, end: TableScan, r: Vec<CapturedTable>)
    requires
        call_ensures(TableScan::new, (triggers,), scan),
        call_ensures(TableScan::finish, (end,), r),
    ensures
        scan@.triggers == model::views(triggers@) && scan@.at == 0 && scan@.found.len() == 0,
        model::views(r@) == end@.found,
{
}

/// `TableScan::next` stops at the first trigger from where it stands that is not that of the `_outbox`, and
/// gives its table or its refusal; behind the last one it gives nothing.
pub proof fn a_scan_goes_to_the_next_table(scan: &mut TableScan, r: Result<Option<String>, CaptureError>)
    requires
        call_ensures(TableScan::next, (scan,), r),
        0 <= old(scan)@.at <= old(scan)@.triggers.len(),
    ensures
        final(scan)@.triggers == old(scan)@.triggers && final(scan)@.found == old(scan)@.found,
        old(scan)@.at <= final(scan)@.at <= old(scan)@.triggers.len(),
        forall|t: int|
            old(scan)@.at <= t < final(scan)@.at ==> (#[trigger] old(scan)@.triggers[t]).name == "_cap_I_"@ + "_outbox"@,
        r is Ok && r->Ok_0 is None <==> final(scan)@.at == final(scan)@.triggers.len(),
        r is Ok && r->Ok_0 is Some ==> final(scan)@.triggers[final(scan)@.at].name == "_cap_I_"@ + r->Ok_0->0@,
        r is Err ==> schema::trigger_table_of(final(scan)@.triggers[final(scan)@.at].name) == Err::<
            Option<Seq<char>>,
            ErrorView,
        >(r->Err_0@),
{
    lemma_passed_over(old(scan)@.triggers, old(scan)@.at);
    let at = final(scan)@.at;
    if at < final(scan)@.triggers.len() {
        lemma_trigger_of_its_table(final(scan)@.triggers[at].name);
    }
}

proof fn lemma_trigger_of_its_table(name: Seq<char>)
    ensures
        match schema::trigger_table_of(name) {
            Ok(Some(table)) => name == "_cap_I_"@ + table,
            Ok(None) => name == "_cap_I_"@ + "_outbox"@,
            Err(_) => true,
        },
{
    if let Ok(found) = schema::trigger_table_of(name) {
        let table = name.skip("_cap_I_"@.len() as int);
        assert(name =~= "_cap_I_"@ + table);
        schema::triggers_are_named_after_their_tables(table, name);
    }
}

proof fn lemma_passed_over(triggers: Seq<TriggerView>, at: int)
    requires
        0 <= at <= triggers.len(),
    ensures
        at <= schema::next_trigger(triggers, at) <= triggers.len(),
        forall|t: int|
            at <= t < schema::next_trigger(triggers, at) ==> (#[trigger] triggers[t]).name == "_cap_I_"@ + "_outbox"@,
    decreases triggers.len() - at,
{
    if at < triggers.len() && schema::trigger_table_of(triggers[at].name) == Ok::<Option<Seq<char>>, ErrorView>(None) {
        lemma_trigger_of_its_table(triggers[at].name);
        lemma_passed_over(triggers, at + 1);
    }
}

/// `TableScan::described` keeps a captured table behind those found before and goes on, or stays where it is
/// where the table is refused.
pub proof fn a_described_table_is_found(
    scan: &mut TableScan,
    table: String,
    cols: &Vec<Col>,
    create_sql: Option<&str>,
    r: Result<(), CaptureError>,
)
    requires
        call_ensures(TableScan::described, (scan, table, cols, create_sql), r),
    ensures
        ({
            let trigger = old(scan)@.triggers[old(scan)@.at];
            let key = schema::pk_names(model::views(cols@));
            let payload = schema::payload_names(trigger.sql);
            match r {
                Ok(_) => {
                    let found = final(scan)@.found;
                    let last = found[found.len() - 1];
                    &&& final(scan)@.triggers == old(scan)@.triggers
                    &&& final(scan)@.at == old(scan)@.at + 1
                    &&& found.len() == old(scan)@.found.len() + 1
                    &&& found.drop_last() == old(scan)@.found
                    &&& last.name == table@
                    &&& last.pk == key
                    &&& last.payload == payload
                    &&& payload.len() > 0
                },
                Err(e) => {
                    &&& final(scan)@ == old(scan)@
                    &&& payload.len() == 0 ==> e@ == (ErrorView::NoPayload { trigger: trigger.name })
                    &&& payload.len() > 0 ==> e@ is Ident
                },
            }
        }),
{
    let trigger = old(scan)@.triggers[old(scan)@.at];
    let sql = model::option_view(create_sql);
    schema::a_captured_table_is_what_its_trigger_lists(trigger, table@, model::views(cols@), sql);
    if let Ok(_) = r {
        assert(final(scan)@.found.drop_last() =~= old(scan)@.found);
    }
}

} // verus!
