//! The rows of a captured table as a snapshot emits them.

use vstd::prelude::*;

use crate::json;
use crate::json::{integer_value, null_value, object_get, object_insert, object_new, object_value, text_value, JsonNode};
use crate::model;
use crate::schema;
use crate::schema::{ordered_cols, CapturedTable, TableView};

verus! {

/// A value of a database cell. A floating-point number comes as the JSON value that stands for it.
#[derive(Debug, Clone, PartialEq)]
pub enum SqlValue {
    Null,
    Integer(i64),
    Real(serde_json::Value),
    Text(String),
    Blob,
}

/// Whether a JSON value stands for the value of a cell: a number for a number, a text for a text,
/// and null for NULL and for bytes.
pub open spec fn stands_for(cell: SqlValue, v: serde_json::Value) -> bool {
    match cell {
        SqlValue::Null => json::json_node(v) == JsonNode::Null,
        SqlValue::Integer(n) => json::json_node(v) == (JsonNode::Integer { number: n }),
        SqlValue::Real(x) => v == x,
        SqlValue::Text(s) => json::json_node(v) == (JsonNode::Text { text: s@ }),
        SqlValue::Blob => json::json_node(v) == JsonNode::Null,
    }
}

/// The JSON value that stands for the value of a cell.
pub fn sql_value_to_json(cell: SqlValue) -> (v: serde_json::Value)
    ensures
        stands_for(cell, v),
{
    match cell {
        SqlValue::Null => null_value(),
        SqlValue::Integer(n) => integer_value(n),
        SqlValue::Real(x) => x,
        SqlValue::Text(s) => text_value(s),
        SqlValue::Blob => null_value(),
    }
}

/// A row as the snapshot emits it.
#[derive(Debug, Clone, PartialEq)]
pub struct RowSnap {
    pub rowid: i64,
    pub key: serde_json::Value,
    pub after: serde_json::Value,
}

/// The cells of a row by the names of their columns.
pub open spec fn by_name(names: Seq<Seq<char>>, cells: Seq<serde_json::Value>) -> Map<Seq<char>, serde_json::Value>
    decreases names.len(),
{
    if names.len() == 0 {
        Map::empty()
    } else {
        by_name(names.drop_last(), cells.drop_last()).insert(names.last(), cells.last())
    }
}

/// The cells of the wanted columns by their names.
pub open spec fn picked(
    wanted: Seq<Seq<char>>,
    row: Map<Seq<char>, serde_json::Value>,
) -> Map<Seq<char>, serde_json::Value> {
    Map::new(|name: Seq<char>| wanted.contains(name), |name: Seq<char>| row[name])
}

/// Whether a row of a captured table is emitted right: its key holds the cells of the primary key,
/// or the rowid where there is no primary key, and its payload holds the cells of the payload
/// columns and no others. `cells` are the JSON values of the selected columns.
pub open spec fn snapped(table: TableView, rowid: i64, cells: Seq<serde_json::Value>, snap: RowSnap) -> bool {
    let row = by_name(schema::selected(table), cells);
    &&& snap.rowid == rowid
    &&& match json::json_node(snap.key) {
        JsonNode::Object { fields } => if table.pk.len() == 0 {
            &&& fields.dom() == set!["rowid"@]
            &&& json::json_node(fields["rowid"@]) == (JsonNode::Integer { number: rowid })
        } else {
            fields == picked(table.pk, row)
        },
        _ => false,
    }
    &&& json::json_node(snap.after) == (JsonNode::Object { fields: picked(table.payload, row) })
}

proof fn lemma_by_name_names(names: Seq<Seq<char>>, cells: Seq<serde_json::Value>)
    ensures
        forall|name: Seq<char>| #[trigger] by_name(names, cells).contains_key(name) <==> names.contains(name),
    decreases names.len(),
{
    if names.len() > 0 {
        lemma_by_name_names(names.drop_last(), cells.drop_last());
        assert forall|name: Seq<char>| #[trigger] by_name(names, cells).contains_key(name) <==> names.contains(name) by {
            if names.contains(name) && name != names.last() {
                let i = choose|i: int| 0 <= i < names.len() && names[i] == name;
                assert(names.drop_last()[i] == name);
            }
            if names.drop_last().contains(name) {
                let i = choose|i: int| 0 <= i < names.drop_last().len() && names.drop_last()[i] == name;
                assert(names[i] == name);
            }
            assert(names[names.len() - 1] == names.last());
            assert(by_name(names.drop_last(), cells.drop_last()).contains_key(name) <==> names.drop_last().contains(name));
        }
    }
}

proof fn lemma_selected_has_all(names: Seq<Seq<char>>, more: Seq<Seq<char>>)
    ensures
        forall|n: Seq<char>| names.contains(n) ==> #[trigger] schema::with_new(names, more).contains(n),
        forall|n: Seq<char>| more.contains(n) ==> #[trigger] schema::with_new(names, more).contains(n),
    decreases more.len(),
{
    if more.len() > 0 {
        lemma_selected_has_all(names, more.drop_last());
        let before = schema::with_new(names, more.drop_last());
        let after = schema::with_new(names, more);
        assert forall|n: Seq<char>| before.contains(n) || n == more.last() implies #[trigger] after.contains(n) by {
            if before.contains(n) {
                let i = choose|i: int| 0 <= i < before.len() && before[i] == n;
                assert(after[i] == n);
            } else {
                assert(after[after.len() - 1] == n);
            }
        }
        assert forall|n: Seq<char>| more.contains(n) implies #[trigger] after.contains(n) by {
            if n != more.last() {
                let i = choose|i: int| 0 <= i < more.len() && more[i] == n;
                assert(more.drop_last()[i] == n);
            }
        }
    }
}

/// An object with the cells of the wanted columns.
fn pick(wanted: &Vec<String>, row: &serde_json::Map<String, serde_json::Value>) -> (r: serde_json::Value)
    requires
        forall|name: Seq<char>| model::views(wanted@).contains(name) ==> #[trigger] json::object_fields(*row).contains_key(
            name,
        ),
    ensures
        json::json_node(r) == (JsonNode::Object {
            fields: picked(model::views(wanted@), json::object_fields(*row)),
        }),
{
    let ghost names = model::views(wanted@);
    let ghost cells = json::object_fields(*row);
    let mut out = object_new();
    let mut i: usize = 0;
    assert(json::object_fields(out) =~= picked(names.take(0), cells));
    while i < wanted.len()
        invariant
            i <= wanted@.len(),
            names == model::views(wanted@),
            cells == json::object_fields(*row),
            forall|name: Seq<char>| names.contains(name) ==> #[trigger] cells.contains_key(name),
            json::object_fields(out) == picked(names.take(i as int), cells),
        decreases wanted@.len() - i,
    {
        let ghost name = names[i as int];
        assert(name == wanted@[i as int]@);
        assert(names.contains(name));
        assert(cells.contains_key(name));
        let v = match object_get(row, wanted[i].as_str()) {
            Some(v) => v,
            None => null_value(),
        };
        object_insert(&mut out, wanted[i].clone(), v);
        proof {
            let before = names.take(i as int);
            let after = names.take(i + 1);
            assert forall|n: Seq<char>| after.contains(n) <==> before.contains(n) || n == name by {
                if after.contains(n) && n != name {
                    let k = choose|k: int| 0 <= k < after.len() && after[k] == n;
                    assert(before[k] == n);
                }
                if before.contains(n) {
                    let k = choose|k: int| 0 <= k < before.len() && before[k] == n;
                    assert(after[k] == n);
                }
                assert(after[i as int] == name);
            }
            assert(json::object_fields(out) =~= picked(after, cells));
        }
        i = i + 1;
    }
    assert(names.take(names.len() as int) =~= names);
    object_value(out)
}

/// The row of a captured table that has `values` in the selected columns.
pub fn row_snap(table: &CapturedTable, values: Vec<SqlValue>, rowid: i64) -> (r: RowSnap)
    requires
        values@.len() == schema::selected(table@).len(),
    ensures
        exists|cells: Seq<serde_json::Value>|
            {
                &&& cells.len() == values@.len()
                &&& forall|i: int| 0 <= i < cells.len() ==> stands_for(values@[i], #[trigger] cells[i])
                &&& #[trigger] snapped(table@, rowid, cells, r)
            },
{
    let cols = ordered_cols(table);
    let ghost names = model::views(cols@);
    let mut row = object_new();
    let mut i: usize = 0;
    let ghost mut cells: Seq<serde_json::Value> = seq![];
    assert(names.take(0) =~= Seq::<Seq<char>>::empty());
    for value in it: values
        invariant
            it.seq() == values@,
            i == it.index(),
            names == model::views(cols@),
            values@.len() == names.len(),
            cells.len() == i,
            forall|j: int| 0 <= j < cells.len() ==> stands_for(values@[j], #[trigger] cells[j]),
            json::object_fields(row) == by_name(names.take(i as int), cells),
    {
        let ghost cells0 = cells;
        let v = sql_value_to_json(value);
        proof {
            cells = cells.push(v);
            assert(names.take(i + 1).drop_last() =~= names.take(i as int));
            assert(cells.drop_last() =~= cells0);
            assert(names.take(i + 1).last() == cols@[i as int]@);
        }
        assert(i < cols.len());
        object_insert(&mut row, cols[i].clone(), v);
        i = i + 1;
    }
    proof {
        assert(names.take(names.len() as int) =~= names);
        lemma_by_name_names(names, cells);
        lemma_selected_has_all(table@.pk, table@.payload);
    }
    let key = if table.pk.len() == 0 {
        let mut key = object_new();
        object_insert(&mut key, "rowid".to_owned(), integer_value(rowid));
        object_value(key)
    } else {
        pick(&table.pk, &row)
    };
    let after = pick(&table.payload, &row);
    let snap = RowSnap { rowid, key, after };
    assert(snapped(table@, rowid, cells, snap));
    snap
}

/// The payload of an emitted row names the payload columns of its table and no other column, and its
/// key names those of the primary key, or the rowid where there is no primary key.
pub proof fn row_names_listed_columns_only(
    table: TableView,
    rowid: i64,
    cells: Seq<serde_json::Value>,
    snap: RowSnap,
)
    requires
        snapped(table, rowid, cells, snap),
    ensures
        match json::json_node(snap.after) {
            JsonNode::Object { fields } => forall|name: Seq<char>| #[trigger]
                fields.contains_key(name) <==> table.payload.contains(name),
            _ => false,
        },
        match json::json_node(snap.key) {
            JsonNode::Object { fields } => forall|name: Seq<char>| #[trigger]
                fields.contains_key(name) <==> (if table.pk.len() == 0 {
                    name == "rowid"@
                } else {
                    table.pk.contains(name)
                }),
            _ => false,
        },
{
}

/// A JSON value stands for a cell exactly when it is null for NULL and for bytes, the number for an
/// integer, the text for a text, and the value that was given for a floating-point number.
pub proof fn cells_become_json_by_their_kind(n: i64, s: String, x: serde_json::Value, v: serde_json::Value)
    ensures
        stands_for(SqlValue::Null, v) <==> json::json_node(v) == JsonNode::Null,
        stands_for(SqlValue::Blob, v) <==> json::json_node(v) == JsonNode::Null,
        stands_for(SqlValue::Integer(n), v) <==> json::json_node(v) == (JsonNode::Integer { number: n }),
        stands_for(SqlValue::Text(s), v) <==> json::json_node(v) == (JsonNode::Text { text: s@ }),
        stands_for(SqlValue::Real(x), v) <==> v == x,
{
}

proof fn lemma_by_name_cell(names: Seq<Seq<char>>, cells: Seq<serde_json::Value>, i: int)
    requires
        names.len() == cells.len(),
        0 <= i < names.len(),
        forall|j: int| i < j < names.len() ==> (#[trigger] names[j]) != names[i],
    ensures
        by_name(names, cells)[names[i]] == cells[i],
    decreases names.len(),
{
    if i < names.len() - 1 {
        let prior = names.drop_last();
        assert(names[names.len() - 1] != names[i]);
        assert forall|j: int| i < j < prior.len() implies (#[trigger] prior[j]) != prior[i] by {
            assert(prior[j] == names[j]);
        }
        lemma_by_name_cell(prior, cells.drop_last(), i);
    }
}

/// An emitted row keeps its rowid. Its payload has the cell of each payload column under the name of that
/// column, and its key has the cell of each column of the primary key, or else the rowid.
pub proof fn an_emitted_row_holds_its_cells(
    table: TableView,
    rowid: i64,
    cells: Seq<serde_json::Value>,
    snap: RowSnap,
    i: int,
)
    requires
        snapped(table, rowid, cells, snap),
        cells.len() == schema::selected(table).len(),
        0 <= i < cells.len(),
        forall|j: int| i < j < cells.len() ==> (#[trigger] schema::selected(table)[j]) != schema::selected(table)[i],
    ensures
        ({
            let name = schema::selected(table)[i];
            &&& snap.rowid == rowid
            &&& match json::json_node(snap.after) {
                JsonNode::Object { fields } => table.payload.contains(name) ==> fields.contains_key(name) && fields[name]
                    == cells[i],
                _ => false,
            }
            &&& match json::json_node(snap.key) {
                JsonNode::Object { fields } => if table.pk.len() == 0 {
                    fields.contains_key("rowid"@) && json::json_node(fields["rowid"@]) == (JsonNode::Integer {
                        number: rowid,
                    })
                } else {
                    table.pk.contains(name) ==> fields.contains_key(name) && fields[name] == cells[i]
                },
                _ => false,
            }
        }),
{
    lemma_by_name_cell(schema::selected(table), cells, i);
    assert(set!["rowid"@].contains("rowid"@));
}

} // verus!
