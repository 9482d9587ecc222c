//! Captured tables: which columns make the key, which make the payload, and how rows are selected.

use vstd::prelude::*;
use vstd::string::*;

use crate::error;
use crate::error::{join, CaptureError, ErrorView};
use crate::event;
use crate::event::{letter, letter_or_digit};
use crate::model;
use crate::model::copy_names;
use crate::text;
use crate::text::{chars_of, find_last, same_text, text_between};

verus! {

/// Whether a character may stand in an SQL identifier.
pub open spec fn in_ident(c: char) -> bool {
    event::is_letter_or_digit(c) || c == '_'
}

/// Whether a text is an SQL identifier: one to 128 ASCII letters, digits and underscores, the
/// first of them no digit.
pub open spec fn valid_ident(name: Seq<char>) -> bool {
    &&& 0 < name.len() <= 128
    &&& forall|i: int| 0 <= i < name.len() ==> in_ident(#[trigger] name[i])
    &&& event::is_letter(name[0]) || name[0] == '_'
}

/// Accepts SQL identifiers and refuses every other text.
pub fn validate_ident(name: &str) -> (r: Result<(), CaptureError>)
    ensures
        r is Ok <==> valid_ident(name@),
        r matches Err(e) ==> e@ == (ErrorView::Ident { name: name@ }),
{
    let cs = chars_of(name);
    let mut ok = cs.len() > 0 && cs.len() <= 128 && (letter(cs[0]) || cs[0] == '_');
    let mut i: usize = 0;
    while ok && i < cs.len()
        invariant
            i <= cs@.len(),
            cs@ == name@,
            ok ==> 0 < cs@.len() <= 128 && (event::is_letter(cs@[0]) || cs@[0] == '_'),
            ok ==> forall|j: int| 0 <= j < i ==> in_ident(#[trigger] cs@[j]),
            !ok ==> !valid_ident(name@),
        decreases cs@.len() - i,
    {
        let c = cs[i];
        if !(letter_or_digit(c) || c == '_') {
            assert(!in_ident(name@[i as int]));
            ok = false;
        }
        i = i + 1;
    }
    if ok {
        Ok(())
    } else {
        Err(CaptureError::Ident { name: name.to_owned() })
    }
}

/// An SQL identifier in double quotes is one quoted SQL name: it cannot end its own quotes.
pub proof fn ident_cannot_leave_its_quotes(name: Seq<char>)
    requires
        valid_ident(name),
    ensures
        !name.contains('"'),
        !name.contains('\''),
        !name.contains(';'),
{
}

/// Whether a character is a single quote.
pub open spec fn is_quote() -> spec_fn(char) -> bool {
    |c: char| c == '\''
}

/// How many characters stand before the first single quote.
pub open spec fn before_quote(s: Seq<char>) -> nat {
    model::count_before(s, is_quote())
}

/// The identifiers in single quotes up to the first closing parenthesis outside quotes. A quote
/// that is never closed runs to the end of the text.
pub open spec fn quoted_idents(s: Seq<char>) -> Seq<Seq<char>>
    decreases s.len(),
{
    if s.len() == 0 || s[0] == ')' {
        seq![]
    } else if s[0] == '\'' {
        let inside = s.drop_first();
        let n = before_quote(inside);
        let name = inside.take(n as int);
        let rest = quoted_idents(if n < inside.len() { inside.skip(n as int + 1) } else { seq![] });
        if valid_ident(name) {
            seq![name] + rest
        } else {
            rest
        }
    } else {
        quoted_idents(s.drop_first())
    }
}

/// The payload columns of a capture trigger: the identifiers in single quotes in the argument list
/// of its last `json_object(`.
pub open spec fn payload_names(sql: Seq<char>) -> Seq<Seq<char>> {
    if text::occurs_in(sql, "json_object("@) {
        let at = choose|i: int| text::occurs_last_at(sql, "json_object("@, i);
        quoted_idents(sql.skip(at + "json_object("@.len()))
    } else {
        seq![]
    }
}

/// The payload columns that an insert trigger captures, or nothing where it names none.
pub fn payload_from_insert_trigger(sql: &str) -> (r: Option<Vec<String>>)
    ensures
        match r {
            Some(names) => names@.len() > 0 && model::views(names@) == payload_names(sql@),
            None => payload_names(sql@).len() == 0,
        },
{
    let cs = chars_of(sql);
    let pat = chars_of("json_object(");
    let at: usize = match find_last(&cs, &pat) {
        Some(at) => at,
        None => return None,
    };
    assert(text::occurs_at(cs@, pat@, at as int) && at + pat@.len() <= cs.len());
    let start: usize = at + pat.len();
    let ghost rest = cs@.skip(start as int);
    proof {
        let chosen = choose|i: int| text::occurs_last_at(sql@, "json_object("@, i);
        assert(text::occurs_last_at(sql@, "json_object("@, at as int));
        assert(text::occurs_last_at(sql@, "json_object("@, chosen));
        assert(chosen == at);
        assert(text::occurs_at(sql@, "json_object("@, at as int));
        assert(payload_names(sql@) == quoted_idents(rest));
    }
    let mut names: Vec<String> = Vec::new();
    let mut i: usize = start;
    assert(cs@.skip(i as int) =~= rest);
    assert(model::views(names@) + quoted_idents(rest) =~= quoted_idents(rest));
    while i < cs.len()
        invariant
            start <= i <= cs@.len(),
            model::views(names@) + quoted_idents(cs@.skip(i as int)) == quoted_idents(rest),
        ensures
            model::views(names@) == quoted_idents(rest),
        decreases cs@.len() - i,
    {
        let ghost here = cs@.skip(i as int);
        let ghost names0 = model::views(names@);
        assert(here.drop_first() =~= cs@.skip(i + 1));
        if cs[i] == '\'' {
            i = i + 1;
            let from: usize = i;
            while i < cs.len() && cs[i] != '\''
                invariant
                    from <= i <= cs@.len(),
                    forall|j: int| from <= j < i ==> cs@[j] != '\'',
                decreases cs@.len() - i,
            {
                i = i + 1;
            }
            proof {
                let inside = here.drop_first();
                assert(inside =~= cs@.skip(from as int));
                model::lemma_count_before(inside, is_quote(), i - from);
                assert(inside.take(i - from) =~= cs@.subrange(from as int, i as int));
            }
            let ghost name = cs@.subrange(from as int, i as int);
            if i > from {
                let found = text_between(&cs, from, i);
                match validate_ident(found.as_str()) {
                    Ok(_) => {
                        names.push(found);
                        assert(model::views(names@) =~= names0.push(name));
                    },
                    Err(_) => {},
                }
            }
            if i < cs.len() {
                i = i + 1;
                assert(here.drop_first().skip(i - from) =~= cs@.skip(i as int));
            } else {
                assert(cs@.skip(i as int) =~= Seq::<char>::empty());
            }
            assert(model::views(names@) + quoted_idents(cs@.skip(i as int)) =~= names0 + quoted_idents(here));
        } else if cs[i] == ')' {
            assert(names0 + quoted_idents(here) =~= names0);
            break;
        } else {
            i = i + 1;
        }
        if i == cs.len() {
            assert(cs@.skip(i as int) =~= Seq::<char>::empty());
            assert(model::views(names@) + quoted_idents(cs@.skip(i as int)) =~= model::views(names@));
        }
    }
    if names.len() == 0 {
        assert(model::views(names@).len() == 0);
        None
    } else {
        Some(names)
    }
}

/// A column of a table: its name and its place in the primary key, zero outside of it.
#[derive(Debug, Clone, PartialEq, Eq)]
pub struct Col {
    pub name: String,
    pub pk: i64,
}

/// A column, with its name as a character sequence.
pub struct ColView {
    pub name: Seq<char>,
    pub pk: i64,
}

impl View for Col {
    type V = ColView;

    open spec fn view(&self) -> ColView {
        ColView { name: self.name@, pk: self.pk }
    }
}

/// Whether column `i` stands before column `j` in the primary key: by place, then as listed.
pub open spec fn pk_before(cols: Seq<ColView>, i: int, j: int) -> bool {
    cols[i].pk < cols[j].pk || (cols[i].pk == cols[j].pk && i < j)
}

/// Whether `order` lists the columns of the primary key, each once, in key order.
pub open spec fn is_pk_order(cols: Seq<ColView>, order: Seq<int>) -> bool {
    &&& forall|i: int| #![trigger order[i]] 0 <= i < order.len() ==> 0 <= order[i] < cols.len() && cols[order[i]].pk > 0
    &&& forall|i: int, j: int| #![trigger order[i], order[j]]
        0 <= i < j < order.len() ==> pk_before(cols, order[i], order[j])
    &&& forall|k: int| #![trigger cols[k]] 0 <= k < cols.len() && cols[k].pk > 0 ==> order.contains(k)
}

/// The names of the primary key columns in key order.
pub open spec fn pk_names(cols: Seq<ColView>) -> Seq<Seq<char>> {
    let order = choose|order: Seq<int>| is_pk_order(cols, order);
    order.map_values(|k: int| cols[k].name)
}

proof fn lemma_pk_order_prefix(cols: Seq<ColView>, a: Seq<int>, b: Seq<int>, n: int)
    requires
        is_pk_order(cols, a),
        is_pk_order(cols, b),
        0 <= n <= a.len(),
    ensures
        n <= b.len(),
        forall|i: int| 0 <= i < n ==> a[i] == b[i],
    decreases n,
{
    if n > 0 {
        let k = n - 1;
        lemma_pk_order_prefix(cols, a, b, k);
        assert(cols[a[k]].pk > 0);
        assert(b.contains(a[k]));
        let m = choose|m: int| 0 <= m < b.len() && b[m] == a[k];
        if m < k {
            assert(a[m] == b[m]);
            assert(pk_before(cols, a[m], a[k]));
        } else if m > k {
            assert(pk_before(cols, b[k], b[m]));
            assert(cols[b[k]].pk > 0);
            assert(a.contains(b[k]));
            let p = choose|p: int| 0 <= p < a.len() && a[p] == b[k];
            if p < k {
                assert(b[p] == a[p]);
                assert(pk_before(cols, b[p], b[k]));
            } else if p > k {
                assert(pk_before(cols, a[k], a[p]));
            }
        }
    }
}

proof fn lemma_pk_order_unique(cols: Seq<ColView>, a: Seq<int>, b: Seq<int>)
    requires
        is_pk_order(cols, a),
        is_pk_order(cols, b),
    ensures
        a == b,
{
    lemma_pk_order_prefix(cols, a, b, a.len() as int);
    lemma_pk_order_prefix(cols, b, a, b.len() as int);
    assert(a =~= b);
}

/// A column of the primary key that is listed behind the others takes its place among them: behind
/// those with a lower place or the same, before those with a higher one.
proof fn lemma_pk_order_grows(cols: Seq<ColView>, order: Seq<int>, p: int)
    requires
        cols.len() > 0,
        is_pk_order(cols.drop_last(), order),
        cols.last().pk > 0,
        0 <= p <= order.len(),
        forall|q: int| #![trigger order[q]] 0 <= q < p ==> cols[order[q]].pk <= cols.last().pk,
        p < order.len() ==> cols[order[p]].pk > cols.last().pk,
    ensures
        is_pk_order(cols, order.insert(p, cols.len() - 1)),
{
    let seen = cols.drop_last();
    let at = order.insert(p, cols.len() - 1);
    assert forall|a: int| #![trigger at[a]] 0 <= a < at.len() implies 0 <= at[a] < cols.len() && cols[at[a]].pk > 0 by {
        if a < p {
            assert(at[a] == order[a]);
        } else if a > p {
            assert(at[a] == order[a - 1]);
        }
    }
    assert forall|a: int, b: int| #![trigger at[a], at[b]] 0 <= a < b < at.len() implies pk_before(cols, at[a], at[b]) by {
        let oa = if a < p { a } else { a - 1 };
        let ob = if b < p { b } else { b - 1 };
        if a != p {
            assert(at[a] == order[oa]);
        }
        if b != p {
            assert(at[b] == order[ob]);
        }
        if a == p {
            if ob > p {
                assert(pk_before(seen, order[p], order[ob]));
            }
        } else if b != p {
            assert(pk_before(seen, order[oa], order[ob]));
        }
    }
    assert forall|k: int| #![trigger cols[k]] 0 <= k < cols.len() && cols[k].pk > 0 implies at.contains(k) by {
        if k == cols.len() - 1 {
            assert(at[p] == k);
        } else {
            assert(seen[k].pk > 0);
            assert(order.contains(k));
            let q = choose|q: int| 0 <= q < order.len() && order[q] == k;
            if q < p {
                assert(at[q] == k);
            } else {
                assert(at[q + 1] == k);
            }
        }
    }
}

/// A column outside the primary key that is listed behind the others changes nothing of its order.
proof fn lemma_pk_order_stays(cols: Seq<ColView>, order: Seq<int>)
    requires
        cols.len() > 0,
        is_pk_order(cols.drop_last(), order),
        cols.last().pk <= 0,
    ensures
        is_pk_order(cols, order),
{
    let seen = cols.drop_last();
    assert forall|k: int| #![trigger cols[k]] 0 <= k < cols.len() && cols[k].pk > 0 implies order.contains(k) by {
        assert(seen[k].pk > 0);
    }
    assert forall|a: int, b: int| #![trigger order[a], order[b]] 0 <= a < b < order.len() implies pk_before(
        cols,
        order[a],
        order[b],
    ) by {
        assert(pk_before(seen, order[a], order[b]));
    }
}

proof fn lemma_pk_place(cols: Seq<ColView>, order: Seq<int>, pk: i64, from: int) -> (p: int)
    requires
        0 <= from <= order.len(),
        forall|q: int| #![trigger order[q]] 0 <= q < from ==> cols[order[q]].pk <= pk,
    ensures
        0 <= p <= order.len(),
        forall|q: int| #![trigger order[q]] 0 <= q < p ==> cols[order[q]].pk <= pk,
        p < order.len() ==> cols[order[p]].pk > pk,
    decreases order.len() - from,
{
    if from < order.len() && cols[order[from]].pk <= pk {
        lemma_pk_place(cols, order, pk, from + 1)
    } else {
        from
    }
}

proof fn lemma_some_pk_order(cols: Seq<ColView>) -> (order: Seq<int>)
    ensures
        is_pk_order(cols, order),
    decreases cols.len(),
{
    if cols.len() == 0 {
        seq![]
    } else {
        let order = lemma_some_pk_order(cols.drop_last());
        if cols.last().pk > 0 {
            let p = lemma_pk_place(cols, order, cols.last().pk, 0);
            lemma_pk_order_grows(cols, order, p);
            order.insert(p, cols.len() - 1)
        } else {
            lemma_pk_order_stays(cols, order);
            order
        }
    }
}

/// The columns of every table have exactly one order of their primary key, and `pk_names` gives the
/// names in that order.
pub proof fn primary_key_has_one_order(cols: Seq<ColView>)
    ensures
        exists|order: Seq<int>| is_pk_order(cols, order),
        forall|a: Seq<int>, b: Seq<int>| #![trigger is_pk_order(cols, a), is_pk_order(cols, b)]
            is_pk_order(cols, a) && is_pk_order(cols, b) ==> a == b,
        forall|order: Seq<int>| #[trigger]
            is_pk_order(cols, order) ==> pk_names(cols) == order.map_values(|k: int| cols[k].name),
{
    let some = lemma_some_pk_order(cols);
    assert(is_pk_order(cols, some));
    assert forall|a: Seq<int>, b: Seq<int>| #![trigger is_pk_order(cols, a), is_pk_order(cols, b)]
        is_pk_order(cols, a) && is_pk_order(cols, b) implies a == b by {
        lemma_pk_order_unique(cols, a, b);
    }
}

/// The names of the primary key columns in key order; columns that share a place stay as listed.
pub fn pk_columns(cols: &Vec<Col>) -> (r: Vec<String>)
    ensures
        model::views(r@) == pk_names(model::views(cols@)),
{
    let ghost all = model::views(cols@);
    let mut order: Vec<usize> = Vec::new();
    let ghost mut at: Seq<int> = seq![];
    let mut i: usize = 0;
    while i < cols.len()
        invariant
            i <= cols@.len(),
            all == model::views(cols@),
            at == order@.map_values(|k: usize| k as int),
            is_pk_order(all.take(i as int), at),
        decreases cols@.len() - i,
    {
        let ghost seen = all.take(i as int);
        let ghost next = all.take(i + 1);
        let ghost at0 = at;
        assert(forall|k: int| 0 <= k < i ==> seen[k] == next[k]);
        assert(next[i as int] == cols@[i as int]@);
        if cols[i].pk > 0 {
            assert forall|q: int| #![trigger order@[q]] 0 <= q < order@.len() implies order@[q] == at[q] && order@[q] < i by {
                assert(at[q] == order@[q]);
            }
            let mut p: usize = 0;
            while p < order.len() && cols[order[p]].pk <= cols[i].pk
                invariant
                    p <= order@.len(),
                    i < cols@.len(),
                    all == model::views(cols@),
                    seen == all.take(i as int),
                    at == order@.map_values(|k: usize| k as int),
                    is_pk_order(seen, at),
                    forall|q: int| #![trigger order@[q]] 0 <= q < order@.len() ==> order@[q] == at[q] && order@[q] < i,
                    forall|q: int| #![trigger at[q]] 0 <= q < p ==> seen[at[q]].pk <= all[i as int].pk,
                decreases order@.len() - p,
            {
                assert(order@[p as int] == at[p as int]);
                assert(seen[at[p as int]] == cols@[order@[p as int] as int]@);
                p = p + 1;
            }
            proof {
                if p < order@.len() {
                    assert(order@[p as int] == at[p as int]);
                    assert(seen[at[p as int]] == cols@[order@[p as int] as int]@);
                }
            }
            order.insert(p, i);
            proof {
                at = at0.insert(p as int, i as int);
                assert(at =~= order@.map_values(|k: usize| k as int));
                assert(next.drop_last() =~= seen);
                lemma_pk_order_grows(next, at0, p as int);
            }
        } else {
            proof {
                assert(next.drop_last() =~= seen);
                lemma_pk_order_stays(next, at);
            }
        }
        i = i + 1;
    }
    assert(all.take(cols@.len() as int) =~= all);
    let mut names: Vec<String> = Vec::new();
    let mut j: usize = 0;
    while j < order.len()
        invariant
            j <= order@.len(),
            all == model::views(cols@),
            at == order@.map_values(|k: usize| k as int),
            is_pk_order(all, at),
            names@.len() == j,
            forall|q: int| 0 <= q < j ==> (#[trigger] names@[q])@ == all[at[q]].name,
        decreases order@.len() - j,
    {
        assert(at[j as int] == order@[j as int]);
        names.push(cols[order[j]].name.clone());
        j = j + 1;
    }
    proof {
        let chosen = choose|order: Seq<int>| is_pk_order(all, order);
        lemma_pk_order_unique(all, at, chosen);
        assert(model::views(names@) =~= pk_names(all));
    }
    names
}

/// A character as the search for a table option sees it: in upper case, and a tab or a line end
/// as a space.
pub open spec fn option_char(c: char) -> char {
    if 'a' <= c && c <= 'z' {
        ((c as u32) - 32) as char
    } else if c == '\n' || c == '\t' {
        ' '
    } else {
        c
    }
}

/// Whether a table was created without rowids, by the text that created it.
pub open spec fn lacks_rowid(create_sql: Option<Seq<char>>) -> bool {
    match create_sql {
        Some(s) => text::occurs_in(s.map_values(|c: char| option_char(c)), "WITHOUT ROWID"@),
        None => false,
    }
}

/// Whether a table was created without rowids, by the text that created it.
pub fn is_without_rowid(create_sql: Option<&str>) -> (r: bool)
    ensures
        r == lacks_rowid(model::option_view(create_sql)),
{
    let sql = match create_sql {
        Some(s) => s,
        None => return false,
    };
    let cs = chars_of(sql);
    let mut flat: Vec<char> = Vec::new();
    let mut i: usize = 0;
    while i < cs.len()
        invariant
            i <= cs@.len(),
            flat@.len() == i,
            forall|j: int| 0 <= j < i ==> #[trigger] flat@[j] == option_char(cs@[j]),
        decreases cs@.len() - i,
    {
        let c = cs[i];
        if c >= 'a' && c <= 'z' {
            flat.push((c as u8 - 32) as char);
        } else if c == '\n' || c == '\t' {
            flat.push(' ');
        } else {
            flat.push(c);
        }
        i = i + 1;
    }
    assert(flat@ =~= sql@.map_values(|c: char| option_char(c)));
    match find_last(&flat, &chars_of("WITHOUT ROWID")) {
        Some(_) => true,
        None => false,
    }
}

/// A table whose rows are captured.
#[derive(Debug, PartialEq, Eq)]
pub struct CapturedTable {
    pub name: String,
    /// The columns of the primary key, in key order.
    pub pk: Vec<String>,
    /// The columns that the capture trigger puts into an event.
    pub payload: Vec<String>,
    pub without_rowid: bool,
}

/// A captured table, with its names as character sequences.
pub struct TableView {
    pub name: Seq<char>,
    pub pk: Seq<Seq<char>>,
    pub payload: Seq<Seq<char>>,
    pub without_rowid: bool,
}

impl View for CapturedTable {
    type V = TableView;

    open spec fn view(&self) -> TableView {
        TableView {
            name: self.name@,
            pk: model::views(self.pk@),
            payload: model::views(self.payload@),
            without_rowid: self.without_rowid,
        }
    }
}

/// `names`, then those of `more` that are not there yet, each once, in their order.
pub open spec fn with_new(names: Seq<Seq<char>>, more: Seq<Seq<char>>) -> Seq<Seq<char>>
    decreases more.len(),
{
    if more.len() == 0 {
        names
    } else {
        let before = with_new(names, more.drop_last());
        if before.contains(more.last()) {
            before
        } else {
            before.push(more.last())
        }
    }
}

/// The columns that are selected of a captured table: its key, then the rest of its payload.
pub open spec fn selected(table: TableView) -> Seq<Seq<char>> {
    with_new(table.pk, table.payload)
}

/// Whether a name is on a list.
fn listed(names: &Vec<String>, name: &String) -> (r: bool)
    ensures
        r == model::views(names@).contains(name@),
{
    let mut i: usize = 0;
    while i < names.len()
        invariant
            i <= names@.len(),
            forall|j: int| 0 <= j < i ==> (#[trigger] names@[j])@ != name@,
        decreases names@.len() - i,
    {
        if names[i] == *name {
            assert(model::views(names@)[i as int] == name@);
            return true;
        }
        i = i + 1;
    }
    assert forall|j: int| 0 <= j < names@.len() implies model::views(names@)[j] != name@ by {
        assert(names@[j]@ != name@);
    }
    false
}

/// The columns that are selected of a captured table, in order.
pub fn ordered_cols(table: &CapturedTable) -> (r: Vec<String>)
    ensures
        model::views(r@) == selected(table@),
{
    let mut names = copy_names(&table.pk);
    let mut i: usize = 0;
    let ghost payload = table@.payload;
    assert(payload.take(0) =~= Seq::<Seq<char>>::empty());
    while i < table.payload.len()
        invariant
            i <= table.payload@.len(),
            payload == table@.payload,
            model::views(names@) == with_new(table@.pk, payload.take(i as int)),
        decreases table.payload@.len() - i,
    {
        let ghost names0 = model::views(names@);
        assert(payload.take(i + 1).drop_last() =~= payload.take(i as int));
        assert(payload.take(i + 1).last() == table.payload@[i as int]@);
        if !listed(&names, &table.payload[i]) {
            names.push(table.payload[i].clone());
            assert(model::views(names@) =~= names0.push(table.payload@[i as int]@));
        }
        i = i + 1;
    }
    assert(payload.take(payload.len() as int) =~= payload);
    names
}

/// The first name that is no SQL identifier.
pub open spec fn first_bad(names: Seq<Seq<char>>) -> Option<Seq<char>>
    decreases names.len(),
{
    if names.len() == 0 {
        None
    } else if !valid_ident(names[0]) {
        Some(names[0])
    } else {
        first_bad(names.drop_first())
    }
}

/// Accepts a list of SQL identifiers and refuses the first name on it that is none.
fn validate_idents(names: &Vec<String>) -> (r: Result<(), CaptureError>)
    ensures
        match r {
            Ok(_) => first_bad(model::views(names@)) is None,
            Err(e) => first_bad(model::views(names@)) matches Some(bad) && e@ == (ErrorView::Ident { name: bad }),
        },
{
    let ghost all = model::views(names@);
    let mut i: usize = 0;
    assert(all.skip(0) =~= all);
    while i < names.len()
        invariant
            i <= names@.len(),
            all == model::views(names@),
            first_bad(all) == first_bad(all.skip(i as int)),
        decreases names@.len() - i,
    {
        assert(all.skip(i as int).drop_first() =~= all.skip(i + 1));
        assert(all.skip(i as int)[0] == names@[i as int]@);
        match validate_ident(names[i].as_str()) {
            Ok(_) => {},
            Err(e) => return Err(e),
        }
        i = i + 1;
    }
    Ok(())
}

/// A name in double quotes.
pub open spec fn quoted(name: Seq<char>) -> Seq<char> {
    seq!['"'] + name + seq!['"']
}

/// The select list of a captured table: its columns in double quotes, separated by commas. A table
/// without any column is refused, and so is the first column that is no identifier.
pub open spec fn select_list_of(table: TableView) -> Result<Seq<char>, ErrorView> {
    let names = selected(table);
    if names.len() == 0 {
        Err(ErrorView::NoColumns { table: table.name })
    } else {
        match first_bad(names) {
            Some(bad) => Err(ErrorView::Ident { name: bad }),
            None => Ok(error::joined(names.map_values(|n: Seq<char>| quoted(n)), ", "@)),
        }
    }
}

/// The select list of a captured table.
pub fn select_list(table: &CapturedTable) -> (r: Result<String, CaptureError>)
    ensures
        model::result_view(r) == select_list_of(table@),
{
    let names = ordered_cols(table);
    if names.len() == 0 {
        return Err(CaptureError::NoColumns { table: table.name.clone() });
    }
    match validate_idents(&names) {
        Ok(_) => {},
        Err(e) => return Err(e),
    }
    let mut parts: Vec<String> = Vec::new();
    let mut i: usize = 0;
    while i < names.len()
        invariant
            i <= names@.len(),
            parts@.len() == i,
            forall|j: int| 0 <= j < i ==> (#[trigger] parts@[j])@ == quoted(names@[j]@),
        decreases names@.len() - i,
    {
        let mut part = String::new();
        part.push('"');
        part.append(names[i].as_str());
        part.push('"');
        assert(part@ =~= quoted(names@[i as int]@));
        parts.push(part);
        i = i + 1;
    }
    assert(model::views(parts@) =~= model::views(names@).map_values(|n: Seq<char>| quoted(n)));
    Ok(join(&parts, ", "))
}

/// The statement that describes the columns of a table.
pub open spec fn table_info_text(table: Seq<char>) -> Seq<char> {
    "PRAGMA table_info("@ + quoted(table) + ")"@
}

/// The statement that describes the columns of a table.
pub fn table_info_sql(table: &str) -> (r: String)
    ensures
        r@ == table_info_text(table@),
{
    let mut out = String::new();
    out.append("PRAGMA table_info(");
    out.push('"');
    out.append(table);
    out.push('"');
    out.append(")");
    assert(out@ =~= table_info_text(table@));
    out
}

/// The statement that selects one page of a table with rowids, in the order of the rowids. Behind
/// the first page it takes the last rowid seen as its parameter.
pub open spec fn rowid_page_text(list: Seq<char>, table: Seq<char>, first: bool, limit: int) -> Seq<char> {
    "SELECT rowid, "@ + list + " FROM "@ + quoted(table) + (if first {
        ""@
    } else {
        " WHERE rowid > ?1"@
    }) + " ORDER BY rowid LIMIT "@ + crate::number::decimal(limit)
}

/// The statement that selects one page of a table with rowids.
pub fn rowid_page_sql(table: &CapturedTable, first: bool, limit: usize) -> (r: Result<String, CaptureError>)
    requires
        limit <= i64::MAX,
    ensures
        match (r, select_list_of(table@)) {
            (Ok(sql), Ok(list)) => sql@ == rowid_page_text(list, table@.name, first, limit as int),
            (Err(e), Err(refused)) => e@ == refused,
            _ => false,
        },
{
    let list = match select_list(table) {
        Ok(list) => list,
        Err(e) => return Err(e),
    };
    let mut out = String::new();
    out.append("SELECT rowid, ");
    out.append(list.as_str());
    out.append(" FROM ");
    out.push('"');
    out.append(table.name.as_str());
    out.push('"');
    if first {
        out.append("");
    } else {
        out.append(" WHERE rowid > ?1");
    }
    out.append(" ORDER BY rowid LIMIT ");
    crate::number::push_decimal(&mut out, limit as i64);
    assert(out@ =~= rowid_page_text(list@, table@.name, first, limit as int));
    Ok(out)
}

/// The statement that selects a whole table.
pub open spec fn all_rows_text(list: Seq<char>, table: Seq<char>) -> Seq<char> {
    "SELECT "@ + list + " FROM "@ + quoted(table)
}

/// The statement that selects a whole table.
pub fn all_rows_sql(table: &CapturedTable) -> (r: Result<String, CaptureError>)
    ensures
        match (r, select_list_of(table@)) {
            (Ok(sql), Ok(list)) => sql@ == all_rows_text(list, table@.name),
            (Err(e), Err(refused)) => e@ == refused,
            _ => false,
        },
{
    let list = match select_list(table) {
        Ok(list) => list,
        Err(e) => return Err(e),
    };
    let mut out = String::new();
    out.append("SELECT ");
    out.append(list.as_str());
    out.append(" FROM ");
    out.push('"');
    out.append(table.name.as_str());
    out.push('"');
    assert(out@ =~= all_rows_text(list@, table@.name));
    Ok(out)
}

/// A trigger of a database: its name and the text that created it.
#[derive(Debug, PartialEq, Eq)]
pub struct Trigger {
    pub name: String,
    pub sql: String,
}

/// A trigger, with its texts as character sequences.
pub struct TriggerView {
    pub name: Seq<char>,
    pub sql: Seq<char>,
}

impl View for Trigger {
    type V = TriggerView;

    open spec fn view(&self) -> TriggerView {
        TriggerView { name: self.name@, sql: self.sql@ }
    }
}

/// Whether `s` starts with `prefix`.
pub open spec fn starts_with(s: Seq<char>, prefix: Seq<char>) -> bool {
    prefix.len() <= s.len() && s.take(prefix.len() as int) == prefix
}

/// The table that a capture trigger stands for, by the trigger's name. The `_outbox` itself is no
/// captured table.
pub open spec fn trigger_table_of(trigger: Seq<char>) -> Result<Option<Seq<char>>, ErrorView> {
    if !starts_with(trigger, "_cap_I_"@) {
        Err(ErrorView::UnexpectedTrigger { trigger })
    } else {
        let table = trigger.skip("_cap_I_"@.len() as int);
        if table == "_outbox"@ {
            Ok(None)
        } else if !valid_ident(table) {
            Err(ErrorView::Ident { name: table })
        } else {
            Ok(Some(table))
        }
    }
}

/// The table that a capture trigger stands for, by the trigger's name.
pub fn trigger_table(trigger: &str) -> (r: Result<Option<String>, CaptureError>)
    ensures
        match r {
            Ok(table) => trigger_table_of(trigger@) == Ok::<Option<Seq<char>>, ErrorView>(model::option_view(table)),
            Err(e) => trigger_table_of(trigger@) == Err::<Option<Seq<char>>, ErrorView>(e@),
        },
{
    let cs = chars_of(trigger);
    let prefix = chars_of("_cap_I_");
    let mut i: usize = 0;
    while i < prefix.len()
        invariant
            i <= prefix@.len(),
            cs@ == trigger@,
            prefix@ == "_cap_I_"@,
            i <= cs@.len(),
            forall|j: int| 0 <= j < i ==> cs@[j] == prefix@[j],
        decreases prefix@.len() - i,
    {
        if i >= cs.len() || cs[i] != prefix[i] {
            assert(!starts_with(trigger@, "_cap_I_"@)) by {
                if i < cs@.len() && prefix@.len() <= cs@.len() {
                    assert(trigger@.take(prefix@.len() as int)[i as int] != prefix@[i as int]);
                }
            }
            return Err(CaptureError::UnexpectedTrigger { trigger: trigger.to_owned() });
        }
        i = i + 1;
    }
    assert(trigger@.take(prefix@.len() as int) =~= prefix@);
    let table = text_between(&cs, prefix.len(), cs.len());
    assert(table@ =~= trigger@.skip("_cap_I_"@.len() as int));
    if same_text(table.as_str(), "_outbox") {
        return Ok(None);
    }
    match validate_ident(table.as_str()) {
        Ok(_) => Ok(Some(table)),
        Err(e) => Err(e),
    }
}

/// What is captured of a table, by its capture trigger, its columns and the text that created it. A
/// trigger that names no payload column is refused, and so is the first column that is no identifier.
pub open spec fn captured_table_of(
    trigger: TriggerView,
    table: Seq<char>,
    cols: Seq<ColView>,
    create_sql: Option<Seq<char>>,
) -> Result<TableView, ErrorView> {
    let pk = pk_names(cols);
    let payload = payload_names(trigger.sql);
    if payload.len() == 0 {
        Err(ErrorView::NoPayload { trigger: trigger.name })
    } else {
        match first_bad(pk + payload) {
            Some(bad) => Err(ErrorView::Ident { name: bad }),
            None => Ok(TableView { name: table, pk, payload, without_rowid: lacks_rowid(create_sql) }),
        }
    }
}

proof fn lemma_first_bad_concat(a: Seq<Seq<char>>, b: Seq<Seq<char>>)
    ensures
        first_bad(a + b) == (match first_bad(a) {
            Some(bad) => Some(bad),
            None => first_bad(b),
        }),
    decreases a.len(),
{
    if a.len() == 0 {
        assert(a + b =~= b);
    } else {
        assert((a + b).drop_first() =~= a.drop_first() + b);
        lemma_first_bad_concat(a.drop_first(), b);
    }
}

/// What is captured of a table.
pub fn captured_table(trigger: &Trigger, table: String, cols: &Vec<Col>, create_sql: Option<&str>) -> (r: Result<
    CapturedTable,
    CaptureError,
>)
    ensures
        model::result_view(r) == captured_table_of(
            trigger@,
            table@,
            model::views(cols@),
            model::option_view(create_sql),
        ),
{
    let pk = pk_columns(cols);
    let payload = match payload_from_insert_trigger(trigger.sql.as_str()) {
        Some(payload) => payload,
        None => return Err(CaptureError::NoPayload { trigger: trigger.name.clone() }),
    };
    assert(model::views(payload@).len() == payload@.len());
    proof {
        lemma_first_bad_concat(model::views(pk@), model::views(payload@));
    }
    match validate_idents(&pk) {
        Ok(_) => {},
        Err(e) => return Err(e),
    }
    match validate_idents(&payload) {
        Ok(_) => {},
        Err(e) => return Err(e),
    }
    let without_rowid = is_without_rowid(create_sql);
    Ok(CapturedTable { name: table, pk, payload, without_rowid })
}

/// The first trigger from `at` on that does not stand for the `_outbox`.
pub open spec fn next_trigger(triggers: Seq<TriggerView>, at: int) -> int
    decreases triggers.len() - at,
{
    if 0 <= at < triggers.len() && trigger_table_of(triggers[at].name) == Ok::<Option<Seq<char>>, ErrorView>(None) {
        next_trigger(triggers, at + 1)
    } else {
        at
    }
}

/// The search for the captured tables of a database. It goes through the capture triggers in order,
/// asks for the columns of one table after the other, and stops at the first refusal.
pub struct TableScan {
    triggers: Vec<Trigger>,
    at: usize,
    found: Vec<CapturedTable>,
}

/// A table scan: its triggers, the one it stands at, and what it found before.
pub struct TableScanView {
    pub triggers: Seq<TriggerView>,
    pub at: int,
    pub found: Seq<TableView>,
}

impl View for TableScan {
    type V = TableScanView;

    closed spec fn view(&self) -> TableScanView {
        TableScanView {
            triggers: model::views(self.triggers@),
            at: self.at as int,
            found: model::views(self.found@),
        }
    }
}

impl TableScan {
    /// A scan over the capture triggers of a database.
    pub fn new(triggers: Vec<Trigger>) -> (r: TableScan)
        ensures
            r@ == (TableScanView { triggers: model::views(triggers@), at: 0, found: seq![] }),
    {
        let r = TableScan { triggers, at: 0, found: Vec::new() };
        assert(r@.found =~= seq![]);
        r
    }

    /// Goes on to the next table whose columns are wanted, and gives its name; nothing when there
    /// is none left.
    pub fn next(&mut self) -> (r: Result<Option<String>, CaptureError>)
        requires
            0 <= old(self)@.at <= old(self)@.triggers.len(),
        ensures
            final(self)@ == (TableScanView {
                at: next_trigger(old(self)@.triggers, old(self)@.at),
                ..old(self)@
            }),
            final(self)@.at <= final(self)@.triggers.len(),
            match r {
                Ok(None) => final(self)@.at == final(self)@.triggers.len(),
                Ok(Some(table)) => {
                    &&& final(self)@.at < final(self)@.triggers.len()
                    &&& trigger_table_of(final(self)@.triggers[final(self)@.at].name)
                        == Ok::<Option<Seq<char>>, ErrorView>(Some(table@))
                },
                Err(e) => {
                    &&& final(self)@.at < final(self)@.triggers.len()
                    &&& trigger_table_of(final(self)@.triggers[final(self)@.at].name)
                        == Err::<Option<Seq<char>>, ErrorView>(e@)
                },
            },
    {
        while self.at < self.triggers.len()
            invariant
                self.at <= self.triggers@.len(),
                self.triggers@ == old(self).triggers@,
                self.found@ == old(self).found@,
                next_trigger(old(self)@.triggers, old(self)@.at) == next_trigger(self@.triggers, self@.at),
            decreases self.triggers@.len() - self.at,
        {
            assert(self@.triggers[self@.at] == self.triggers@[self.at as int]@);
            match trigger_table(self.triggers[self.at].name.as_str()) {
                Ok(Some(table)) => return Ok(Some(table)),
                Ok(None) => {
                    self.at = self.at + 1;
                },
                Err(e) => return Err(e),
            }
        }
        Ok(None)
    }

    /// Takes in the columns of the table at hand and the text that created it.
    pub fn described(&mut self, table: String, cols: &Vec<Col>, create_sql: Option<&str>) -> (r: Result<(), CaptureError>)
        requires
            0 <= old(self)@.at < old(self)@.triggers.len(),
            trigger_table_of(old(self)@.triggers[old(self)@.at].name) == Ok::<Option<Seq<char>>, ErrorView>(
                Some(table@),
            ),
        ensures
            match captured_table_of(
                old(self)@.triggers[old(self)@.at],
                table@,
                model::views(cols@),
                model::option_view(create_sql),
            ) {
                Ok(found) => {
                    &&& r is Ok
                    &&& final(self)@ == (TableScanView {
                        at: old(self)@.at + 1,
                        found: old(self)@.found.push(found),
                        ..old(self)@
                    })
                },
                Err(refused) => {
                    &&& r matches Err(e)
                    &&& e@ == refused
                    &&& final(self)@ == old(self)@
                },
            },
    {
        let ghost found0 = self@.found;
        assert(self@.triggers[self@.at] == self.triggers@[self.at as int]@);
        match captured_table(&self.triggers[self.at], table, cols, create_sql) {
            Ok(found) => {
                self.found.push(found);
                assert(self.at < self.triggers.len());
                self.at = self.at + 1;
                assert(self@.found =~= found0.push(found@));
                Ok(())
            },
            Err(e) => Err(e),
        }
    }

    /// The tables found.
    pub fn finish(self) -> (r: Vec<CapturedTable>)
        ensures
            model::views(r@) == self@.found,
    {
        self.found
    }
}

/// What a scan from `at` on finds, where `cols` and `create_sql` describe each table.
pub open spec fn scanned(
    triggers: Seq<TriggerView>,
    at: int,
    cols: spec_fn(Seq<char>) -> Seq<ColView>,
    create_sql: spec_fn(Seq<char>) -> Option<Seq<char>>,
) -> Result<Seq<TableView>, ErrorView>
    decreases triggers.len() - at,
{
    if !(0 <= at < triggers.len()) {
        Ok(seq![])
    } else {
        match trigger_table_of(triggers[at].name) {
            Err(refused) => Err(refused),
            Ok(None) => scanned(triggers, at + 1, cols, create_sql),
            Ok(Some(table)) => match captured_table_of(triggers[at], table, cols(table), create_sql(table)) {
                Err(refused) => Err(refused),
                Ok(found) => match scanned(triggers, at + 1, cols, create_sql) {
                    Err(refused) => Err(refused),
                    Ok(rest) => Ok(seq![found] + rest),
                },
            },
        }
    }
}

/// What a scan gives that goes on from its state to its end, where `cols` and `create_sql` describe each
/// table it asks for.
pub open spec fn scan_run(
    scan: TableScanView,
    cols: spec_fn(Seq<char>) -> Seq<ColView>,
    create_sql: spec_fn(Seq<char>) -> Option<Seq<char>>,
) -> Result<Seq<TableView>, ErrorView>
    decreases scan.triggers.len() - scan.at,
{
    let at = next_trigger(scan.triggers, scan.at);
    if !(scan.at <= at < scan.triggers.len()) {
        Ok(scan.found)
    } else {
        match trigger_table_of(scan.triggers[at].name) {
            Ok(Some(table)) => match captured_table_of(scan.triggers[at], table, cols(table), create_sql(table)) {
                Ok(found) => scan_run(
                    TableScanView { at: at + 1, found: scan.found.push(found), ..scan },
                    cols,
                    create_sql,
                ),
                Err(refused) => Err(refused),
            },
            Ok(None) => Ok(scan.found),
            Err(refused) => Err(refused),
        }
    }
}

/// A scan that runs to its end gives the tables it had found and behind them those that the rest of
/// its triggers stand for, or the refusal of one of those.
pub proof fn scan_runs_through_the_triggers(
    scan: TableScanView,
    cols: spec_fn(Seq<char>) -> Seq<ColView>,
    create_sql: spec_fn(Seq<char>) -> Option<Seq<char>>,
)
    requires
        0 <= scan.at <= scan.triggers.len(),
    ensures
        scan_run(scan, cols, create_sql) == (match scanned(scan.triggers, scan.at, cols, create_sql) {
            Ok(rest) => Ok(scan.found + rest),
            Err(refused) => Err(refused),
        }),
    decreases scan.triggers.len() - scan.at,
{
    let at = next_trigger(scan.triggers, scan.at);
    scan_passes_over_the_outbox(scan.triggers, scan.at, cols, create_sql);
    lemma_next_trigger_stops(scan.triggers, scan.at);
    if at == scan.triggers.len() {
        assert(scan.found + Seq::<TableView>::empty() =~= scan.found);
    } else if let Ok(Some(table)) = trigger_table_of(scan.triggers[at].name) {
        if let Ok(found) = captured_table_of(scan.triggers[at], table, cols(table), create_sql(table)) {
            let next = TableScanView { at: at + 1, found: scan.found.push(found), ..scan };
            scan_runs_through_the_triggers(next, cols, create_sql);
            if let Ok(rest) = scanned(scan.triggers, at + 1, cols, create_sql) {
                assert(scan.found.push(found) + rest =~= scan.found + (seq![found] + rest));
            }
        }
    }
}

proof fn lemma_next_trigger_stops(triggers: Seq<TriggerView>, at: int)
    requires
        0 <= at <= triggers.len(),
    ensures
        ({
            let next = next_trigger(triggers, at);
            next < triggers.len() ==> trigger_table_of(triggers[next].name) != Ok::<Option<Seq<char>>, ErrorView>(None)
        }),
    decreases triggers.len() - at,
{
    if at < triggers.len() && trigger_table_of(triggers[at].name) == Ok::<Option<Seq<char>>, ErrorView>(None) {
        lemma_next_trigger_stops(triggers, at + 1);
    }
}

/// Passing over the triggers that stand for the `_outbox` changes nothing of what a scan finds.
pub proof fn scan_passes_over_the_outbox(
    triggers: Seq<TriggerView>,
    at: int,
    cols: spec_fn(Seq<char>) -> Seq<ColView>,
    create_sql: spec_fn(Seq<char>) -> Option<Seq<char>>,
)
    requires
        0 <= at <= triggers.len(),
    ensures
        at <= next_trigger(triggers, at) <= triggers.len(),
        scanned(triggers, at, cols, create_sql) == scanned(triggers, next_trigger(triggers, at), cols, create_sql),
    decreases triggers.len() - at,
{
    if at < triggers.len() && trigger_table_of(triggers[at].name) == Ok::<Option<Seq<char>>, ErrorView>(None) {
        scan_passes_over_the_outbox(triggers, at + 1, cols, create_sql);
    }
}

/// Every table that a scan finds is named in its capture trigger, holds at least one payload column,
/// and names nothing but SQL identifiers; its payload is what its trigger lists, so a column that
/// the trigger leaves out is in the payload of no event.
pub proof fn scan_finds_listed_payloads_only(
    triggers: Seq<TriggerView>,
    at: int,
    cols: spec_fn(Seq<char>) -> Seq<ColView>,
    create_sql: spec_fn(Seq<char>) -> Option<Seq<char>>,
)
    requires
        0 <= at,
        scanned(triggers, at, cols, create_sql) is Ok,
    ensures
        ({
            let found = scanned(triggers, at, cols, create_sql)->Ok_0;
            forall|i: int| #![trigger found[i]] 0 <= i < found.len() ==> {
                &&& valid_ident(found[i].name)
                &&& found[i].payload.len() > 0
                &&& first_bad(found[i].pk + found[i].payload) is None
                &&& exists|t: int| #![trigger triggers[t]] {
                    &&& at <= t < triggers.len()
                    &&& triggers[t].name == "_cap_I_"@ + found[i].name
                    &&& found[i].payload == payload_names(triggers[t].sql)
                }
            }
        }),
    decreases triggers.len() - at,
{
    if at < triggers.len() {
        let here = triggers[at];
        match trigger_table_of(here.name) {
            Ok(Some(table)) => {
                scan_finds_listed_payloads_only(triggers, at + 1, cols, create_sql);
                let first = captured_table_of(here, table, cols(table), create_sql(table))->Ok_0;
                let rest = scanned(triggers, at + 1, cols, create_sql)->Ok_0;
                let found = scanned(triggers, at, cols, create_sql)->Ok_0;
                assert(found =~= seq![first] + rest);
                assert(here.name =~= "_cap_I_"@ + table);
                assert forall|i: int| #![trigger found[i]] 0 <= i < found.len() implies {
                    &&& valid_ident(found[i].name)
                    &&& found[i].payload.len() > 0
                    &&& first_bad(found[i].pk + found[i].payload) is None
                    &&& exists|t: int| #![trigger triggers[t]] {
                        &&& at <= t < triggers.len()
                        &&& triggers[t].name == "_cap_I_"@ + found[i].name
                        &&& found[i].payload == payload_names(triggers[t].sql)
                    }
                } by {
                    if i == 0 {
                        assert(triggers[at].name == "_cap_I_"@ + found[i].name);
                    } else {
                        assert(found[i] == rest[i - 1]);
                    }
                }
            },
            Ok(None) => {
                scan_finds_listed_payloads_only(triggers, at + 1, cols, create_sql);
            },
            Err(_) => {},
        }
    }
}

/// An SQL identifier is made of one to 128 letters, digits and underscores of ASCII and does not start
/// with a digit, and every such text is one.
pub proof fn identifiers_by_their_characters(name: Seq<char>)
    ensures
        valid_ident(name) <==> {
            &&& 1 <= name.len() <= 128
            &&& !('0' <= name[0] <= '9')
            &&& forall|i: int|
                0 <= i < name.len() ==> {
                    ||| '0' <= #[trigger] name[i] <= '9'
                    ||| 'A' <= name[i] <= 'Z'
                    ||| 'a' <= name[i] <= 'z'
                    ||| name[i] == '_'
                }
        },
{
    if valid_ident(name) {
        assert forall|i: int| 0 <= i < name.len() implies {
            ||| '0' <= #[trigger] name[i] <= '9'
            ||| 'A' <= name[i] <= 'Z'
            ||| 'a' <= name[i] <= 'z'
            ||| name[i] == '_'
        } by {
            assert(in_ident(name[i]));
        }
    } else if 1 <= name.len() <= 128 && !('0' <= name[0] <= '9') {
        if forall|i: int| 0 <= i < name.len() ==> in_ident(#[trigger] name[i]) {
            assert(in_ident(name[0]));
        } else {
            let i = choose|i: int| 0 <= i < name.len() && !in_ident(#[trigger] name[i]);
            assert(!({
                ||| '0' <= name[i] <= '9'
                ||| 'A' <= name[i] <= 'Z'
                ||| 'a' <= name[i] <= 'z'
                ||| name[i] == '_'
            }));
        }
    }
}

proof fn lemma_plain_prefix(x: Seq<char>, rest: Seq<char>)
    requires
        forall|i: int| 0 <= i < x.len() ==> (#[trigger] x[i]) != '\'' && x[i] != ')',
    ensures
        quoted_idents(x + rest) == quoted_idents(rest),
    decreases x.len(),
{
    if x.len() == 0 {
        assert(x + rest =~= rest);
    } else {
        assert((x + rest)[0] == x[0]);
        assert((x + rest).drop_first() =~= x.drop_first() + rest);
        assert forall|i: int| 0 <= i < x.drop_first().len() implies (#[trigger] x.drop_first()[i]) != '\''
            && x.drop_first()[i] != ')' by {
            assert(x.drop_first()[i] == x[i + 1]);
        }
        lemma_plain_prefix(x.drop_first(), rest);
    }
}

/// An argument list is read from quote to quote. What stands between two quotes is listed if it is an
/// identifier; what stands outside quotes is passed over, up to the first closing parenthesis, which
/// ends the list. A quote that is never closed runs to the end.
pub proof fn an_argument_list_is_read_from_quote_to_quote(x: Seq<char>, name: Seq<char>, rest: Seq<char>)
    requires
        forall|i: int| 0 <= i < x.len() ==> (#[trigger] x[i]) != '\'' && x[i] != ')',
        forall|i: int| 0 <= i < name.len() ==> (#[trigger] name[i]) != '\'',
    ensures
        quoted_idents(x + seq!['\''] + name + seq!['\''] + rest) == (if valid_ident(name) {
            seq![name] + quoted_idents(rest)
        } else {
            quoted_idents(rest)
        }),
        quoted_idents(x + seq!['\''] + name) == (if valid_ident(name) {
            seq![name]
        } else {
            seq![]
        }),
        quoted_idents(x + seq![')'] + rest) == Seq::<Seq<char>>::empty(),
        quoted_idents(x) == Seq::<Seq<char>>::empty(),
{
    let n = name.len() as int;
    let closed = seq!['\''] + name + seq!['\''] + rest;
    let inside = closed.drop_first();
    assert(x + seq!['\''] + name + seq!['\''] + rest =~= x + closed);
    lemma_plain_prefix(x, closed);
    assert forall|i: int| 0 <= i < n implies !is_quote()(#[trigger] inside[i]) by {
        assert(inside[i] == name[i]);
    }
    assert(inside[n] == '\'');
    model::lemma_count_before(inside, is_quote(), n);
    assert(inside.take(n) =~= name);
    assert(inside.skip(n + 1) =~= rest);
    let open = seq!['\''] + name;
    assert(x + seq!['\''] + name =~= x + open);
    lemma_plain_prefix(x, open);
    assert(open.drop_first() =~= name);
    assert forall|i: int| 0 <= i < n implies !is_quote()(#[trigger] name[i]) by {}
    model::lemma_count_before(name, is_quote(), n);
    assert(name.take(n) =~= name);
    assert(quoted_idents(Seq::<char>::empty()) =~= Seq::<Seq<char>>::empty());
    assert(seq![name] + Seq::<Seq<char>>::empty() =~= seq![name]);
    assert(x + seq![')'] + rest =~= x + (seq![')'] + rest));
    lemma_plain_prefix(x, seq![')'] + rest);
    lemma_plain_prefix(x, Seq::<char>::empty());
    assert(x + Seq::<char>::empty() =~= x);
}

/// The payload of a trigger is read behind the last `json_object(` of its text, and a text without one
/// has none.
pub proof fn the_payload_stands_behind_the_last_json_object(before: Seq<char>, args: Seq<char>)
    ensures
        (forall|i: int| i > before.len() ==> !text::occurs_at(before + "json_object("@ + args, "json_object("@, i))
            ==> payload_names(before + "json_object("@ + args) == quoted_idents(args),
        !text::occurs_in(args, "json_object("@) ==> payload_names(args).len() == 0,
{
    let pat = "json_object("@;
    let sql = before + pat + args;
    let at = before.len() as int;
    if forall|i: int| i > before.len() ==> !text::occurs_at(sql, pat, i) {
        assert(sql.subrange(at, at + pat.len()) =~= pat);
        assert(text::occurs_at(sql, pat, at));
        assert(text::occurs_last_at(sql, pat, at));
        let chosen = choose|i: int| text::occurs_last_at(sql, pat, i);
        assert(text::occurs_last_at(sql, pat, chosen));
        assert(chosen == at);
        assert(sql.skip(at + pat.len()) =~= args);
    }
}

/// Arguments that give each column by its name in single quotes and an expression, one column after the
/// other.
pub open spec fn arguments(columns: Seq<Seq<char>>, exprs: Seq<Seq<char>>) -> Seq<char>
    decreases columns.len(),
{
    if columns.len() == 0 {
        seq![]
    } else {
        seq!['\''] + columns[0] + seq!['\'', ','] + exprs[0] + (if columns.len() == 1 {
            seq![]
        } else {
            seq![',']
        }) + arguments(columns.drop_first(), exprs.drop_first())
    }
}

proof fn lemma_arguments_list_every_column(columns: Seq<Seq<char>>, exprs: Seq<Seq<char>>, behind: Seq<char>)
    requires
        columns.len() == exprs.len(),
        forall|i: int| 0 <= i < columns.len() ==> valid_ident(#[trigger] columns[i]),
        forall|i: int, j: int|
            0 <= i < exprs.len() && 0 <= j < exprs[i].len() ==> (#[trigger] exprs[i][j]) != '\'' && exprs[i][j] != ')',
    ensures
        quoted_idents(arguments(columns, exprs) + seq![')'] + behind) == columns,
    decreases columns.len(),
{
    let whole = arguments(columns, exprs) + seq![')'] + behind;
    let none = Seq::<char>::empty();
    if columns.len() == 0 {
        assert(whole =~= none + seq![')'] + behind);
        an_argument_list_is_read_from_quote_to_quote(none, none, behind);
        assert(columns =~= Seq::<Seq<char>>::empty());
    } else {
        let name = columns[0];
        let cs = columns.drop_first();
        let es = exprs.drop_first();
        let comma: Seq<char> = if columns.len() == 1 {
            seq![]
        } else {
            seq![',']
        };
        let tail = arguments(cs, es) + seq![')'] + behind;
        let gap = seq![','] + exprs[0] + comma;
        assert(whole =~= none + seq!['\''] + name + seq!['\''] + (gap + tail));
        identifiers_by_their_characters(name);
        assert forall|i: int| 0 <= i < name.len() implies (#[trigger] name[i]) != '\'' by {}
        an_argument_list_is_read_from_quote_to_quote(none, name, gap + tail);
        assert forall|i: int| 0 <= i < gap.len() implies (#[trigger] gap[i]) != '\'' && gap[i] != ')' by {
            if 1 <= i < 1 + exprs[0].len() {
                assert(gap[i] == exprs[0][i - 1]);
            }
        }
        lemma_plain_prefix(gap, tail);
        assert forall|i: int| 0 <= i < cs.len() implies valid_ident(#[trigger] cs[i]) by {
            assert(cs[i] == columns[i + 1]);
        }
        assert forall|i: int, j: int| 0 <= i < es.len() && 0 <= j < es[i].len() implies (#[trigger] es[i][j]) != '\''
            && es[i][j] != ')' by {
            assert(es[i][j] == exprs[i + 1][j]);
        }
        lemma_arguments_list_every_column(cs, es, behind);
        assert(seq![name] + cs =~= columns);
    }
}

/// A trigger whose last `json_object(` lists columns, each with an expression without quotes and closing
/// parentheses, has exactly those columns as its payload, however many they are and whatever stands
/// before and behind.
pub proof fn the_payload_is_every_listed_column(
    before: Seq<char>,
    columns: Seq<Seq<char>>,
    exprs: Seq<Seq<char>>,
    behind: Seq<char>,
)
    requires
        columns.len() == exprs.len(),
        forall|i: int| 0 <= i < columns.len() ==> valid_ident(#[trigger] columns[i]),
        forall|i: int, j: int|
            0 <= i < exprs.len() && 0 <= j < exprs[i].len() ==> (#[trigger] exprs[i][j]) != '\'' && exprs[i][j] != ')',
        forall|i: int|
            i > before.len() ==> !text::occurs_at(
                before + "json_object("@ + (arguments(columns, exprs) + seq![')'] + behind),
                "json_object("@,
                i,
            ),
    ensures
        payload_names(before + "json_object("@ + (arguments(columns, exprs) + seq![')'] + behind)) == columns,
{
    lemma_arguments_list_every_column(columns, exprs, behind);
    the_payload_stands_behind_the_last_json_object(before, arguments(columns, exprs) + seq![')'] + behind);
}

/// The primary key of a table is its columns with a place in it, each once: by place, columns that share
/// one in the order in which they are listed.
pub proof fn the_primary_key_goes_by_place(cols: Seq<ColView>)
    ensures
        exists|order: Seq<int>|
            {
                &&& pk_names(cols).len() == #[trigger] order.len()
                &&& forall|a: int| 0 <= a < order.len() ==> #[trigger] pk_names(cols)[a] == cols[order[a]].name
                &&& forall|a: int| 0 <= a < order.len() ==> 0 <= #[trigger] order[a] < cols.len() && cols[order[a]].pk > 0
                &&& forall|a: int, b: int|
                    #![trigger order[a], order[b]]
                    0 <= a < b < order.len() ==> cols[order[a]].pk < cols[order[b]].pk || (cols[order[a]].pk
                        == cols[order[b]].pk && order[a] < order[b])
                &&& forall|k: int| 0 <= k < cols.len() && (#[trigger] cols[k]).pk > 0 ==> order.contains(k)
            },
{
    let order = lemma_some_pk_order(cols);
    primary_key_has_one_order(cols);
    assert(is_pk_order(cols, order));
    assert(pk_names(cols) == order.map_values(|k: int| cols[k].name));
}

/// A table lacks rowids exactly when the text that created it holds the words WITHOUT and ROWID in any
/// case, with one space, tab or line end between them.
pub proof fn without_rowid_in_any_case(s: Seq<char>)
    ensures
        lacks_rowid(Some(s)) <==> exists|at: int|
            0 <= at <= s.len() - 13 && #[trigger] says_without_rowid(s.subrange(at, at + 13)),
        !lacks_rowid(None),
{
    reveal_strlit("WITHOUT ROWID");
    let pat = "WITHOUT ROWID"@;
    let flat = s.map_values(|c: char| option_char(c));
    if lacks_rowid(Some(s)) {
        let at = choose|i: int| text::occurs_at(flat, pat, i);
        let words = s.subrange(at, at + 13);
        assert forall|k: int| 0 <= k < 13 implies option_char(#[trigger] words[k]) == pat[k] by {
            assert(flat.subrange(at, at + 13)[k] == pat[k]);
        }
        assert(says_without_rowid(words)) by {
            assert(option_char(words[0]) == pat[0]);
            assert(option_char(words[1]) == pat[1]);
            assert(option_char(words[2]) == pat[2]);
            assert(option_char(words[3]) == pat[3]);
            assert(option_char(words[4]) == pat[4]);
            assert(option_char(words[5]) == pat[5]);
            assert(option_char(words[6]) == pat[6]);
            assert(option_char(words[7]) == pat[7]);
            assert(option_char(words[8]) == pat[8]);
            assert(option_char(words[9]) == pat[9]);
            assert(option_char(words[10]) == pat[10]);
            assert(option_char(words[11]) == pat[11]);
            assert(option_char(words[12]) == pat[12]);
        }
    }
    if exists|at: int| 0 <= at <= s.len() - 13 && #[trigger] says_without_rowid(s.subrange(at, at + 13)) {
        let at = choose|at: int| 0 <= at <= s.len() - 13 && #[trigger] says_without_rowid(s.subrange(at, at + 13));
        let words = s.subrange(at, at + 13);
        assert(flat.subrange(at, at + 13) =~= pat) by {
            assert forall|k: int| 0 <= k < 13 implies flat.subrange(at, at + 13)[k] == pat[k] by {
                assert(flat.subrange(at, at + 13)[k] == option_char(words[k]));
            }
        }
        assert(text::occurs_at(flat, pat, at));
    }
}

/// Whether thirteen characters are the words WITHOUT and ROWID, in any case, with one space, tab or line
/// end between them.
pub open spec fn says_without_rowid(w: Seq<char>) -> bool {
    &&& w.len() == 13
    &&& (w[0] == 'W' || w[0] == 'w') && (w[1] == 'I' || w[1] == 'i') && (w[2] == 'T' || w[2] == 't') && (w[3] == 'H'
        || w[3] == 'h') && (w[4] == 'O' || w[4] == 'o') && (w[5] == 'U' || w[5] == 'u') && (w[6] == 'T' || w[6] == 't')
    &&& w[7] == ' ' || w[7] == '\t' || w[7] == '\n'
    &&& (w[8] == 'R' || w[8] == 'r') && (w[9] == 'O' || w[9] == 'o') && (w[10] == 'W' || w[10] == 'w') && (w[11] == 'I'
        || w[11] == 'i') && (w[12] == 'D' || w[12] == 'd')
}

/// The columns that are selected are those of the key, in their order, and behind them the columns of the
/// payload that are not there yet, in theirs: one column more in the payload is selected behind all
/// others, unless it is selected already.
pub proof fn key_columns_then_payload_columns(table: TableView, column: Seq<char>)
    ensures
        selected(TableView { payload: seq![], ..table }) == table.pk,
        selected(TableView { payload: table.payload.push(column), ..table }) == (if selected(table).contains(column) {
            selected(table)
        } else {
            selected(table).push(column)
        }),
{
    assert(table.payload.push(column).drop_last() =~= table.payload);
}

proof fn lemma_first_bad(names: Seq<Seq<char>>)
    ensures
        match first_bad(names) {
            None => forall|i: int| 0 <= i < names.len() ==> valid_ident(#[trigger] names[i]),
            Some(bad) => exists|k: int|
                {
                    &&& 0 <= k < names.len()
                    &&& #[trigger] names[k] == bad
                    &&& !valid_ident(bad)
                    &&& forall|i: int| 0 <= i < k ==> valid_ident(#[trigger] names[i])
                },
        },
    decreases names.len(),
{
    if names.len() > 0 && valid_ident(names[0]) {
        let rest = names.drop_first();
        lemma_first_bad(rest);
        match first_bad(rest) {
            None => {
                assert forall|i: int| 0 <= i < names.len() implies valid_ident(#[trigger] names[i]) by {
                    if i > 0 {
                        assert(names[i] == rest[i - 1]);
                    }
                }
            },
            Some(bad) => {
                let k = choose|k: int|
                    {
                        &&& 0 <= k < rest.len()
                        &&& #[trigger] rest[k] == bad
                        &&& !valid_ident(bad)
                        &&& forall|i: int| 0 <= i < k ==> valid_ident(#[trigger] rest[i])
                    };
                assert(names[k + 1] == bad);
                assert forall|i: int| 0 <= i < k + 1 implies valid_ident(#[trigger] names[i]) by {
                    if i > 0 {
                        assert(names[i] == rest[i - 1]);
                    }
                }
            },
        }
    } else if names.len() > 0 {
        assert(names[0] == first_bad(names)->0);
    }
}

/// A select list names every selected column in double quotes, in order, with a comma and a space
/// between two. There is one exactly when there is a column and all columns are identifiers; else the
/// refusal names the table without columns, or the first column that is no identifier.
pub proof fn a_select_list_names_every_column(table: TableView)
    ensures
        match select_list_of(table) {
            Ok(list) => {
                let names = selected(table);
                &&& names.len() > 0
                &&& forall|i: int| 0 <= i < names.len() ==> valid_ident(#[trigger] names[i])
                &&& list == error::joined(
                    Seq::new(names.len(), |i: int| seq!['"'] + names[i] + seq!['"']),
                    ", "@,
                )
            },
            Err(ErrorView::NoColumns { table: name }) => name == table.name && table.pk.len() == 0
                && table.payload.len() == 0,
            Err(ErrorView::Ident { name }) => exists|k: int|
                {
                    let names = selected(table);
                    &&& 0 <= k < names.len()
                    &&& #[trigger] selected(table)[k] == name
                    &&& !valid_ident(name)
                    &&& forall|i: int| 0 <= i < k ==> valid_ident(#[trigger] names[i])
                },
            Err(_) => false,
        },
{
    let names = selected(table);
    lemma_first_bad(names);
    assert(names.map_values(|n: Seq<char>| quoted(n)) =~= Seq::new(
        names.len(),
        |i: int| seq!['"'] + names[i] + seq!['"'],
    ));
    if names.len() == 0 {
        lemma_selected_of_nothing(table.pk, table.payload);
    }
}

proof fn lemma_selected_of_nothing(names: Seq<Seq<char>>, more: Seq<Seq<char>>)
    ensures
        with_new(names, more).len() >= names.len(),
        more.len() > 0 ==> with_new(names, more).len() > 0,
    decreases more.len(),
{
    if more.len() > 0 {
        lemma_selected_of_nothing(names, more.drop_last());
    }
}

/// The statements name their table in double quotes; a page goes by rowid, from the start or behind the
/// parameter, up to the limit.
pub proof fn statements_word_for_word(list: Seq<char>, table: Seq<char>, limit: int)
    ensures
        table_info_text(table) == "PRAGMA table_info(\""@ + table + "\")"@,
        all_rows_text(list, table) == "SELECT "@ + list + " FROM \""@ + table + "\""@,
        rowid_page_text(list, table, true, limit) == "SELECT rowid, "@ + list + " FROM \""@ + table
            + "\" ORDER BY rowid LIMIT "@ + crate::number::decimal(limit),
        rowid_page_text(list, table, false, limit) == "SELECT rowid, "@ + list + " FROM \""@ + table
            + "\" WHERE rowid > ?1 ORDER BY rowid LIMIT "@ + crate::number::decimal(limit),
{
    reveal_strlit("PRAGMA table_info(\"");
    reveal_strlit("PRAGMA table_info(");
    reveal_strlit("\")");
    reveal_strlit(")");
    reveal_strlit(" FROM \"");
    reveal_strlit(" FROM ");
    reveal_strlit("\"");
    reveal_strlit("");
    reveal_strlit("\" ORDER BY rowid LIMIT ");
    reveal_strlit(" ORDER BY rowid LIMIT ");
    reveal_strlit(" WHERE rowid > ?1");
    reveal_strlit("\" WHERE rowid > ?1 ORDER BY rowid LIMIT ");
    assert(table_info_text(table) =~= "PRAGMA table_info(\""@ + table + "\")"@);
    assert(all_rows_text(list, table) =~= "SELECT "@ + list + " FROM \""@ + table + "\""@);
    assert(rowid_page_text(list, table, true, limit) =~= "SELECT rowid, "@ + list + " FROM \""@ + table
        + "\" ORDER BY rowid LIMIT "@ + crate::number::decimal(limit));
    assert(rowid_page_text(list, table, false, limit) =~= "SELECT rowid, "@ + list + " FROM \""@ + table
        + "\" WHERE rowid > ?1 ORDER BY rowid LIMIT "@ + crate::number::decimal(limit));
}

/// The trigger `_cap_I_` and a table's name stands for that table, if the name is an identifier, and for
/// none if it is `_outbox`. A trigger that is named otherwise is refused.
pub proof fn triggers_are_named_after_their_tables(table: Seq<char>, trigger: Seq<char>)
    ensures
        table != "_outbox"@ && valid_ident(table) ==> trigger_table_of("_cap_I_"@ + table) == Ok::<
            Option<Seq<char>>,
            ErrorView,
        >(Some(table)),
        table != "_outbox"@ && !valid_ident(table) ==> trigger_table_of("_cap_I_"@ + table) == Err::<
            Option<Seq<char>>,
            ErrorView,
        >(ErrorView::Ident { name: table }),
        trigger_table_of("_cap_I_"@ + "_outbox"@) == Ok::<Option<Seq<char>>, ErrorView>(None),
        (forall|t: Seq<char>| trigger != #[trigger] ("_cap_I_"@ + t)) ==> trigger_table_of(trigger) == Err::<
            Option<Seq<char>>,
            ErrorView,
        >(ErrorView::UnexpectedTrigger { trigger }),
{
    let prefix = "_cap_I_"@;
    let whole = prefix + table;
    assert(whole.take(prefix.len() as int) =~= prefix);
    assert(whole.skip(prefix.len() as int) =~= table);
    let outbox = prefix + "_outbox"@;
    assert(outbox.take(prefix.len() as int) =~= prefix);
    assert(outbox.skip(prefix.len() as int) =~= "_outbox"@);
    if starts_with(trigger, prefix) {
        assert(trigger =~= prefix + trigger.skip(prefix.len() as int));
    }
}

/// What is captured of a table is its name, its primary key, the payload that its trigger lists, and
/// whether it lacks rowids. A trigger that lists no payload is refused, and so is a table of which a
/// column is no identifier; no other is.
pub proof fn a_captured_table_is_what_its_trigger_lists(
    trigger: TriggerView,
    table: Seq<char>,
    cols: Seq<ColView>,
    create_sql: Option<Seq<char>>,
)
    ensures
        ({
            let columns = pk_names(cols) + payload_names(trigger.sql);
            match captured_table_of(trigger, table, cols, create_sql) {
                Ok(found) => {
                    &&& found.name == table
                    &&& found.pk == pk_names(cols)
                    &&& found.payload == payload_names(trigger.sql)
                    &&& found.payload.len() > 0
                    &&& found.without_rowid == lacks_rowid(create_sql)
                    &&& forall|i: int| 0 <= i < columns.len() ==> valid_ident(#[trigger] columns[i])
                },
                Err(ErrorView::NoPayload { trigger: name }) => name == trigger.name && payload_names(
                    trigger.sql,
                ).len() == 0,
                Err(ErrorView::Ident { name }) => payload_names(trigger.sql).len() > 0 && exists|k: int|
                    {
                        &&& 0 <= k < columns.len()
                        &&& #[trigger] columns[k] == name
                        &&& !valid_ident(name)
                        &&& forall|i: int| 0 <= i < k ==> valid_ident(#[trigger] columns[i])
                    },
                Err(_) => false,
            }
        }),
{
    lemma_first_bad(pk_names(cols) + payload_names(trigger.sql));
}

/// A scan that is not refused finds one table for each trigger that does not stand for the `_outbox`, in
/// the order of the triggers, and no other: `from` tells the trigger of each table.
pub proof fn a_scan_finds_every_captured_table(
    triggers: Seq<TriggerView>,
    at: int,
    cols: spec_fn(Seq<char>) -> Seq<ColView>,
    create_sql: spec_fn(Seq<char>) -> Option<Seq<char>>,
) -> (from: Seq<int>)
    requires
        0 <= at <= triggers.len(),
        scanned(triggers, at, cols, create_sql) is Ok,
    ensures
        from.len() == scanned(triggers, at, cols, create_sql)->Ok_0.len(),
        forall|i: int|
            0 <= i < from.len() ==> {
                let found = scanned(triggers, at, cols, create_sql)->Ok_0[i];
                &&& at <= #[trigger] from[i] < triggers.len()
                &&& triggers[from[i]].name == "_cap_I_"@ + found.name
                &&& found.pk == pk_names(cols(found.name))
                &&& found.payload == payload_names(triggers[from[i]].sql)
                &&& found.without_rowid == lacks_rowid(create_sql(found.name))
            },
        forall|i: int, j: int| #![trigger from[i], from[j]] 0 <= i < j < from.len() ==> from[i] < from[j],
        forall|t: int|
            at <= t < triggers.len() && (#[trigger] triggers[t]).name != "_cap_I_"@ + "_outbox"@ ==> from.contains(t),
    decreases triggers.len() - at,
{
    if at == triggers.len() {
        Seq::empty()
    } else {
        let prefix = "_cap_I_"@;
        let name = triggers[at].name;
        let whole = scanned(triggers, at, cols, create_sql)->Ok_0;
        let rest = a_scan_finds_every_captured_table(triggers, at + 1, cols, create_sql);
        let later = scanned(triggers, at + 1, cols, create_sql)->Ok_0;
        if let Ok(Some(table)) = trigger_table_of(name) {
            assert(name =~= prefix + table);
            let from = seq![at] + rest;
            assert forall|i: int| 0 <= i < from.len() implies {
                let found = whole[i];
                &&& at <= #[trigger] from[i] < triggers.len()
                &&& triggers[from[i]].name == prefix + found.name
                &&& found.pk == pk_names(cols(found.name))
                &&& found.payload == payload_names(triggers[from[i]].sql)
                &&& found.without_rowid == lacks_rowid(create_sql(found.name))
            } by {
                if i > 0 {
                    assert(from[i] == rest[i - 1]);
                    assert(whole[i] == later[i - 1]);
                }
            }
            assert forall|i: int, j: int| #![trigger from[i], from[j]] 0 <= i < j < from.len() implies from[i] < from[j] by {
                assert(from[j] == rest[j - 1]);
                if i > 0 {
                    assert(from[i] == rest[i - 1]);
                }
            }
            assert forall|t: int| at <= t < triggers.len() && (#[trigger] triggers[t]).name != prefix
                + "_outbox"@ implies from.contains(t) by {
                if t == at {
                    assert(from[0] == t);
                } else {
                    assert(rest.contains(t));
                    let k = choose|k: int| 0 <= k < rest.len() && rest[k] == t;
                    assert(from[k + 1] == t);
                }
            }
            from
        } else {
            assert(name =~= prefix + "_outbox"@);
            assert(whole == later);
            rest
        }
    }
}

/// A scan is refused exactly when a trigger is, as the first such trigger is: for its name, or for what is
/// captured of its table.
pub proof fn a_scan_is_refused_for_its_first_bad_trigger(
    triggers: Seq<TriggerView>,
    at: int,
    cols: spec_fn(Seq<char>) -> Seq<ColView>,
    create_sql: spec_fn(Seq<char>) -> Option<Seq<char>>,
) -> (bad: int)
    requires
        0 <= at <= triggers.len(),
        scanned(triggers, at, cols, create_sql) is Err,
    ensures
        at <= bad < triggers.len(),
        match trigger_table_of(triggers[bad].name) {
            Err(refused) => scanned(triggers, at, cols, create_sql)->Err_0 == refused,
            Ok(Some(table)) => captured_table_of(triggers[bad], table, cols(table), create_sql(table)) == Err::<
                TableView,
                ErrorView,
            >(scanned(triggers, at, cols, create_sql)->Err_0),
            Ok(None) => false,
        },
        forall|t: int|
            at <= t < bad ==> match trigger_table_of((#[trigger] triggers[t]).name) {
                Err(_) => false,
                Ok(Some(table)) => captured_table_of(triggers[t], table, cols(table), create_sql(table)) is Ok,
                Ok(None) => true,
            },
    decreases triggers.len() - at,
{
    match trigger_table_of(triggers[at].name) {
        Err(_) => at,
        Ok(Some(table)) => if captured_table_of(triggers[at], table, cols(table), create_sql(table)) is Err {
            at
        } else {
            a_scan_is_refused_for_its_first_bad_trigger(triggers, at + 1, cols, create_sql)
        },
        Ok(None) => a_scan_is_refused_for_its_first_bad_trigger(triggers, at + 1, cols, create_sql),
    }
}

} // verus!
