//! What can go wrong, and how it is reported.

use vstd::prelude::*;

use crate::model;
use crate::number;
use crate::number::push_decimal;

verus! {

/// The JSON columns of an `_outbox` row.
#[derive(Debug, Clone, Copy, PartialEq, Eq, Structural)]
pub enum JsonField {
    Key,
    Before,
    After,
}

/// A refusal of the library.
#[derive(Debug, PartialEq, Eq)]
pub enum CaptureError {
    /// A name that is no database name.
    DbName { name: String },
    /// An announce file that names no sqlite file.
    EmptySqlitePath { file: String },
    /// An announced sqlite file that is not there.
    SqliteMissing { path: String },
    /// The databases that could not be drained.
    DrainFailed { names: Vec<String> },
    /// The databases that could not be snapshotted.
    SnapshotFailed { names: Vec<String> },
    /// A JSON column of an `_outbox` row that holds no JSON, and what the parser said of it.
    NotJson { seq: i64, field: JsonField, cause: String },
    /// A capture trigger whose name does not start as one.
    UnexpectedTrigger { trigger: String },
    /// A capture trigger without a readable payload.
    NoPayload { trigger: String },
    /// A name that is no SQL identifier.
    Ident { name: String },
    /// A captured table of which nothing could be selected.
    NoColumns { table: String },
    /// A reservation of no sequence numbers.
    ReserveCount,
}

/// A refusal, with its texts as character sequences.
pub enum ErrorView {
    DbName { name: Seq<char> },
    EmptySqlitePath { file: Seq<char> },
    SqliteMissing { path: Seq<char> },
    DrainFailed { names: Seq<Seq<char>> },
    SnapshotFailed { names: Seq<Seq<char>> },
    NotJson { seq: i64, field: JsonField, cause: Seq<char> },
    UnexpectedTrigger { trigger: Seq<char> },
    NoPayload { trigger: Seq<char> },
    Ident { name: Seq<char> },
    NoColumns { table: Seq<char> },
    ReserveCount,
}

impl View for CaptureError {
    type V = ErrorView;

    open spec fn view(&self) -> ErrorView {
        match *self {
            CaptureError::DbName { name } => ErrorView::DbName { name: name@ },
            CaptureError::EmptySqlitePath { file } => ErrorView::EmptySqlitePath { file: file@ },
            CaptureError::SqliteMissing { path } => ErrorView::SqliteMissing { path: path@ },
            CaptureError::DrainFailed { names } => ErrorView::DrainFailed { names: model::views(names@) },
            CaptureError::SnapshotFailed { names } => ErrorView::SnapshotFailed { names: model::views(names@) },
            CaptureError::NotJson { seq, field, cause } => ErrorView::NotJson { seq, field, cause: cause@ },
            CaptureError::UnexpectedTrigger { trigger } => ErrorView::UnexpectedTrigger { trigger: trigger@ },
            CaptureError::NoPayload { trigger } => ErrorView::NoPayload { trigger: trigger@ },
            CaptureError::Ident { name } => ErrorView::Ident { name: name@ },
            CaptureError::NoColumns { table } => ErrorView::NoColumns { table: table@ },
            CaptureError::ReserveCount => ErrorView::ReserveCount,
        }
    }
}

/// A result, its refusal by its view.
pub open spec fn refusal_view<T>(r: Result<T, CaptureError>) -> Result<T, ErrorView> {
    match r {
        Ok(x) => Ok(x),
        Err(e) => Err(e@),
    }
}

/// A text in double quotes, with what needs it escaped, as `{:?}` of std writes a `str`.
pub uninterp spec fn debug_text(s: Seq<char>) -> Seq<char>;

/// `<str as std::fmt::Debug>::fmt`: what `{:?}` writes depends on the text alone.
#[verifier::external_body]
fn debug_quoted(s: &str) -> (r: String)
    ensures
        r@ == debug_text(s@),
{
    format!("{s:?}")
}

/// The parts, with `sep` between each two of them.
pub open spec fn joined(parts: Seq<Seq<char>>, sep: Seq<char>) -> Seq<char>
    decreases parts.len(),
{
    if parts.len() == 0 {
        seq![]
    } else if parts.len() == 1 {
        parts[0]
    } else {
        joined(parts.drop_last(), sep) + sep + parts.last()
    }
}

/// Joins strings with a separator.
pub fn join(parts: &Vec<String>, sep: &str) -> (r: String)
    ensures
        r@ == joined(model::views(parts@), sep@),
{
    let mut out = String::new();
    let mut i: usize = 0;
    while i < parts.len()
        invariant
            i <= parts@.len(),
            out@ == joined(model::views(parts@).take(i as int), sep@),
        decreases parts@.len() - i,
    {
        if i > 0 {
            out.append(sep);
        }
        out.append(parts[i].as_str());
        proof {
            let all = model::views(parts@);
            assert(all.take(i + 1).drop_last() =~= all.take(i as int));
            assert(all.take(i + 1).last() == parts@[i as int]@);
            assert(out@ =~= joined(all.take(i + 1), sep@));
        }
        i = i + 1;
    }
    assert(model::views(parts@).take(parts@.len() as int) =~= model::views(parts@));
    out
}

/// The name of a JSON column.
pub open spec fn field_name(field: JsonField) -> Seq<char> {
    match field {
        JsonField::Key => "key"@,
        JsonField::Before => "before"@,
        JsonField::After => "after"@,
    }
}

/// How a refusal is reported.
pub open spec fn error_text(e: ErrorView) -> Seq<char> {
    match e {
        ErrorView::DbName { name } =>
            "db_name must be ASCII alphanumeric / hyphen / underscore, got "@ + debug_text(name),
        ErrorView::EmptySqlitePath { file } => "sqlite_path empty in "@ + file,
        ErrorView::SqliteMissing { path } => "sqlite missing: "@ + path,
        ErrorView::DrainFailed { names } => "drain failed for: "@ + joined(names, ", "@),
        ErrorView::SnapshotFailed { names } => "snapshot failed for: "@ + joined(names, ", "@),
        ErrorView::NotJson { seq, field, .. } =>
            "_outbox seq "@ + number::decimal(seq as int) + " "@ + field_name(field) + " is not JSON"@,
        ErrorView::UnexpectedTrigger { trigger } => "unexpected trigger "@ + trigger,
        ErrorView::NoPayload { trigger } =>
            "trigger "@ + trigger + " has no parseable json_object payload (refusing all-column fallback)"@,
        ErrorView::Ident { name } => "invalid SQL identifier "@ + debug_text(name),
        ErrorView::NoColumns { table } => table + " has no key or payload columns"@,
        ErrorView::ReserveCount => "reserve_outbox_seq n must be positive"@,
    }
}

impl CaptureError {
    /// What lies behind this refusal, where something does: the words of the parser.
    pub fn cause(&self) -> (r: Option<&str>)
        ensures
            match (r, self@) {
                (Some(text), ErrorView::NotJson { cause, .. }) => text@ == cause,
                (Some(_), _) => false,
                (None, refusal) => !(refusal is NotJson),
            },
    {
        match self {
            CaptureError::NotJson { cause, .. } => Some(cause.as_str()),
            _ => None,
        }
    }

    /// The report of this refusal.
    pub fn message(&self) -> (r: String)
        ensures
            r@ == error_text(self@),
    {
        let mut out = String::new();
        match self {
            CaptureError::DbName { name } => {
                out.append("db_name must be ASCII alphanumeric / hyphen / underscore, got ");
                out.append(debug_quoted(name.as_str()).as_str());
            },
            CaptureError::EmptySqlitePath { file } => {
                out.append("sqlite_path empty in ");
                out.append(file.as_str());
            },
            CaptureError::SqliteMissing { path } => {
                out.append("sqlite missing: ");
                out.append(path.as_str());
            },
            CaptureError::DrainFailed { names } => {
                out.append("drain failed for: ");
                out.append(join(names, ", ").as_str());
            },
            CaptureError::SnapshotFailed { names } => {
                out.append("snapshot failed for: ");
                out.append(join(names, ", ").as_str());
            },
            CaptureError::NotJson { seq, field, .. } => {
                out.append("_outbox seq ");
                push_decimal(&mut out, *seq);
                out.append(" ");
                match field {
                    JsonField::Key => out.append("key"),
                    JsonField::Before => out.append("before"),
                    JsonField::After => out.append("after"),
                }
                out.append(" is not JSON");
            },
            CaptureError::UnexpectedTrigger { trigger } => {
                out.append("unexpected trigger ");
                out.append(trigger.as_str());
            },
            CaptureError::NoPayload { trigger } => {
                out.append("trigger ");
                out.append(trigger.as_str());
                out.append(" has no parseable json_object payload (refusing all-column fallback)");
            },
            CaptureError::Ident { name } => {
                out.append("invalid SQL identifier ");
                out.append(debug_quoted(name.as_str()).as_str());
            },
            CaptureError::NoColumns { table } => {
                out.append(table.as_str());
                out.append(" has no key or payload columns");
            },
            CaptureError::ReserveCount => {
                out.append("reserve_outbox_seq n must be positive");
            },
        }
        assert(out@ =~= error_text(self@));
        out
    }
}

/// Parts are joined in order, each once: one part more stands behind a separator, and the first behind
/// none.
pub proof fn parts_are_joined_in_order(parts: Seq<Seq<char>>, sep: Seq<char>, next: Seq<char>)
    ensures
        joined(seq![], sep).len() == 0,
        joined(seq![next], sep) == next,
        parts.len() > 0 ==> joined(parts.push(next), sep) == joined(parts, sep) + sep + next,
{
    assert(parts.push(next).drop_last() =~= parts);
}

/// What each refusal is reported as, word for word.
pub proof fn refusals_word_for_word(text: Seq<char>, names: Seq<Seq<char>>, seq: i64)
    ensures
        error_text(ErrorView::DbName { name: text })
            == "db_name must be ASCII alphanumeric / hyphen / underscore, got "@ + debug_text(text),
        error_text(ErrorView::EmptySqlitePath { file: text }) == "sqlite_path empty in "@ + text,
        error_text(ErrorView::SqliteMissing { path: text }) == "sqlite missing: "@ + text,
        error_text(ErrorView::DrainFailed { names }) == "drain failed for: "@ + joined(names, ", "@),
        error_text(ErrorView::SnapshotFailed { names }) == "snapshot failed for: "@ + joined(names, ", "@),
        error_text(ErrorView::NotJson { seq, field: JsonField::Key, cause: text }) == "_outbox seq "@ + number::decimal(
            seq as int,
        ) + " key is not JSON"@,
        error_text(ErrorView::NotJson { seq, field: JsonField::Before, cause: text }) == "_outbox seq "@
            + number::decimal(seq as int) + " before is not JSON"@,
        error_text(ErrorView::NotJson { seq, field: JsonField::After, cause: text }) == "_outbox seq "@ + number::decimal(
            seq as int,
        ) + " after is not JSON"@,
        error_text(ErrorView::UnexpectedTrigger { trigger: text }) == "unexpected trigger "@ + text,
        error_text(ErrorView::NoPayload { trigger: text }) == "trigger "@ + text
            + " has no parseable json_object payload (refusing all-column fallback)"@,
        error_text(ErrorView::Ident { name: text }) == "invalid SQL identifier "@ + debug_text(text),
        error_text(ErrorView::NoColumns { table: text }) == text + " has no key or payload columns"@,
        error_text(ErrorView::ReserveCount) == "reserve_outbox_seq n must be positive"@,
{
    reveal_strlit(" ");
    reveal_strlit("key");
    reveal_strlit("before");
    reveal_strlit("after");
    reveal_strlit(" is not JSON");
    reveal_strlit(" key is not JSON");
    reveal_strlit(" before is not JSON");
    reveal_strlit(" after is not JSON");
    let n = number::decimal(seq as int);
    assert("_outbox seq "@ + n + " "@ + "key"@ + " is not JSON"@ =~= "_outbox seq "@ + n + " key is not JSON"@);
    assert("_outbox seq "@ + n + " "@ + "before"@ + " is not JSON"@ =~= "_outbox seq "@ + n + " before is not JSON"@);
    assert("_outbox seq "@ + n + " "@ + "after"@ + " is not JSON"@ =~= "_outbox seq "@ + n + " after is not JSON"@);
}

} // verus!
