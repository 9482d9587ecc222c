//! The event envelope, the same for what the collector writes and what the applyer reads.

use vstd::prelude::*;

use crate::error::{CaptureError, ErrorView};
use crate::text::chars_of;

verus! {

/// One change of one row of one captured table.
#[derive(Debug, Clone, PartialEq)]
pub struct Event {
    pub src_db: String,
    pub seq: i64,
    pub tbl: String,
    pub op: String,
    pub ts: i64,
    pub key: serde_json::Value,
    pub before: Option<serde_json::Value>,
    pub after: Option<serde_json::Value>,
}

/// An event, with its texts as character sequences.
pub struct EventView {
    pub src_db: Seq<char>,
    pub seq: i64,
    pub tbl: Seq<char>,
    pub op: Seq<char>,
    pub ts: i64,
    pub key: serde_json::Value,
    pub before: Option<serde_json::Value>,
    pub after: Option<serde_json::Value>,
}

impl View for Event {
    type V = EventView;

    open spec fn view(&self) -> EventView {
        EventView {
            src_db: self.src_db@,
            seq: self.seq,
            tbl: self.tbl@,
            op: self.op@,
            ts: self.ts,
            key: self.key,
            before: self.before,
            after: self.after,
        }
    }
}

/// A copy of an event.
pub fn copy_event(event: &Event) -> (r: Event)
    ensures
        r@ == event@,
{
    Event {
        src_db: event.src_db.clone(),
        seq: event.seq,
        tbl: event.tbl.clone(),
        op: event.op.clone(),
        ts: event.ts,
        key: event.key.clone(),
        before: match &event.before {
            Some(v) => Some(v.clone()),
            None => None,
        },
        after: match &event.after {
            Some(v) => Some(v.clone()),
            None => None,
        },
    }
}

/// Whether a character is an ASCII letter.
pub open spec fn is_letter(c: char) -> bool {
    ('a' <= c && c <= 'z') || ('A' <= c && c <= 'Z')
}

/// Whether a character is an ASCII letter or digit.
pub open spec fn is_letter_or_digit(c: char) -> bool {
    is_letter(c) || ('0' <= c && c <= '9')
}

/// Whether a character may stand in a database name.
pub open spec fn in_db_name(c: char) -> bool {
    is_letter_or_digit(c) || c == '-' || c == '_'
}

/// Whether a text is a database name: one to 128 ASCII letters, digits, hyphens and underscores.
pub open spec fn valid_db_name(name: Seq<char>) -> bool {
    &&& 0 < name.len() <= 128
    &&& forall|i: int| 0 <= i < name.len() ==> in_db_name(#[trigger] name[i])
}

/// Decides whether a character is an ASCII letter.
pub fn letter(c: char) -> (r: bool)
    ensures
        r == is_letter(c),
{
    (c >= 'a' && c <= 'z') || (c >= 'A' && c <= 'Z')
}

/// Decides whether a character is an ASCII letter or digit.
pub fn letter_or_digit(c: char) -> (r: bool)
    ensures
        r == is_letter_or_digit(c),
{
    letter(c) || (c >= '0' && c <= '9')
}

/// Accepts database names and refuses every other text.
pub fn validate_db_name(name: &str) -> (r: Result<(), CaptureError>)
    ensures
        r is Ok <==> valid_db_name(name@),
        r matches Err(e) ==> e@ == (ErrorView::DbName { name: name@ }),
{
    let cs = chars_of(name);
    let mut ok = cs.len() > 0 && cs.len() <= 128;
    let mut i: usize = 0;
    while ok && i < cs.len()
        invariant
            i <= cs@.len(),
            cs@ == name@,
            ok ==> 0 < cs@.len() <= 128,
            ok ==> forall|j: int| 0 <= j < i ==> in_db_name(#[trigger] cs@[j]),
            !ok ==> !valid_db_name(name@),
        decreases cs@.len() - i,
    {
        let c = cs[i];
        if !(letter_or_digit(c) || c == '-' || c == '_') {
            assert(!in_db_name(name@[i as int]));
            ok = false;
        }
        i = i + 1;
    }
    if ok {
        Ok(())
    } else {
        Err(CaptureError::DbName { name: name.to_owned() })
    }
}

/// A database name is a single path component that leads nowhere else: it holds no separator
/// and no dot.
pub proof fn db_name_is_one_component(name: Seq<char>)
    requires
        valid_db_name(name),
    ensures
        !name.contains('/'),
        !name.contains('.'),
        !name.contains('\0'),
{
}

/// A database name is made of one to 128 characters out of the letters, digits, hyphens and underscores
/// of ASCII, and every such text is one.
pub proof fn db_names_by_their_characters(name: Seq<char>)
    ensures
        valid_db_name(name) <==> 1 <= name.len() <= 128 && forall|i: int|
            0 <= i < name.len() ==> {
                let n = (#[trigger] name[i]) as int;
                ||| 0x30 <= n <= 0x39
                ||| 0x41 <= n <= 0x5a
                ||| 0x61 <= n <= 0x7a
                ||| n == 0x2d
                ||| n == 0x5f
            },
{
    let by_code = forall|i: int|
        0 <= i < name.len() ==> {
            let n = (#[trigger] name[i]) as int;
            ||| 0x30 <= n <= 0x39
            ||| 0x41 <= n <= 0x5a
            ||| 0x61 <= n <= 0x7a
            ||| n == 0x2d
            ||| n == 0x5f
        };
    if by_code {
        assert forall|i: int| 0 <= i < name.len() implies in_db_name(#[trigger] name[i]) by {
            let n = name[i] as int;
        }
    } else {
        let i = choose|i: int|
            0 <= i < name.len() && !{
                let n = (#[trigger] name[i]) as int;
                ||| 0x30 <= n <= 0x39
                ||| 0x41 <= n <= 0x5a
                ||| 0x61 <= n <= 0x7a
                ||| n == 0x2d
                ||| n == 0x5f
            };
        assert(!in_db_name(name[i]));
    }
}

} // verus!
