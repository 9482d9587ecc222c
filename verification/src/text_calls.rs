//! What callers rely on of texts, numbers, orders and refusals: each law takes the arguments of one call and
//! what came of it.

use vstd::prelude::*;
use vstd::utf8;

use crate::error;
use crate::error::{join, CaptureError, ErrorView, JsonField};
use crate::event;
use crate::event::{copy_event, letter, letter_or_digit, validate_db_name, Event};
use crate::keytext;
use crate::keytext::key_text;
use crate::model;
use crate::model::copy_names;
use crate::number;
use crate::number::{parse_i32, parse_i64, parse_u32, push_decimal, push_wide_decimal};
use crate::order;
use crate::order::{is_bytes_up_to, is_parts_up_to, sort, Ordered};
use crate::text;
use crate::text::{blank, chars_of, find_last, lines, same_bytes, same_text, space, text_between, trim};

verus! {

/// `trim` takes away the white space around a text and nothing else.
pub proof fn a_text_is_trimmed(s: &str, r: String, before: Seq<char>, name: Seq<char>, behind: Seq<char>)
    requires
        call_ensures(trim, (s,), r),
        s@ == before + name + behind,
        forall|i: int| 0 <= i < before.len() ==> text::is_space(#[trigger] before[i]),
        forall|i: int| 0 <= i < behind.len() ==> text::is_space(#[trigger] behind[i]),
        name.len() > 0 ==> !text::is_space(name[0]) && !text::is_space(name.last()),
    ensures
        r@ == name,
{
    text::trimming_takes_the_white_space_around(before, name, behind);
}

/// `space`, `blank`, `same_text`, `same_bytes`, `chars_of` and `text_between` decide and give what they are
/// named for.
pub proof fn texts_are_taken_character_by_character(
    c: char,
    cs: &Vec<char>,
    from: usize,
    to: usize,
    a: &str,
    b: &str,
    x: &[u8],
    y: &[u8],
    is_space: bool,
    is_blank: bool,
    same: bool,
    equal: bool,
    chars: Vec<char>,
    part: String,
)
    requires
        call_ensures(space, (c,), is_space),
        call_ensures(blank, (cs, from, to), is_blank),
        call_ensures(same_text, (a, b), same),
        call_ensures(same_bytes, (x, y), equal),
        call_ensures(chars_of, (a,), chars),
        call_ensures(text_between, (cs, from, to), part),
        from <= to <= cs@.len(),
    ensures
        is_space == text::is_space(c),
        is_blank <==> forall|i: int| from <= i < to ==> text::is_space(#[trigger] cs@[i]),
        same <==> a@ == b@,
        equal <==> x@ == y@,
        chars@ == a@,
        part@ == cs@.subrange(from as int, to as int),
{
    let sub = cs@.subrange(from as int, to as int);
    if is_blank {
        assert forall|i: int| from <= i < to implies text::is_space(#[trigger] cs@[i]) by {
            assert(sub[i - from] == cs@[i]);
        }
    } else if forall|i: int| from <= i < to ==> text::is_space(#[trigger] cs@[i]) {
        assert forall|i: int| 0 <= i < sub.len() implies text::is_space(#[trigger] sub[i]) by {
            assert(sub[i] == cs@[from + i]);
        }
    }
}

/// `find_last` gives the last place at which a text holds another, and none where it does not hold it.
pub proof fn the_last_occurrence_is_found(s: &Vec<char>, pat: &Vec<char>, r: Option<usize>, i: int)
    requires
        call_ensures(find_last, (s, pat), r),
    ensures
        r matches Some(at) ==> at + pat@.len() <= s@.len() && s@.subrange(at as int, at + pat@.len()) == pat@,
        0 <= i && i + pat@.len() <= s@.len() && s@.subrange(i, i + pat@.len()) == pat@ ==> r is Some && r->0 >= i,
{
    if 0 <= i && i + pat@.len() <= s@.len() && s@.subrange(i, i + pat@.len()) == pat@ {
        assert(text::occurs_at(s@, pat@, i));
    }
    if let Some(at) = r {
        assert(text::occurs_at(s@, pat@, at as int));
    }
}

/// `lines` gives the lines of a text.
pub proof fn a_text_is_cut_into_its_lines(s: &str, r: Vec<String>)
    requires
        call_ensures(lines, (s,), r),
    ensures
        r@.len() == text::lines_of(s@).len(),
        forall|i: int| 0 <= i < r@.len() ==> (#[trigger] r@[i])@ == text::lines_of(s@)[i],
{
    assert(model::views(r@).len() == r@.len());
    assert forall|i: int| 0 <= i < r@.len() implies (#[trigger] r@[i])@ == text::lines_of(s@)[i] by {
        assert(model::views(r@)[i] == r@[i]@);
    }
}

/// `push_decimal` and `push_wide_decimal` write a number behind what stands there.
pub proof fn a_number_is_written_behind(out: &mut String, n: i64)
    requires
        call_ensures(push_decimal, (out, n), ()),
    ensures
        final(out)@ == old(out)@ + number::decimal(n as int),
{
}

/// `push_wide_decimal` writes a number behind what stands there.
pub proof fn a_wide_number_is_written_behind(out: &mut String, n: i128)
    requires
        call_ensures(push_wide_decimal, (out, n), ()),
    ensures
        final(out)@ == old(out)@ + number::decimal(n as int),
{
}

/// What `push_decimal` writes, `parse_i64` reads back.
pub proof fn a_written_number_is_read_back(n: i64, s: &[u8], r: Option<i64>)
    requires
        s@ == utf8::encode_utf8(number::decimal(n as int)),
        call_ensures(parse_i64, (s,), r),
    ensures
        r == Some(n),
{
    number::decimal_reads_back(n);
}

/// `parse_i64`, `parse_i32` and `parse_u32` read digits, alone or behind a plus sign, as their number where
/// it fits, and nothing where it does not.
pub proof fn digits_are_parsed(
    digits: Seq<u8>,
    s: &[u8],
    wide: Option<i64>,
    narrow: Option<i32>,
    natural: Option<u32>,
)
    requires
        call_ensures(parse_i64, (s,), wide),
        call_ensures(parse_i32, (s,), narrow),
        call_ensures(parse_u32, (s,), natural),
        digits.len() > 0,
        forall|i: int| 0 <= i < digits.len() ==> 48 <= #[trigger] digits[i] <= 57,
    ensures
        ({
            let v = number::digits_value(digits) as int;
            &&& s@ == digits || s@ == seq![43u8] + digits ==> {
                &&& wide is Some <==> v <= i64::MAX
                &&& wide is Some ==> wide->0 == v
                &&& narrow is Some <==> v <= i32::MAX
                &&& narrow is Some ==> narrow->0 == v
                &&& natural is Some <==> v <= u32::MAX
                &&& natural is Some ==> natural->0 == v
            }
            &&& s@ == seq![45u8] + digits ==> {
                &&& wide is Some <==> -v >= i64::MIN
                &&& wide is Some ==> wide->0 == -v
                &&& narrow is Some <==> -v >= i32::MIN
                &&& narrow is Some ==> narrow->0 == -v
                &&& natural is None
            }
        }),
{
    number::digits_are_read_where_they_fit(digits);
}

/// `parse_i64`, `parse_i32` and `parse_u32` read nothing but digits behind at most one sign.
pub proof fn other_texts_are_not_parsed(
    s: &[u8],
    from: int,
    wide: Option<i64>,
    narrow: Option<i32>,
    natural: Option<u32>,
)
    requires
        call_ensures(parse_i64, (s,), wide),
        call_ensures(parse_i32, (s,), narrow),
        call_ensures(parse_u32, (s,), natural),
        from == (if s@.len() > 0 && (s@[0] == 43 || s@[0] == 45) {
            1int
        } else {
            0int
        }),
        s@.len() == from || exists|i: int| from <= i < s@.len() && !(48 <= #[trigger] s@[i] <= 57),
    ensures
        wide is None,
        narrow is None,
        natural is None,
{
    number::nothing_but_digits_is_read(s@, from);
}

/// `sort` keeps every item as often as it was there, and puts those first that go first.
pub proof fn items_are_sorted<T: Ordered>(v: Vec<T>, r: Vec<T>)
    requires
        call_ensures(sort::<T>, (v,), r),
    ensures
        r@.to_multiset() == v@.to_multiset(),
        forall|i: int, j: int| #![trigger r@[i], r@[j]] 0 <= i < j < r@.len() ==> r@[i].up_to(&r@[j]),
{
}

/// `is_bytes_up_to` and `is_parts_up_to` go by the first difference.
pub proof fn bytes_and_paths_are_compared(
    a: &[u8],
    b: &[u8],
    p: &Vec<Vec<u8>>,
    q: &Vec<Vec<u8>>,
    bytes: bool,
    paths: bool,
)
    requires
        call_ensures(is_bytes_up_to, (a, b), bytes),
        call_ensures(is_parts_up_to, (p, q), paths),
    ensures
        bytes <==> exists|k: int|
            {
                &&& 0 <= k <= a@.len() && k <= b@.len()
                &&& #[trigger] a@.take(k) == b@.take(k)
                &&& k == a@.len() || (k < b@.len() && a@[k] < b@[k])
            },
        paths <==> order::parts_up_to(model::views(p@), model::views(q@)),
{
    order::bytes_go_by_the_first_difference(a@, b@);
}

/// `join` of one part is the part, and a part more stands behind a separator.
pub proof fn parts_are_joined(
    parts: &Vec<String>,
    more: &Vec<String>,
    sep: &str,
    next: String,
    r: String,
    s: String,
)
    requires
        call_ensures(join, (parts, sep), r),
        call_ensures(join, (more, sep), s),
        more@ == parts@.push(next),
    ensures
        parts@.len() == 0 ==> r@.len() == 0 && s@ == next@,
        parts@.len() > 0 ==> s@ == r@ + sep@ + next@,
{
    let all = model::views(parts@);
    assert(model::views(more@) =~= all.push(next@));
    error::parts_are_joined_in_order(all, sep@, next@);
    if parts@.len() == 0 {
        assert(all =~= seq![]);
        assert(all.push(next@) =~= seq![next@]);
    }
}

/// `CaptureError::message` and `CaptureError::cause` report a refusal.
pub proof fn a_refusal_is_reported(e: &CaptureError, r: String, cause: Option<&str>)
    requires
        call_ensures(CaptureError::message, (e,), r),
        call_ensures(CaptureError::cause, (e,), cause),
    ensures
        match *e {
            CaptureError::DbName { name } => r@
                == "db_name must be ASCII alphanumeric / hyphen / underscore, got "@ + error::debug_text(name@),
            CaptureError::EmptySqlitePath { file } => r@ == "sqlite_path empty in "@ + file@,
            CaptureError::SqliteMissing { path } => r@ == "sqlite missing: "@ + path@,
            CaptureError::DrainFailed { names } => r@ == "drain failed for: "@ + error::joined(
                model::views(names@),
                ", "@,
            ),
            CaptureError::SnapshotFailed { names } => r@ == "snapshot failed for: "@ + error::joined(
                model::views(names@),
                ", "@,
            ),
            CaptureError::NotJson { seq, field, .. } => r@ == "_outbox seq "@ + number::decimal(seq as int) + (
            match field {
                JsonField::Key => " key is not JSON"@,
                JsonField::Before => " before is not JSON"@,
                JsonField::After => " after is not JSON"@,
            }),
            CaptureError::UnexpectedTrigger { trigger } => r@ == "unexpected trigger "@ + trigger@,
            CaptureError::NoPayload { trigger } => r@ == "trigger "@ + trigger@
                + " has no parseable json_object payload (refusing all-column fallback)"@,
            CaptureError::Ident { name } => r@ == "invalid SQL identifier "@ + error::debug_text(name@),
            CaptureError::NoColumns { table } => r@ == table@ + " has no key or payload columns"@,
            CaptureError::ReserveCount => r@ == "reserve_outbox_seq n must be positive"@,
        },
        cause is Some <==> *e is NotJson,
        cause is Some ==> cause->0@ == e->cause@,
{
    if let ErrorView::NotJson { seq, field, cause } = e@ {
        error::refusals_word_for_word(cause, seq![], seq);
    }
}

/// `copy_event` and `copy_names` give what they were given.
pub proof fn copies_are_the_same(e: &Event, names: &Vec<String>, copy: Event, copies: Vec<String>)
    requires
        call_ensures(copy_event, (e,), copy),
        call_ensures(copy_names, (names,), copies),
    ensures
        copy.src_db@ == e.src_db@ && copy.seq == e.seq && copy.tbl@ == e.tbl@ && copy.op@ == e.op@ && copy.ts == e.ts,
        copy.key == e.key && copy.before == e.before && copy.after == e.after,
        copies@.len() == names@.len(),
        forall|i: int| 0 <= i < names@.len() ==> (#[trigger] copies@[i])@ == names@[i]@,
{
    assert(model::views(copies@).len() == model::views(names@).len());
    assert forall|i: int| 0 <= i < names@.len() implies (#[trigger] copies@[i])@ == names@[i]@ by {
        assert(model::views(copies@)[i] == copies@[i]@);
        assert(model::views(names@)[i] == names@[i]@);
    }
}

/// `validate_db_name` accepts exactly one to 128 letters, digits, hyphens and underscores of ASCII, and
/// names what it refuses; `letter` and `letter_or_digit` tell them.
pub proof fn a_db_name_is_accepted(name: &str, r: Result<(), CaptureError>, c: char, is_letter: bool, either: bool)
    requires
        call_ensures(validate_db_name, (name,), r),
        call_ensures(letter, (c,), is_letter),
        call_ensures(letter_or_digit, (c,), either),
    ensures
        r is Ok <==> 1 <= name@.len() <= 128 && forall|i: int|
            0 <= i < name@.len() ==> {
                let n = (#[trigger] name@[i]) as int;
                ||| 0x30 <= n <= 0x39
                ||| 0x41 <= n <= 0x5a
                ||| 0x61 <= n <= 0x7a
                ||| n == 0x2d
                ||| n == 0x5f
            },
        r matches Err(e) ==> e@ == (ErrorView::DbName { name: name@ }),
        is_letter <==> 'a' <= c <= 'z' || 'A' <= c <= 'Z',
        either <==> 'a' <= c <= 'z' || 'A' <= c <= 'Z' || '0' <= c <= '9',
{
    event::db_names_by_their_characters(name@);
}

/// `key_text` writes every number outside quotes in the one form for its value and keeps everything else:
/// of a text that is one number it gives that form.
pub proof fn a_key_is_written_in_its_one_form(s: &str, r: String, before: Seq<char>, token: Seq<char>, behind: Seq<char>)
    requires
        call_ensures(key_text, (s,), r),
        s@ == before + token + behind,
        token.len() > 0,
        '0' <= token[0] <= '9' || token[0] == '-',
        forall|i: int|
            0 <= i < token.len() ==> {
                ||| '0' <= #[trigger] token[i] <= '9'
                ||| token[i] == '-'
                ||| token[i] == '+'
                ||| token[i] == '.'
                ||| token[i] == 'e'
                ||| token[i] == 'E'
            },
        behind.len() > 0 ==> !('0' <= behind[0] <= '9') && behind[0] != '-' && behind[0] != '+' && behind[0] != '.'
            && behind[0] != 'e' && behind[0] != 'E',
        forall|i: int|
            0 <= i < before.len() ==> (#[trigger] before[i]) != '"' && before[i] != '-' && !('0' <= before[i]
                <= '9'),
    ensures
        r@ == before + keytext::normal_number(token) + keytext::normal_json(behind, false),
{
    keytext::numbers_are_written_in_their_one_form(token, behind);
    assert(s@ =~= before + (token + behind));
    lemma_other_text_stays(before, token + behind);
    assert(r@ =~= before + keytext::normal_number(token) + keytext::normal_json(behind, false));
}

proof fn lemma_other_text_stays(before: Seq<char>, rest: Seq<char>)
    requires
        forall|i: int|
            0 <= i < before.len() ==> (#[trigger] before[i]) != '"' && before[i] != '-' && !('0' <= before[i]
                <= '9'),
    ensures
        keytext::normal_json(before + rest, false) == before + keytext::normal_json(rest, false),
    decreases before.len(),
{
    if before.len() == 0 {
        assert(before + rest =~= rest);
        assert(before + keytext::normal_json(rest, false) =~= keytext::normal_json(rest, false));
    } else {
        let tail = before.drop_first();
        assert forall|i: int| 0 <= i < tail.len() implies (#[trigger] tail[i]) != '"' && tail[i] != '-' && !('0'
            <= tail[i] <= '9') by {
            assert(tail[i] == before[i + 1]);
        }
        lemma_other_text_stays(tail, rest);
        keytext::other_characters_stay(before[0], tail + rest);
        assert(before + rest =~= seq![before[0]] + (tail + rest));
        assert(before + keytext::normal_json(rest, false) =~= seq![before[0]] + (tail + keytext::normal_json(
            rest,
            false,
        )));
    }
}

} // verus!
