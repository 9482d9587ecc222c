//! Text and byte helpers: characters of a string, white space, substrings and lines.

use vstd::prelude::*;
use vstd::string::*;
use vstd::utf8;

use crate::model;

verus! {

/// `String::push` of std: the string grows by the given character at its end.
pub assume_specification[ String::push ](s: &mut String, c: char)
    ensures
        final(s)@ == old(s)@.push(c),
;

/// `std::str::Utf8Error`, which is only carried, never looked into.
#[verifier::external_type_specification]
#[verifier::external_body]
pub struct ExUtf8Error(std::str::Utf8Error);

/// `std::str::from_utf8`: succeeds exactly on valid UTF-8, and then gives the text with those bytes.
pub assume_specification<'a>[ std::str::from_utf8 ](v: &'a [u8]) -> (r: Result<&'a str, std::str::Utf8Error>)
    ensures
        r is Ok <==> utf8::valid_utf8(v@),
        r matches Ok(s) ==> s.spec_bytes() == v@,
;

/// The characters of a string, one by one.
pub fn chars_of(s: &str) -> (r: Vec<char>)
    ensures
        r@ == s@,
{
    let mut out: Vec<char> = Vec::new();
    for c in it: s.chars()
        invariant
            it.seq() == s@,
            out@ == s@.take(it.index()),
    {
        out.push(c);
        assert(s@.take(it.index() + 1) =~= s@.take(it.index()).push(c));
    }
    assert(s@.take(s@.len() as int) =~= s@);
    out
}

/// The characters `from..to` of `cs` as a string.
pub fn text_between(cs: &Vec<char>, from: usize, to: usize) -> (r: String)
    requires
        from <= to <= cs@.len(),
    ensures
        r@ == cs@.subrange(from as int, to as int),
{
    let mut out = String::new();
    let mut i: usize = from;
    while i < to
        invariant
            from <= i <= to <= cs@.len(),
            out@ == cs@.subrange(from as int, i as int),
        decreases to - i,
    {
        out.push(cs[i]);
        assert(cs@.subrange(from as int, i + 1) =~= cs@.subrange(from as int, i as int).push(cs@[i as int]));
        i = i + 1;
    }
    out
}

/// Two texts with the same bytes are the same text.
pub proof fn lemma_bytes_determine_text(a: Seq<char>, b: Seq<char>)
    requires
        utf8::encode_utf8(a) == utf8::encode_utf8(b),
    ensures
        a == b,
{
    utf8::encode_utf8_decode_utf8(a);
    utf8::encode_utf8_decode_utf8(b);
}

/// Whether two byte strings are equal.
pub fn same_bytes(a: &[u8], b: &[u8]) -> (r: bool)
    ensures
        r == (a@ == b@),
{
    if a.len() != b.len() {
        return false;
    }
    let mut i: usize = 0;
    while i < a.len()
        invariant
            i <= a@.len(),
            a@.len() == b@.len(),
            forall|j: int| 0 <= j < i ==> a@[j] == b@[j],
        decreases a@.len() - i,
    {
        if a[i] != b[i] {
            return false;
        }
        i = i + 1;
    }
    assert(a@ =~= b@);
    true
}

/// Whether two strings are equal.
pub fn same_text(a: &str, b: &str) -> (r: bool)
    ensures
        r == (a@ == b@),
{
    let r = same_bytes(a.as_bytes(), b.as_bytes());
    proof {
        if r {
            lemma_bytes_determine_text(a@, b@);
        }
    }
    r
}

/// Whether `pat` stands in `s` at `i`.
pub open spec fn occurs_at(s: Seq<char>, pat: Seq<char>, i: int) -> bool {
    &&& 0 <= i
    &&& i + pat.len() <= s.len()
    &&& s.subrange(i, i + pat.len()) == pat
}

/// Whether `pat` stands anywhere in `s`.
pub open spec fn occurs_in(s: Seq<char>, pat: Seq<char>) -> bool {
    exists|i: int| occurs_at(s, pat, i)
}

/// Whether `i` is the last place at which `pat` stands in `s`.
pub open spec fn occurs_last_at(s: Seq<char>, pat: Seq<char>, i: int) -> bool {
    &&& occurs_at(s, pat, i)
    &&& forall|j: int| j > i ==> !occurs_at(s, pat, j)
}

fn stands_at(s: &Vec<char>, pat: &Vec<char>, i: usize) -> (r: bool)
    requires
        i + pat@.len() <= s@.len(),
    ensures
        r == occurs_at(s@, pat@, i as int),
{
    let len = s.len();
    let mut k: usize = 0;
    while k < pat.len()
        invariant
            k <= pat@.len(),
            i + pat@.len() <= s@.len() == len,
            forall|j: int| 0 <= j < k ==> s@[i + j] == pat@[j],
        decreases pat@.len() - k,
    {
        if s[i + k] != pat[k] {
            assert(s@.subrange(i as int, i + pat@.len())[k as int] != pat@[k as int]);
            return false;
        }
        k = k + 1;
    }
    assert(s@.subrange(i as int, i + pat@.len()) =~= pat@);
    true
}

/// The last place at which `pat` stands in `s`, if it stands there at all.
pub fn find_last(s: &Vec<char>, pat: &Vec<char>) -> (r: Option<usize>)
    ensures
        match r {
            Some(i) => occurs_last_at(s@, pat@, i as int),
            None => !occurs_in(s@, pat@),
        },
{
    if pat.len() > s.len() {
        return None;
    }
    let mut i: usize = s.len() - pat.len();
    loop
        invariant
            i + pat@.len() <= s@.len(),
            forall|j: int| j > i ==> !occurs_at(s@, pat@, j),
        decreases i,
    {
        if stands_at(s, pat, i) {
            return Some(i);
        }
        if i == 0 {
            return None;
        }
        i = i - 1;
    }
}

/// Whether a character is white space in Unicode.
pub open spec fn is_space(c: char) -> bool {
    ||| '\u{9}' <= c <= '\u{d}'
    ||| c == ' '
    ||| c == '\u{85}'
    ||| c == '\u{a0}'
    ||| c == '\u{1680}'
    ||| '\u{2000}' <= c <= '\u{200a}'
    ||| c == '\u{2028}'
    ||| c == '\u{2029}'
    ||| c == '\u{202f}'
    ||| c == '\u{205f}'
    ||| c == '\u{3000}'
}

/// Whether a character is white space.
pub fn space(c: char) -> (r: bool)
    ensures
        r == is_space(c),
{
    ('\u{9}' <= c && c <= '\u{d}') || c == ' ' || c == '\u{85}' || c == '\u{a0}' || c == '\u{1680}' || ('\u{2000}' <= c
        && c <= '\u{200a}') || c == '\u{2028}' || c == '\u{2029}' || c == '\u{202f}' || c == '\u{205f}' || c
        == '\u{3000}'
}

/// Whether a text is nothing but white space.
pub open spec fn is_blank(s: Seq<char>) -> bool {
    forall|i: int| 0 <= i < s.len() ==> is_space(#[trigger] s[i])
}

/// A text without the white space at its ends.
pub open spec fn trimmed(s: Seq<char>) -> Seq<char>
    decreases s.len(),
{
    if s.len() == 0 {
        s
    } else if is_space(s[0]) {
        trimmed(s.drop_first())
    } else if is_space(s.last()) {
        trimmed(s.drop_last())
    } else {
        s
    }
}

/// Whether a part of a text is nothing but white space.
pub fn blank(cs: &Vec<char>, from: usize, to: usize) -> (r: bool)
    requires
        from <= to <= cs@.len(),
    ensures
        r == is_blank(cs@.subrange(from as int, to as int)),
{
    let ghost part = cs@.subrange(from as int, to as int);
    let mut i: usize = from;
    while i < to
        invariant
            from <= i <= to <= cs@.len(),
            part == cs@.subrange(from as int, to as int),
            forall|j: int| 0 <= j < i - from ==> is_space(#[trigger] part[j]),
        decreases to - i,
    {
        if !space(cs[i]) {
            assert(part[i - from] == cs@[i as int]);
            return false;
        }
        i = i + 1;
    }
    true
}

/// A text without the white space at its ends.
pub fn trim(s: &str) -> (r: String)
    ensures
        r@ == trimmed(s@),
{
    let cs = chars_of(s);
    let mut from: usize = 0;
    let mut to: usize = cs.len();
    assert(cs@.subrange(0, cs@.len() as int) =~= cs@);
    while from < to && space(cs[from])
        invariant
            from <= to <= cs@.len(),
            trimmed(cs@.subrange(from as int, to as int)) == trimmed(s@),
        decreases to - from,
    {
        assert(cs@.subrange(from as int, to as int).drop_first() =~= cs@.subrange(from + 1, to as int));
        from = from + 1;
    }
    while from < to && space(cs[to - 1])
        invariant
            from <= to <= cs@.len(),
            from < to ==> !is_space(cs@[from as int]),
            trimmed(cs@.subrange(from as int, to as int)) == trimmed(s@),
        decreases to - from,
    {
        assert(cs@.subrange(from as int, to as int).drop_last() =~= cs@.subrange(from as int, to - 1));
        to = to - 1;
    }
    text_between(&cs, from, to)
}

/// Whether a character is a line feed.
pub open spec fn is_feed() -> spec_fn(char) -> bool {
    |c: char| c == '\n'
}

/// How many characters stand before the first line feed, or all of them.
pub open spec fn before_feed(s: Seq<char>) -> nat {
    model::count_before(s, is_feed())
}

/// A line without the carriage return at its end.
pub open spec fn without_return(line: Seq<char>) -> Seq<char> {
    if line.len() > 0 && line.last() == '\r' {
        line.drop_last()
    } else {
        line
    }
}

/// The lines of a text. A line feed ends a line, along with a carriage return before it; what follows
/// the last line feed is a line if it is not empty.
pub open spec fn lines_of(s: Seq<char>) -> Seq<Seq<char>>
    decreases s.len(),
{
    let n = before_feed(s) as int;
    if s.len() == 0 {
        seq![]
    } else if n >= s.len() {
        seq![s]
    } else {
        seq![without_return(s.take(n))] + lines_of(s.skip(n + 1))
    }
}

/// The lines of a text.
pub fn lines(s: &str) -> (r: Vec<String>)
    ensures
        model::views(r@) == lines_of(s@),
{
    let cs = chars_of(s);
    let len = cs.len();
    let mut out: Vec<String> = Vec::new();
    let mut from: usize = 0;
    assert(cs@.skip(0) =~= cs@);
    assert(model::views(out@) + lines_of(cs@) =~= lines_of(cs@));
    while from < len
        invariant
            len == cs@.len(),
            from <= len,
            model::views(out@) + lines_of(cs@.skip(from as int)) == lines_of(s@),
        decreases len - from,
    {
        let ghost rest = cs@.skip(from as int);
        let ghost before = model::views(out@);
        let mut at: usize = from;
        while at < len && cs[at] != '\n'
            invariant
                len == cs@.len(),
                from <= at <= len,
                rest == cs@.skip(from as int),
                forall|i: int| 0 <= i < at - from ==> (#[trigger] rest[i]) != '\n',
            decreases len - at,
        {
            assert(rest[at - from] == cs@[at as int]);
            at = at + 1;
        }
        proof {
            if at < len {
                assert(rest[at - from] == cs@[at as int]);
            }
            model::lemma_count_before(rest, is_feed(), at - from);
        }
        if at == len {
            out.push(text_between(&cs, from, len));
            assert(cs@.subrange(from as int, len as int) =~= rest);
            assert(model::views(out@) =~= before.push(rest));
            from = len;
            assert(cs@.skip(from as int) =~= Seq::<char>::empty());
            assert(before.push(rest) + Seq::<Seq<char>>::empty() =~= before + seq![rest]);
        } else {
            let to: usize = if at > from && cs[at - 1] == '\r' {
                at - 1
            } else {
                at
            };
            out.push(text_between(&cs, from, to));
            let ghost line = without_return(rest.take(at - from));
            assert(cs@.subrange(from as int, to as int) =~= line);
            assert(model::views(out@) =~= before.push(line));
            assert(rest.skip(at - from + 1) =~= cs@.skip(at + 1));
            from = at + 1;
            assert(before.push(line) + lines_of(cs@.skip(from as int)) =~= before + (seq![line] + lines_of(
                cs@.skip(from as int),
            )));
        }
    }
    assert(cs@.skip(from as int) =~= Seq::<char>::empty());
    assert(model::views(out@) + Seq::<Seq<char>>::empty() =~= model::views(out@));
    out
}

/// Lines, each of them ended by a line feed.
pub open spec fn ended_lines(lines: Seq<Seq<char>>) -> Seq<char>
    decreases lines.len(),
{
    if lines.len() == 0 {
        seq![]
    } else {
        ended_lines(lines.drop_last()) + lines.last().push('\n')
    }
}

/// Whether a text can stand as a line: it holds no line feed and does not end in a carriage return.
pub open spec fn fits_a_line(line: Seq<char>) -> bool {
    &&& forall|i: int| 0 <= i < line.len() ==> (#[trigger] line[i]) != '\n'
    &&& line.len() > 0 ==> line.last() != '\r'
}

proof fn lemma_ended_lines_front(lines: Seq<Seq<char>>)
    requires
        lines.len() > 0,
    ensures
        ended_lines(lines) == lines[0].push('\n') + ended_lines(lines.drop_first()),
    decreases lines.len(),
{
    if lines.len() == 1 {
        assert(lines.drop_last() =~= seq![]);
        assert(lines.drop_first() =~= seq![]);
        assert(Seq::<char>::empty() + lines[0].push('\n') =~= lines[0].push('\n') + Seq::<char>::empty());
    } else {
        lemma_ended_lines_front(lines.drop_last());
        assert(lines.drop_last().drop_first() =~= lines.drop_first().drop_last());
        assert(lines.drop_first().last() == lines.last());
        let head = lines[0].push('\n');
        let mid = ended_lines(lines.drop_first().drop_last());
        let tail = lines.last().push('\n');
        assert((head + mid) + tail =~= head + (mid + tail));
    }
}

/// Lines that are written one after the other, each ended by a line feed, are read back as they were.
pub proof fn ended_lines_read_back(lines: Seq<Seq<char>>)
    requires
        forall|i: int| 0 <= i < lines.len() ==> fits_a_line(#[trigger] lines[i]),
    ensures
        lines_of(ended_lines(lines)) == lines,
    decreases lines.len(),
{
    if lines.len() > 0 {
        let line = lines[0];
        let rest = lines.drop_first();
        let s = ended_lines(lines);
        assert(fits_a_line(line));
        lemma_ended_lines_front(lines);
        assert forall|i: int| 0 <= i < rest.len() implies fits_a_line(#[trigger] rest[i]) by {
            assert(rest[i] == lines[i + 1]);
        }
        ended_lines_read_back(rest);
        let n = line.len() as int;
        assert forall|i: int| 0 <= i < n implies (#[trigger] s[i]) != '\n' by {
            assert(s[i] == line[i]);
        }
        assert(s[n] == '\n');
        model::lemma_count_before(s, is_feed(), n);
        assert(s.take(n) =~= line);
        assert(s.skip(n + 1) =~= ended_lines(rest));
        assert(seq![line] + rest =~= lines);
    }
}

/// White space is what Unicode calls so.
pub proof fn white_space_by_code_point(c: char)
    ensures
        is_space(c) <==> {
            let n = c as u32;
            ||| 0x9 <= n <= 0xd
            ||| n == 0x20 || n == 0x85 || n == 0xa0 || n == 0x1680
            ||| 0x2000 <= n <= 0x200a
            ||| n == 0x2028 || n == 0x2029 || n == 0x202f || n == 0x205f || n == 0x3000
        },
{
}

proof fn lemma_trimmed_blank(s: Seq<char>)
    requires
        forall|i: int| 0 <= i < s.len() ==> is_space(#[trigger] s[i]),
    ensures
        trimmed(s) == Seq::<char>::empty(),
    decreases s.len(),
{
    if s.len() > 0 {
        assert(is_space(s[0]));
        assert forall|i: int| 0 <= i < s.drop_first().len() implies is_space(#[trigger] s.drop_first()[i]) by {
            assert(s.drop_first()[i] == s[i + 1]);
        }
        lemma_trimmed_blank(s.drop_first());
    } else {
        assert(s =~= Seq::<char>::empty());
    }
}

/// White space around a text goes, and nothing else does: what is between stays, if it neither starts
/// nor ends with white space.
pub proof fn trimming_takes_the_white_space_around(a: Seq<char>, s: Seq<char>, b: Seq<char>)
    requires
        forall|i: int| 0 <= i < a.len() ==> is_space(#[trigger] a[i]),
        forall|i: int| 0 <= i < b.len() ==> is_space(#[trigger] b[i]),
        s.len() > 0 ==> !is_space(s[0]) && !is_space(s.last()),
    ensures
        trimmed(a + s + b) == s,
    decreases a.len() + b.len(),
{
    let whole = a + s + b;
    if s.len() == 0 {
        assert forall|i: int| 0 <= i < whole.len() implies is_space(#[trigger] whole[i]) by {
            if i < a.len() {
                assert(whole[i] == a[i]);
            } else {
                assert(whole[i] == b[i - a.len()]);
            }
        }
        lemma_trimmed_blank(whole);
        assert(s =~= Seq::<char>::empty());
    } else if a.len() > 0 {
        assert(whole[0] == a[0]);
        assert(whole.drop_first() =~= a.drop_first() + s + b);
        assert forall|i: int| 0 <= i < a.drop_first().len() implies is_space(#[trigger] a.drop_first()[i]) by {
            assert(a.drop_first()[i] == a[i + 1]);
        }
        trimming_takes_the_white_space_around(a.drop_first(), s, b);
    } else if b.len() > 0 {
        assert(whole[0] == s[0]);
        assert(whole.last() == b[b.len() - 1]);
        assert(whole.drop_last() =~= a + s + b.drop_last());
        assert forall|i: int| 0 <= i < b.drop_last().len() implies is_space(#[trigger] b.drop_last()[i]) by {
            assert(b.drop_last()[i] == b[i]);
        }
        trimming_takes_the_white_space_around(a, s, b.drop_last());
    } else {
        assert(whole =~= s);
    }
}

/// A text is blank exactly when nothing is left of it without the white space around it.
pub proof fn blank_texts_trim_to_nothing(s: Seq<char>)
    ensures
        is_blank(s) <==> trimmed(s).len() == 0,
        is_blank(s) <==> forall|i: int| 0 <= i < s.len() ==> is_space(#[trigger] s[i]),
{
    if is_blank(s) {
        lemma_trimmed_blank(s);
    } else {
        let i = choose|i: int| 0 <= i < s.len() && !is_space(#[trigger] s[i]);
        lemma_trimmed_keeps(s, i);
    }
}

proof fn lemma_trimmed_keeps(s: Seq<char>, i: int)
    requires
        0 <= i < s.len(),
        !is_space(s[i]),
    ensures
        trimmed(s).len() > 0,
    decreases s.len(),
{
    if is_space(s[0]) {
        assert(s.drop_first()[i - 1] == s[i]);
        lemma_trimmed_keeps(s.drop_first(), i - 1);
    } else if is_space(s.last()) {
        assert(s.drop_last()[i] == s[i]);
        lemma_trimmed_keeps(s.drop_last(), i);
    }
}

/// A text is cut into lines at its line feeds. What stands before one is a line, a carriage return at
/// its very end left out; what stands behind the last is a line as it is, unless it is empty.
pub proof fn lines_are_cut_at_line_feeds(line: Seq<char>, rest: Seq<char>)
    requires
        forall|i: int| 0 <= i < line.len() ==> (#[trigger] line[i]) != '\n',
    ensures
        lines_of(line.push('\n') + rest) == seq![
            if line.len() > 0 && line[line.len() - 1] == '\r' {
                line.subrange(0, line.len() - 1)
            } else {
                line
            },
        ] + lines_of(rest),
        line.len() > 0 ==> lines_of(line) == seq![line],
        lines_of(Seq::<char>::empty()).len() == 0,
{
    let s = line.push('\n') + rest;
    let n = line.len() as int;
    assert forall|i: int| 0 <= i < n implies !is_feed()(#[trigger] s[i]) by {
        assert(s[i] == line[i]);
    }
    assert(s[n] == '\n');
    model::lemma_count_before(s, is_feed(), n);
    assert(s.take(n) =~= line);
    assert(s.skip(n + 1) =~= rest);
    if n > 0 {
        assert(line.subrange(0, n - 1) =~= line.drop_last());
        assert forall|i: int| 0 <= i < n implies !is_feed()(#[trigger] line[i]) by {}
        model::lemma_count_before(line, is_feed(), n);
    }
}

/// Lines are written one after the other, a line feed and nothing else behind each.
pub proof fn a_line_feed_ends_each_line(lines: Seq<Seq<char>>, line: Seq<char>)
    ensures
        ended_lines(lines.push(line)) == ended_lines(lines) + line + seq!['\n'],
        ended_lines(Seq::<Seq<char>>::empty()).len() == 0,
{
    assert(lines.push(line).drop_last() =~= lines);
    assert(ended_lines(lines) + line.push('\n') =~= ended_lines(lines) + line + seq!['\n']);
}

/// A text stands in another one exactly when that is the text with something before and behind it.
pub proof fn a_text_occurs_between_others(s: Seq<char>, pat: Seq<char>)
    ensures
        occurs_in(s, pat) <==> exists|a: Seq<char>, b: Seq<char>| s == #[trigger] (a + pat + b),
{
    if occurs_in(s, pat) {
        let i = choose|i: int| occurs_at(s, pat, i);
        let a = s.take(i);
        let b = s.skip(i + pat.len());
        assert(s =~= a + pat + b) by {
            assert forall|j: int| 0 <= j < s.len() implies s[j] == (a + pat + b)[j] by {
                if i <= j < i + pat.len() {
                    assert(s.subrange(i, i + pat.len())[j - i] == pat[j - i]);
                }
            }
        }
    }
    if exists|a: Seq<char>, b: Seq<char>| s == #[trigger] (a + pat + b) {
        let (a, b) = choose|a: Seq<char>, b: Seq<char>| s == #[trigger] (a + pat + b);
        assert(s.subrange(a.len() as int, a.len() as int + pat.len()) =~= pat);
        assert(occurs_at(s, pat, a.len() as int));
    }
}

} // verus!
