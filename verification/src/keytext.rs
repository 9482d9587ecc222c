//! The text by which JSON keys are told apart: compact, with every number in one form for its value.
//!
//! A key column of the applied tables compares numbers by value, so that `1`, `1.0` and `10e-1` are
//! the same there.

use vstd::arithmetic::power;
use vstd::prelude::*;
use vstd::utf8;

use crate::model;
use crate::number;
use crate::number::{parse_i32, push_wide_decimal};
use crate::text::chars_of;

verus! {

/// A number as its digits and a power of ten: `digits` times ten to the `exponent`.
pub struct Scientific {
    pub negative: bool,
    pub digits: nat,
    pub exponent: int,
}

/// Whether a byte announces an exponent.
pub open spec fn is_exponent_mark() -> spec_fn(u8) -> bool {
    |b: u8| b == 101 || b == 69
}

/// Whether a byte is a decimal point.
pub open spec fn is_point() -> spec_fn(u8) -> bool {
    |b: u8| b == 46
}

/// The digits of a number before its exponent, the point left out, and how many of them stand behind
/// the point.
pub open spec fn mantissa(s: Seq<u8>) -> (Seq<u8>, nat) {
    let n = model::count_before(s, is_point()) as int;
    if n >= s.len() {
        (s, 0)
    } else {
        (s.take(n) + s.skip(n + 1), (s.len() - n - 1) as nat)
    }
}

/// The exponent that a number names behind its mark; none is zero.
pub open spec fn named_exponent(s: Seq<u8>) -> Option<int> {
    let n = model::count_before(s, is_exponent_mark()) as int;
    if n >= s.len() {
        Some(0)
    } else {
        match number::i32_value(s.skip(n + 1)) {
            Some(e) => Some(e as int),
            None => None,
        }
    }
}

/// A number without its sign.
pub open spec fn unsigned(s: Seq<u8>) -> Seq<u8> {
    if s.len() > 0 && s[0] == 45 {
        s.skip(1)
    } else {
        s
    }
}

/// The number that a text writes: a sign, digits with a point among them, and an exponent, of which
/// the sign, the point and the exponent may be missing.
pub open spec fn scientific(s: Seq<u8>) -> Option<Scientific> {
    let body = unsigned(s);
    let (digits, behind) = mantissa(body.take(model::count_before(body, is_exponent_mark()) as int));
    match named_exponent(body) {
        Some(e) => if digits.len() > 0 && number::all_digits(digits) {
            Some(
                Scientific {
                    negative: s.len() > 0 && s[0] == 45,
                    digits: number::digits_value(digits),
                    exponent: e - behind,
                },
            )
        } else {
            None
        },
        None => None,
    }
}

/// Digits and exponent of a number in their one form: the digits do not end in zero, and zero has
/// exponent zero.
pub open spec fn reduced(digits: nat, exponent: int) -> (nat, int)
    decreases digits,
{
    if digits == 0 {
        (0, 0)
    } else if digits % 10 == 0 {
        reduced(digits / 10, exponent + 1)
    } else {
        (digits, exponent)
    }
}

/// A number in the one form for its value.
pub open spec fn normal_form(n: Scientific) -> Seq<char> {
    let (digits, exponent) = reduced(n.digits, n.exponent);
    if digits == 0 {
        seq!['0']
    } else {
        (if n.negative {
            seq!['-']
        } else {
            seq![]
        }) + number::nat_decimal(digits) + seq!['e'] + number::decimal(exponent)
    }
}

/// A number in the one form for its value; a text that writes no number stays as it is.
pub open spec fn normal_number(token: Seq<char>) -> Seq<char> {
    match scientific(number::ascii(token)) {
        Some(n) => normal_form(n),
        None => token,
    }
}

/// Whether a character can stand in a number.
pub open spec fn in_number(c: char) -> bool {
    ('0' <= c && c <= '9') || c == '-' || c == '+' || c == '.' || c == 'e' || c == 'E'
}

/// Whether a number starts with this character.
pub open spec fn starts_number(c: char) -> bool {
    ('0' <= c && c <= '9') || c == '-'
}

/// Whether a character cannot stand in a number.
pub open spec fn ends_number() -> spec_fn(char) -> bool {
    |c: char| !in_number(c)
}

/// A compact JSON text with every number in the one form for its value. Texts in quotes, where
/// `quoted` says that `s` begins inside one, stay as they are.
pub open spec fn normal_json(s: Seq<char>, quoted: bool) -> Seq<char>
    decreases s.len(),
{
    if s.len() == 0 {
        seq![]
    } else if quoted && s[0] == '\\' && s.len() > 1 {
        s.take(2) + normal_json(s.skip(2), true)
    } else if s[0] == '"' {
        s.take(1) + normal_json(s.skip(1), !quoted)
    } else if !quoted && starts_number(s[0]) {
        let n = model::count_before(s, ends_number()) as int;
        if 0 < n <= s.len() {
            normal_number(s.take(n)) + normal_json(s.skip(n), false)
        } else {
            s
        }
    } else {
        s.take(1) + normal_json(s.skip(1), quoted)
    }
}

/// A number that was read: its sign, its digits and its exponent.
struct Read {
    negative: bool,
    digits: Vec<u8>,
    exponent: i128,
}

proof fn lemma_no_leading_zero(s: Seq<u8>)
    requires
        s.len() > 0,
        number::all_digits(s),
        s[0] != 48,
    ensures
        number::digits_value(s) > 0,
        number::ascii(number::nat_decimal(number::digits_value(s))) == s,
        number::nat_decimal(number::digits_value(s)).len() == s.len(),
    decreases s.len(),
{
    let init = s.drop_last();
    let d = (s.last() - 48) as nat;
    assert(number::is_digit(s[s.len() - 1]));
    if init.len() == 0 {
        assert(number::digits_value(init) == 0);
        assert(number::digits_value(s) == d);
        assert(s[0] == s.last());
        assert(number::ascii(number::nat_decimal(d)) =~= s);
    } else {
        assert forall|i: int| 0 <= i < init.len() implies number::is_digit(#[trigger] init[i]) by {
            assert(number::is_digit(s[i]));
        }
        lemma_no_leading_zero(init);
        let v = number::digits_value(init);
        let w = number::digits_value(s);
        assert(w == v * 10 + d);
        assert(w / 10 == v && w % 10 == d);
        assert(number::nat_decimal(w) == number::nat_decimal(v).push(number::digit_char(d)));
        let text = number::ascii(number::nat_decimal(w));
        assert forall|i: int| 0 <= i < s.len() implies text[i] == s[i] by {
            if i < init.len() {
                assert(text[i] == number::ascii(number::nat_decimal(v))[i]);
            } else {
                assert(text[i] == number::digit_char(d) as u8);
            }
        }
        assert(text =~= s);
    }
}

proof fn lemma_leading_zero(s: Seq<u8>)
    requires
        s.len() > 0,
        s[0] == 48,
    ensures
        number::digits_value(s.skip(1)) == number::digits_value(s),
    decreases s.len(),
{
    if s.len() == 1 {
        assert(s.skip(1) =~= seq![]);
        assert(s.drop_last() =~= seq![]);
    } else {
        lemma_leading_zero(s.drop_last());
        assert(s.skip(1).drop_last() =~= s.drop_last().skip(1));
        assert(s.skip(1).last() == s.last());
    }
}

/// The bytes `from..to`.
fn bytes_between(s: &Vec<u8>, from: usize, to: usize) -> (r: Vec<u8>)
    requires
        from <= to <= s@.len(),
    ensures
        r@ == s@.subrange(from as int, to as int),
{
    let mut out: Vec<u8> = Vec::new();
    let mut i: usize = from;
    while i < to
        invariant
            from <= i <= to <= s@.len(),
            out@ == s@.subrange(from as int, i as int),
        decreases to - i,
    {
        out.push(s[i]);
        assert(s@.subrange(from as int, i + 1) =~= s@.subrange(from as int, i as int).push(s@[i as int]));
        i = i + 1;
    }
    out
}

/// The place of the first byte that is one of two, from `from` on, or `to`.
fn place_of(s: &Vec<u8>, from: usize, to: usize, one: u8, other: u8) -> (r: usize)
    requires
        from <= to <= s@.len(),
    ensures
        from <= r <= to,
        forall|i: int| from <= i < r ==> (#[trigger] s@[i]) != one && s@[i] != other,
        r < to ==> s@[r as int] == one || s@[r as int] == other,
{
    let mut i: usize = from;
    while i < to && s[i] != one && s[i] != other
        invariant
            from <= i <= to <= s@.len(),
            forall|j: int| from <= j < i ==> (#[trigger] s@[j]) != one && s@[j] != other,
        decreases to - i,
    {
        i = i + 1;
    }
    i
}

fn all_digits(s: &Vec<u8>) -> (r: bool)
    ensures
        r == number::all_digits(s@),
{
    let mut i: usize = 0;
    while i < s.len()
        invariant
            i <= s@.len(),
            forall|j: int| 0 <= j < i ==> number::is_digit(#[trigger] s@[j]),
        decreases s@.len() - i,
    {
        if s[i] < 48 || s[i] > 57 {
            assert(!number::is_digit(s@[i as int]));
            return false;
        }
        i = i + 1;
    }
    true
}

/// Reads the digits of a number before its exponent, and how many of them stand behind the point.
fn read_mantissa(s: &Vec<u8>, from: usize, to: usize) -> (r: (Vec<u8>, usize))
    requires
        from <= to <= s@.len(),
    ensures
        (r.0@, r.1 as nat) == mantissa(s@.subrange(from as int, to as int)),
{
    let ghost head = s@.subrange(from as int, to as int);
    let point = place_of(s, from, to, 46, 46);
    proof {
        assert forall|i: int| 0 <= i < point - from implies !is_point()(#[trigger] head[i]) by {
            assert(head[i] == s@[from + i]);
        }
        if point < to {
            assert(head[point - from] == s@[point as int]);
        }
        model::lemma_count_before(head, is_point(), point - from);
    }
    let mut digits = bytes_between(s, from, point);
    if point == to {
        assert(digits@ =~= head);
        (digits, 0)
    } else {
        let mut rest = bytes_between(s, point + 1, to);
        digits.append(&mut rest);
        assert(digits@ =~= head.take(point - from) + head.skip(point - from + 1));
        (digits, to - point - 1)
    }
}

/// Reads the exponent of a number, and where its mark stands.
fn read_exponent(s: &Vec<u8>, from: usize) -> (r: Option<(usize, i32)>)
    requires
        from <= s@.len(),
    ensures
        match r {
            Some((mark, e)) => {
                &&& from <= mark <= s@.len()
                &&& model::count_before(s@.skip(from as int), is_exponent_mark()) == mark - from
                &&& named_exponent(s@.skip(from as int)) == Some(e as int)
            },
            None => named_exponent(s@.skip(from as int)) is None,
        },
{
    let ghost body = s@.skip(from as int);
    let len = s.len();
    let mark = place_of(s, from, len, 101, 69);
    proof {
        assert forall|i: int| 0 <= i < mark - from implies !is_exponent_mark()(#[trigger] body[i]) by {
            assert(body[i] == s@[from + i]);
        }
        if mark < len {
            assert(body[mark - from] == s@[mark as int]);
        }
        model::lemma_count_before(body, is_exponent_mark(), mark - from);
    }
    if mark == len {
        Some((mark, 0))
    } else {
        assert(s@.subrange(mark + 1, len as int) =~= body.skip(mark - from + 1));
        match parse_i32(vstd::slice::slice_subrange(s.as_slice(), mark + 1, len)) {
            Some(e) => Some((mark, e)),
            None => None,
        }
    }
}

/// Reads a number.
fn read_number(s: &Vec<u8>) -> (r: Option<Read>)
    ensures
        match r {
            Some(n) => {
                &&& scientific(s@) == Some(
                    Scientific {
                        negative: n.negative,
                        digits: number::digits_value(n.digits@),
                        exponent: n.exponent as int,
                    },
                )
                &&& number::all_digits(n.digits@)
                &&& -0x1_0000_0000_0000_0000_0000 < n.exponent < 0x1_0000_0000_0000_0000_0000
            },
            None => scientific(s@) is None,
        },
{
    let negative = s.len() > 0 && s[0] == 45;
    let from: usize = if negative {
        1
    } else {
        0
    };
    assert(unsigned(s@) =~= s@.skip(from as int));
    let (mark, exponent) = match read_exponent(s, from) {
        Some((mark, e)) => (mark, e as i128),
        None => return None,
    };
    assert(unsigned(s@).take(mark - from) =~= s@.subrange(from as int, mark as int));
    let (digits, behind) = read_mantissa(s, from, mark);
    if digits.len() == 0 || !all_digits(&digits) {
        return None;
    }
    Some(Read { negative, digits, exponent: exponent - behind as i128 })
}

/// Appends a number in the one form for its value.
fn push_normal(out: &mut String, n: Read)
    requires
        number::all_digits(n.digits@),
        -0x1_0000_0000_0000_0000_0000 < n.exponent < 0x1_0000_0000_0000_0000_0000,
    ensures
        final(out)@ == old(out)@ + normal_form(
            Scientific {
                negative: n.negative,
                digits: number::digits_value(n.digits@),
                exponent: n.exponent as int,
            },
        ),
{
    let ghost value = number::digits_value(n.digits@);
    let ghost first = n.exponent;
    let ghost total = n.digits@.len();
    let mut digits = n.digits;
    let mut exponent = n.exponent;
    let size = digits.len();
    while digits.len() > 0 && digits[digits.len() - 1] == 48
        invariant
            number::all_digits(digits@),
            digits@.len() <= size,
            exponent == first + (size - digits@.len()),
            first < 0x1_0000_0000_0000_0000_0000,
            reduced(number::digits_value(digits@), exponent as int) == reduced(value, first as int),
        decreases digits@.len(),
    {
        let ghost before = digits@;
        let _ = digits.pop();
        exponent = exponent + 1;
        proof {
            assert(digits@ =~= before.drop_last());
            let v = number::digits_value(digits@);
            assert(number::digits_value(before) == v * 10);
            assert((v * 10) / 10 == v && (v * 10) % 10 == 0);
        }
    }
    let mut lo: usize = 0;
    assert(digits@.skip(0) =~= digits@);
    while lo < digits.len() && digits[lo] == 48
        invariant
            lo <= digits@.len(),
            number::digits_value(digits@.skip(lo as int)) == number::digits_value(digits@),
        decreases digits@.len() - lo,
    {
        proof {
            lemma_leading_zero(digits@.skip(lo as int));
            assert(digits@.skip(lo as int).skip(1) =~= digits@.skip(lo + 1));
        }
        lo = lo + 1;
    }
    let ghost rest = digits@.skip(lo as int);
    if lo == digits.len() {
        assert(rest =~= seq![]);
        out.push('0');
        assert(out@ =~= old(out)@ + seq!['0']);
        return;
    }
    let ghost m = number::digits_value(rest);
    proof {
        assert forall|i: int| 0 <= i < rest.len() implies number::is_digit(#[trigger] rest[i]) by {
            assert(rest[i] == digits@[lo + i]);
        }
        lemma_no_leading_zero(rest);
        number::lemma_nat_decimal(m);
        assert(number::is_digit(rest[rest.len() - 1]));
        assert(rest.last() == digits@.last());
        assert(m == number::digits_value(rest.drop_last()) * 10 + (rest.last() - 48));
        assert(m % 10 != 0);
    }
    if n.negative {
        out.push('-');
    }
    let ghost start = out@;
    let ghost text = number::nat_decimal(m);
    let mut i: usize = lo;
    while i < digits.len()
        invariant
            lo <= i <= digits@.len(),
            rest == digits@.skip(lo as int),
            number::ascii(text) == rest,
            text.len() == rest.len(),
            utf8::is_ascii_chars(text),
            out@ == start + text.take(i - lo),
        decreases digits@.len() - i,
    {
        let c = digits[i] as char;
        proof {
            assert(number::ascii(text)[i - lo] == digits@[i as int]);
            assert('\0' <= text[i - lo] <= '\u{7f}');
            assert(text[i - lo] == c);
            assert(text.take(i - lo + 1) =~= text.take(i - lo).push(text[i - lo]));
        }
        out.push(c);
        i = i + 1;
    }
    assert(text.take(text.len() as int) =~= text);
    out.push('e');
    push_wide_decimal(out, exponent);
    assert(out@ =~= old(out)@ + normal_form(
        Scientific { negative: n.negative, digits: value, exponent: first as int },
    ));
}

/// Appends the characters `from..to` of a text as a number in the one form for its value.
fn push_number(out: &mut String, cs: &Vec<char>, from: usize, to: usize)
    requires
        from <= to <= cs@.len(),
        forall|i: int| from <= i < to ==> in_number(#[trigger] cs@[i]),
    ensures
        final(out)@ == old(out)@ + normal_number(cs@.subrange(from as int, to as int)),
{
    let ghost token = cs@.subrange(from as int, to as int);
    let mut bytes: Vec<u8> = Vec::new();
    let mut i: usize = from;
    while i < to
        invariant
            from <= i <= to <= cs@.len(),
            token == cs@.subrange(from as int, to as int),
            forall|j: int| from <= j < to ==> in_number(#[trigger] cs@[j]),
            bytes@.len() == i - from,
            forall|j: int| 0 <= j < bytes@.len() ==> #[trigger] bytes@[j] == token[j] as u8,
        decreases to - i,
    {
        assert(in_number(cs@[i as int]));
        bytes.push(cs[i] as u8);
        i = i + 1;
    }
    assert(bytes@ =~= number::ascii(token));
    match read_number(&bytes) {
        Some(n) => push_normal(out, n),
        None => {
            let mut i: usize = from;
            let ghost start = out@;
            assert(start + token.take(0) =~= start);
            while i < to
                invariant
                    from <= i <= to <= cs@.len(),
                    token == cs@.subrange(from as int, to as int),
                    out@ == start + token.take(i - from),
                decreases to - i,
            {
                out.push(cs[i]);
                assert(start + token.take(i - from + 1) =~= (start + token.take(i - from)).push(cs@[i as int]));
                i = i + 1;
            }
            assert(token.take(to - from) =~= token);
        },
    }
}

/// A compact JSON text with every number in the one form for its value.
pub fn key_text(s: &str) -> (r: String)
    ensures
        r@ == normal_json(s@, false),
{
    let cs = chars_of(s);
    let len = cs.len();
    let mut out = String::new();
    let mut at: usize = 0;
    let mut quoted = false;
    assert(cs@.skip(0) =~= cs@);
    assert(out@ + normal_json(cs@, false) =~= normal_json(cs@, false));
    while at < len
        invariant
            len == cs@.len(),
            at <= len,
            out@ + normal_json(cs@.skip(at as int), quoted) == normal_json(s@, false),
        decreases len - at,
    {
        let ghost here = cs@.skip(at as int);
        let ghost before = out@;
        let c = cs[at];
        assert(here[0] == c);
        if quoted && c == '\\' && at + 1 < len {
            out.push(c);
            out.push(cs[at + 1]);
            at = at + 2;
            assert(here.skip(2) =~= cs@.skip(at as int));
            assert(out@ + normal_json(here.skip(2), true) =~= before + normal_json(here, quoted));
        } else if c == '"' {
            out.push(c);
            at = at + 1;
            assert(here.skip(1) =~= cs@.skip(at as int));
            assert(out@ + normal_json(here.skip(1), !quoted) =~= before + normal_json(here, quoted));
            quoted = !quoted;
        } else if !quoted && ((c >= '0' && c <= '9') || c == '-') {
            let mut to: usize = at + 1;
            while to < len && ((cs[to] >= '0' && cs[to] <= '9') || cs[to] == '-' || cs[to] == '+' || cs[to] == '.'
                || cs[to] == 'e' || cs[to] == 'E')
                invariant
                    len == cs@.len(),
                    at < to <= len,
                    forall|i: int| at <= i < to ==> in_number(#[trigger] cs@[i]),
                decreases len - to,
            {
                to = to + 1;
            }
            let ghost n = to - at;
            proof {
                assert forall|i: int| 0 <= i < n implies !ends_number()(#[trigger] here[i]) by {
                    assert(in_number(cs@[at + i]));
                }
                if to < len {
                    assert(here[n] == cs@[to as int]);
                }
                model::lemma_count_before(here, ends_number(), n);
                assert(cs@.subrange(at as int, to as int) =~= here.take(n));
            }
            push_number(&mut out, &cs, at, to);
            at = to;
            assert(here.skip(n) =~= cs@.skip(at as int));
            assert(out@ + normal_json(here.skip(n), false) =~= before + normal_json(here, quoted));
        } else {
            out.push(c);
            at = at + 1;
            assert(here.skip(1) =~= cs@.skip(at as int));
            assert(out@ + normal_json(here.skip(1), quoted) =~= before + normal_json(here, quoted));
        }
    }
    assert(cs@.skip(at as int) =~= Seq::<char>::empty());
    assert(out@ + Seq::<char>::empty() =~= out@);
    out
}

/// Whether two numbers have the same value.
pub open spec fn same_value(a: Scientific, b: Scientific) -> bool {
    let low = if a.exponent <= b.exponent {
        a.exponent
    } else {
        b.exponent
    };
    &&& a.digits * power::pow(10, (a.exponent - low) as nat) == b.digits * power::pow(10, (b.exponent - low) as nat)
    &&& a.digits == 0 || a.negative == b.negative
}

proof fn lemma_ten_more(digits: nat, k: nat)
    ensures
        power::pow(10, k) > 0,
        digits * power::pow(10, k + 1) == (digits * power::pow(10, k)) * 10,
{
    power::lemma_pow_positive(10, k);
    reveal(power::pow);
    let p = power::pow(10, k);
    assert(power::pow(10, k + 1) == 10 * p);
    assert(digits * (10 * p) == (digits * p) * 10) by (nonlinear_arith);
}

/// Digits with zeros behind them reduce as the digits alone do, under a higher exponent.
proof fn lemma_reduced_shift(digits: nat, exponent: int, k: nat)
    ensures
        digits * power::pow(10, k) >= 0,
        reduced((digits * power::pow(10, k)) as nat, exponent) == reduced(digits, exponent + k),
    decreases k,
{
    if k == 0 {
        reveal(power::pow);
        assert(power::pow(10, 0) == 1);
        assert(digits * 1 == digits);
    } else {
        let j = (k - 1) as nat;
        lemma_ten_more(digits, j);
        lemma_reduced_shift(digits, exponent + 1, j);
        let m = (digits * power::pow(10, j)) as nat;
        assert(digits * power::pow(10, k) == m * 10);
        assert((m * 10) / 10 == m && (m * 10) % 10 == 0);
        if m == 0 {
            assert(digits == 0) by (nonlinear_arith)
                requires
                    digits * power::pow(10, j) == 0,
                    power::pow(10, j) > 0,
            ;
        }
    }
}

/// What digits reduce to, with its zeros put back, is the digits.
proof fn lemma_reduced_value(digits: nat, exponent: int)
    ensures
        ({
            let (m, e) = reduced(digits, exponent);
            &&& digits > 0 ==> e >= exponent && m > 0 && m % 10 != 0 && digits == m * power::pow(
                10,
                (e - exponent) as nat,
            )
            &&& digits == 0 ==> m == 0
        }),
    decreases digits,
{
    if digits > 0 {
        if digits % 10 == 0 {
            lemma_reduced_value(digits / 10, exponent + 1);
            let (m, e) = reduced(digits, exponent);
            lemma_ten_more(m, (e - exponent - 1) as nat);
        } else {
            reveal(power::pow);
            assert(power::pow(10, 0) == 1);
            assert(digits * 1 == digits);
        }
    }
}

/// Two numbers have the same value exactly when they have the same sign and reduce to the same.
proof fn lemma_same_value(a: Scientific, b: Scientific)
    ensures
        same_value(a, b) <==> reduced(a.digits, a.exponent) == reduced(b.digits, b.exponent) && (a.digits == 0
            || a.negative == b.negative),
{
    if a.exponent > b.exponent {
        lemma_same_value_in_order(b, a);
    } else {
        lemma_same_value_in_order(a, b);
    }
    lemma_reduced_value(a.digits, a.exponent);
    lemma_reduced_value(b.digits, b.exponent);
}

proof fn lemma_same_value_in_order(a: Scientific, b: Scientific)
    requires
        a.exponent <= b.exponent,
    ensures
        a.digits * power::pow(10, 0) == a.digits,
        a.digits == b.digits * power::pow(10, (b.exponent - a.exponent) as nat) <==> reduced(a.digits, a.exponent)
            == reduced(b.digits, b.exponent),
        a.digits == b.digits * power::pow(10, (b.exponent - a.exponent) as nat) ==> (a.digits == 0 <==> b.digits == 0),
{
    let k = (b.exponent - a.exponent) as nat;
    lemma_reduced_shift(b.digits, a.exponent, k);
    lemma_reduced_value(a.digits, a.exponent);
    lemma_reduced_value(b.digits, b.exponent);
    power::lemma_pow_positive(10, k);
    reveal(power::pow);
    assert(power::pow(10, 0) == 1);
    assert(a.digits * 1 == a.digits);
    let p = power::pow(10, k);
    if b.digits == 0 {
        assert(b.digits * p == 0) by (nonlinear_arith)
            requires
                b.digits == 0,
        ;
    } else {
        assert(b.digits * p > 0) by (nonlinear_arith)
            requires
                b.digits > 0,
                p > 0,
        ;
    }
    if reduced(a.digits, a.exponent) == reduced(b.digits, b.exponent) && a.digits > 0 {
        let (m, e) = reduced(a.digits, a.exponent);
        let j = (e - b.exponent) as nat;
        power::lemma_pow_adds(10, j, k);
        let q = power::pow(10, j);
        assert(power::pow(10, (e - a.exponent) as nat) == q * p);
        assert(m * (q * p) == (m * q) * p) by (nonlinear_arith);
    }
}

proof fn lemma_decimal_once(a: int, b: int)
    requires
        number::decimal(a) == number::decimal(b),
    ensures
        a == b,
{
    let x: nat = if a < 0 {
        (-a) as nat
    } else {
        a as nat
    };
    let y: nat = if b < 0 {
        (-b) as nat
    } else {
        b as nat
    };
    number::lemma_nat_decimal(x);
    number::lemma_nat_decimal(y);
    assert(number::is_digit(number::ascii(number::nat_decimal(x))[0]));
    assert(number::is_digit(number::ascii(number::nat_decimal(y))[0]));
    if a < 0 {
        assert(number::decimal(a)[0] == '-');
        assert(number::decimal(a).skip(1) =~= number::nat_decimal(x));
    }
    if b < 0 {
        assert(number::decimal(b)[0] == '-');
        assert(number::decimal(b).skip(1) =~= number::nat_decimal(y));
    }
}

/// The digits and the exponent around the first `e` can be read back.
proof fn lemma_form_once(m: nat, e: int, n: nat, f: int)
    requires
        number::nat_decimal(m) + seq!['e'] + number::decimal(e) == number::nat_decimal(n) + seq!['e']
            + number::decimal(f),
    ensures
        m == n,
        e == f,
{
    let a = number::nat_decimal(m);
    let b = number::nat_decimal(n);
    let x = a + seq!['e'] + number::decimal(e);
    let y = b + seq!['e'] + number::decimal(f);
    number::lemma_nat_decimal(m);
    number::lemma_nat_decimal(n);
    assert(x[a.len() as int] == 'e');
    assert(y[b.len() as int] == 'e');
    if a.len() < b.len() {
        assert(y[a.len() as int] == b[a.len() as int]);
        assert(number::is_digit(number::ascii(b)[a.len() as int]));
    } else if b.len() < a.len() {
        assert(x[b.len() as int] == a[b.len() as int]);
        assert(number::is_digit(number::ascii(a)[b.len() as int]));
    }
    assert(x.take(a.len() as int) =~= a);
    assert(y.take(b.len() as int) =~= b);
    assert(x.skip(a.len() as int + 1) =~= number::decimal(e));
    assert(y.skip(b.len() as int + 1) =~= number::decimal(f));
    lemma_decimal_once(e, f);
}

/// Two numbers have the same normal form exactly when they have the same value.
pub proof fn normal_form_tells_values_apart(a: Scientific, b: Scientific)
    ensures
        normal_form(a) == normal_form(b) <==> same_value(a, b),
{
    lemma_same_value(a, b);
    lemma_reduced_value(a.digits, a.exponent);
    lemma_reduced_value(b.digits, b.exponent);
    let (m, e) = reduced(a.digits, a.exponent);
    let (n, f) = reduced(b.digits, b.exponent);
    number::lemma_nat_decimal(m);
    number::lemma_nat_decimal(n);
    if normal_form(a) == normal_form(b) {
        let x = number::nat_decimal(m) + seq!['e'] + number::decimal(e);
        let y = number::nat_decimal(n) + seq!['e'] + number::decimal(f);
        assert(x.len() >= 2 && y.len() >= 2);
        if m != 0 && n != 0 {
            assert(number::is_digit(number::ascii(number::nat_decimal(m))[0]));
            assert(number::is_digit(number::ascii(number::nat_decimal(n))[0]));
            assert(x[0] == number::nat_decimal(m)[0]);
            assert(y[0] == number::nat_decimal(n)[0]);
            if a.negative {
                assert(normal_form(a)[0] == '-');
                assert(normal_form(a).skip(1) =~= x);
            } else {
                assert(normal_form(a) =~= x);
            }
            if b.negative {
                assert(normal_form(b)[0] == '-');
                assert(normal_form(b).skip(1) =~= y);
            } else {
                assert(normal_form(b) =~= y);
            }
            lemma_form_once(m, e, n, f);
        }
    }
}

/// Outside quotes, a character that is no quote and starts no number stays as it is; a quote opens a text.
pub proof fn other_characters_stay(c: char, rest: Seq<char>)
    requires
        c != '-',
        !('0' <= c && c <= '9'),
    ensures
        normal_json(seq![], false).len() == 0,
        c != '"' ==> normal_json(seq![c] + rest, false) == seq![c] + normal_json(rest, false),
        c == '"' ==> normal_json(seq![c] + rest, false) == seq![c] + normal_json(rest, true),
{
    let s = seq![c] + rest;
    assert(s.take(1) =~= seq![c]);
    assert(s.skip(1) =~= rest);
}

/// In quotes every character stays as it is, digits too. A quote ends the text, unless a backslash stands
/// before it.
pub proof fn texts_in_quotes_stay(c: char, rest: Seq<char>)
    ensures
        normal_json(seq![], true).len() == 0,
        c != '"' && c != '\\' ==> normal_json(seq![c] + rest, true) == seq![c] + normal_json(rest, true),
        c == '"' ==> normal_json(seq![c] + rest, true) == seq![c] + normal_json(rest, false),
        normal_json(seq!['\\', c] + rest, true) == seq!['\\', c] + normal_json(rest, true),
{
    let s = seq![c] + rest;
    assert(s.take(1) =~= seq![c]);
    assert(s.skip(1) =~= rest);
    let t = seq!['\\', c] + rest;
    assert(t.take(2) =~= seq!['\\', c]);
    assert(t.skip(2) =~= rest);
}

/// Outside quotes, the longest run of characters of a number that starts with a digit or a minus sign is
/// written in its one form.
pub proof fn numbers_are_written_in_their_one_form(token: Seq<char>, rest: Seq<char>)
    requires
        token.len() > 0,
        '0' <= token[0] <= '9' || token[0] == '-',
        forall|i: int|
            0 <= i < token.len() ==> {
                ||| '0' <= #[trigger] token[i] <= '9'
                ||| token[i] == '-'
                ||| token[i] == '+'
                ||| token[i] == '.'
                ||| token[i] == 'e'
                ||| token[i] == 'E'
            },
        rest.len() > 0 ==> !('0' <= rest[0] <= '9') && rest[0] != '-' && rest[0] != '+' && rest[0] != '.' && rest[0]
            != 'e' && rest[0] != 'E',
    ensures
        normal_json(token + rest, false) == normal_number(token) + normal_json(rest, false),
{
    let s = token + rest;
    let n = token.len() as int;
    assert forall|i: int| 0 <= i < n implies !ends_number()(#[trigger] s[i]) by {
        assert(s[i] == token[i]);
    }
    if rest.len() > 0 {
        assert(s[n] == rest[0]);
    }
    model::lemma_count_before(s, ends_number(), n);
    assert(s.take(n) =~= token);
    assert(s.skip(n) =~= rest);
}

/// Two texts that write numbers have the same form exactly when the numbers have the same value; a text
/// that writes none stays as it is.
pub proof fn numbers_are_told_apart_by_value(a: Seq<char>, b: Seq<char>)
    ensures
        scientific(number::ascii(a)) is Some && scientific(number::ascii(b)) is Some ==> (normal_number(a)
            == normal_number(b) <==> same_value(scientific(number::ascii(a))->0, scientific(number::ascii(b))->0)),
        scientific(number::ascii(a)) is None ==> normal_number(a) == a,
{
    if scientific(number::ascii(a)) is Some && scientific(number::ascii(b)) is Some {
        normal_form_tells_values_apart(scientific(number::ascii(a))->0, scientific(number::ascii(b))->0);
    }
}

/// The one form of a number: zero is `0`. Any other has its sign, if it is negative, its digits without
/// zeros at the end, and its exponent behind an `e`; a zero at the end of the digits counts in the exponent.
pub proof fn the_one_form_has_no_zeros_at_the_end(negative: bool, digits: nat, exponent: int)
    ensures
        normal_form(Scientific { negative, digits: 0, exponent }) == seq!['0'],
        digits > 0 ==> normal_form(Scientific { negative, digits: 10 * digits, exponent }) == normal_form(
            Scientific { negative, digits, exponent: exponent + 1 },
        ),
        digits % 10 != 0 && !negative ==> normal_form(Scientific { negative, digits, exponent }) == number::decimal(
            digits as int,
        ) + seq!['e'] + number::decimal(exponent),
        digits % 10 != 0 && negative ==> normal_form(Scientific { negative, digits, exponent }) == seq!['-']
            + number::decimal(digits as int) + seq!['e'] + number::decimal(exponent),
{
    if digits > 0 {
        assert((10 * digits) % 10 == 0 && (10 * digits) / 10 == digits);
        assert(reduced(10 * digits, exponent) == reduced(digits, exponent + 1));
    }
    if digits % 10 != 0 && !negative {
        assert(Seq::<char>::empty() + number::nat_decimal(digits) =~= number::nat_decimal(digits));
    }
}

/// A number is its digits, the point left out, times ten to its exponent less the digits behind the point;
/// a minus sign makes it negative. Without a point no digits stand behind it, and without a mark the
/// exponent is zero. An exponent that is no number that fits makes the text none.
#[verifier::rlimit(60)]
#[verifier::spinoff_prover]
pub proof fn a_number_is_its_digits_and_exponent(
    before: Seq<u8>,
    pointed: bool,
    behind: Seq<u8>,
    marked: bool,
    mark: u8,
    exp: Seq<u8>,
)
    requires
        forall|i: int| 0 <= i < before.len() ==> 48 <= #[trigger] before[i] <= 57,
        forall|i: int| 0 <= i < behind.len() ==> 48 <= #[trigger] behind[i] <= 57,
        !pointed ==> behind.len() == 0,
        before.len() + behind.len() > 0,
        mark == 101 || mark == 69,
    ensures
        ({
            let point: Seq<u8> = if pointed {
                seq![46u8]
            } else {
                seq![]
            };
            let tail: Seq<u8> = if marked {
                seq![mark] + exp
            } else {
                seq![]
            };
            let body = before + point + behind + tail;
            let e: Option<int> = if marked {
                match number::i32_value(exp) {
                    Some(e) => Some(e as int),
                    None => None,
                }
            } else {
                Some(0)
            };
            let found = |negative: bool|
                match e {
                    Some(e) => Some(
                        Scientific {
                            negative,
                            digits: number::digits_value(before + behind),
                            exponent: e - behind.len(),
                        },
                    ),
                    None => None,
                };
            &&& scientific(body) == found(false)
            &&& scientific(seq![45u8] + body) == found(true)
        }),
{
    let point: Seq<u8> = if pointed {
        seq![46u8]
    } else {
        seq![]
    };
    let tail: Seq<u8> = if marked {
        seq![mark] + exp
    } else {
        seq![]
    };
    let head = before + point + behind;
    let body = head + tail;
    let n = head.len() as int;
    let m = before.len() as int;
    assert forall|i: int| 0 <= i < n implies head[i] == 46 || number::is_digit(#[trigger] head[i]) by {
        if i < m {
            assert(head[i] == before[i]);
        } else if i >= m + point.len() {
            assert(head[i] == behind[i - m - point.len()]);
        }
    }
    assert forall|i: int| 0 <= i < n implies !is_exponent_mark()(#[trigger] body[i]) by {
        assert(body[i] == head[i]);
    }
    model::lemma_count_before(body, is_exponent_mark(), n);
    assert(body.take(n) =~= head);
    assert forall|i: int| 0 <= i < m implies !is_point()(#[trigger] head[i]) by {
        assert(head[i] == before[i]);
        assert(number::is_digit(before[i]));
    }
    if pointed {
        assert(head[m] == 46);
    } else {
        assert(head =~= before);
    }
    model::lemma_count_before(head, is_point(), m);
    if pointed {
        assert(head.take(m) =~= before);
        assert(head.skip(m + 1) =~= behind);
    } else {
        assert(before + behind =~= before);
    }
    let digits = before + behind;
    assert forall|i: int| 0 <= i < digits.len() implies number::is_digit(#[trigger] digits[i]) by {
        if i < m {
            assert(digits[i] == before[i]);
        } else {
            assert(digits[i] == behind[i - m]);
        }
    }
    if marked {
        assert(body.skip(n + 1) =~= exp);
    }
    assert(body[0] == head[0]);
    let negative = seq![45u8] + body;
    assert(negative.skip(1) =~= body);
}

/// What stands before an exponent writes no number where it holds anything but digits and one point, or no
/// digit.
pub proof fn nothing_else_writes_a_number(head: Seq<u8>, tail: Seq<u8>)
    requires
        forall|i: int| 0 <= i < head.len() ==> (#[trigger] head[i]) != 101 && head[i] != 69,
        tail.len() == 0 || tail[0] == 101 || tail[0] == 69,
        head.len() > 0 ==> head[0] != 45,
        ({
            ||| head.len() == 0
            ||| head == seq![46u8]
            ||| exists|i: int| 0 <= i < head.len() && head[i] != 46 && !(48 <= #[trigger] head[i] <= 57)
            ||| exists|i: int, j: int| 0 <= i < j < head.len() && #[trigger] head[i] == 46 && #[trigger] head[j] == 46
        }),
    ensures
        scientific(head + tail) is None,
        scientific(seq![45u8] + (head + tail)) is None,
{
    let body = head + tail;
    let n = head.len() as int;
    assert forall|i: int| 0 <= i < n implies !is_exponent_mark()(#[trigger] body[i]) by {
        assert(body[i] == head[i]);
    }
    if tail.len() > 0 {
        assert(body[n] == tail[0]);
    }
    model::lemma_count_before(body, is_exponent_mark(), n);
    assert(body.take(n) =~= head);
    assert((seq![45u8] + body).skip(1) =~= body);
    let m = lemma_first_point(head);
    let digits = mantissa(head).0;
    if n > 0 && head != seq![46u8] {
        let k = if exists|i: int| 0 <= i < n && head[i] != 46 && !(48 <= #[trigger] head[i] <= 57) {
            choose|i: int| 0 <= i < n && head[i] != 46 && !(48 <= #[trigger] head[i] <= 57)
        } else {
            let (i, j) = choose|i: int, j: int|
                0 <= i < j < n && #[trigger] head[i] == 46 && #[trigger] head[j] == 46;
            assert(m <= i);
            j
        };
        let at = if k < m {
            k
        } else {
            k - 1
        };
        assert(k != m);
        if m < n {
            assert(digits[at] == head[k]);
        }
        assert(!number::is_digit(digits[if m < n { at } else { k }]));
    }
    if n > 0 {
        assert(body[0] == head[0]);
    } else if tail.len() > 0 {
        assert(body[0] == tail[0]);
    }
    assert(digits.len() == 0 || !number::all_digits(digits));
}

/// The place of the first point, or the end.
proof fn lemma_first_point(s: Seq<u8>) -> (m: int)
    ensures
        0 <= m <= s.len(),
        model::count_before(s, is_point()) == m,
        m < s.len() ==> s[m] == 46,
        forall|i: int| 0 <= i < m ==> (#[trigger] s[i]) != 46,
    decreases s.len(),
{
    if s.len() == 0 || s[0] == 46 {
        0
    } else {
        let rest = s.drop_first();
        let m = lemma_first_point(rest);
        assert forall|i: int| 0 <= i < m + 1 implies (#[trigger] s[i]) != 46 by {
            if i > 0 {
                assert(s[i] == rest[i - 1]);
            }
        }
        m + 1
    }
}

} // verus!
