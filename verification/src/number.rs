//! Decimal numbers: how they are written and which texts are read as one.

use vstd::prelude::*;
use vstd::utf8;

verus! {

/// The decimal digit `d` as a character.
pub open spec fn digit_char(d: nat) -> char {
    (48 + d) as char
}

/// A natural number in decimal, without leading zeros.
pub open spec fn nat_decimal(n: nat) -> Seq<char>
    decreases n,
{
    if n < 10 {
        seq![digit_char(n)]
    } else {
        nat_decimal(n / 10).push(digit_char(n % 10))
    }
}

/// An integer in decimal: a minus sign for a negative one, then its magnitude.
pub open spec fn decimal(n: int) -> Seq<char> {
    if n < 0 {
        seq!['-'] + nat_decimal((-n) as nat)
    } else {
        nat_decimal(n as nat)
    }
}

fn push_nat(out: &mut String, n: u128)
    ensures
        final(out)@ == old(out)@ + nat_decimal(n as nat),
    decreases n,
{
    if n >= 10 {
        push_nat(out, n / 10);
    }
    let d: u8 = (n % 10) as u8;
    out.push((48 + d) as char);
    assert(out@ =~= old(out)@ + nat_decimal(n as nat));
}

/// Appends a wide integer in decimal.
pub fn push_wide_decimal(out: &mut String, n: i128)
    requires
        n > i128::MIN,
    ensures
        final(out)@ == old(out)@ + decimal(n as int),
{
    if n < 0 {
        out.push('-');
        push_nat(out, (-n) as u128);
        assert(out@ =~= old(out)@ + decimal(n as int));
    } else {
        push_nat(out, n as u128);
    }
}

/// Appends an integer in decimal.
pub fn push_decimal(out: &mut String, n: i64)
    ensures
        final(out)@ == old(out)@ + decimal(n as int),
{
    push_wide_decimal(out, n as i128);
}

/// Whether a byte is an ASCII digit.
pub open spec fn is_digit(b: u8) -> bool {
    48 <= b <= 57
}

/// Whether every byte is an ASCII digit.
pub open spec fn all_digits(s: Seq<u8>) -> bool {
    forall|i: int| 0 <= i < s.len() ==> is_digit(#[trigger] s[i])
}

/// The number that a run of digits writes.
pub open spec fn digits_value(s: Seq<u8>) -> nat
    decreases s.len(),
{
    if s.len() == 0 {
        0
    } else {
        (digits_value(s.drop_last()) * 10 + (s.last() - 48)) as nat
    }
}

/// The number that a text without a sign writes: at least one digit and nothing else.
pub open spec fn unsigned_value(s: Seq<u8>) -> Option<nat> {
    if s.len() > 0 && all_digits(s) {
        Some(digits_value(s))
    } else {
        None
    }
}

/// The integer that a text writes: digits behind at most one sign.
pub open spec fn integer_value(s: Seq<u8>) -> Option<int> {
    if s.len() > 0 && s[0] == 45 {
        match unsigned_value(s.skip(1)) {
            Some(v) => Some(-(v as int)),
            None => None,
        }
    } else if s.len() > 0 && s[0] == 43 {
        match unsigned_value(s.skip(1)) {
            Some(v) => Some(v as int),
            None => None,
        }
    } else {
        match unsigned_value(s) {
            Some(v) => Some(v as int),
            None => None,
        }
    }
}

/// The natural number that a text writes: digits behind at most a plus sign.
pub open spec fn natural_value(s: Seq<u8>) -> Option<nat> {
    if s.len() > 0 && s[0] == 43 {
        unsigned_value(s.skip(1))
    } else {
        unsigned_value(s)
    }
}

/// What reading a text as `i64` gives: the integer it writes, where that fits.
pub open spec fn i64_value(s: Seq<u8>) -> Option<i64> {
    match integer_value(s) {
        Some(v) => if i64::MIN <= v <= i64::MAX {
            Some(v as i64)
        } else {
            None
        },
        None => None,
    }
}

/// What reading a text as `i32` gives: the integer it writes, where that fits.
pub open spec fn i32_value(s: Seq<u8>) -> Option<i32> {
    match integer_value(s) {
        Some(v) => if i32::MIN <= v <= i32::MAX {
            Some(v as i32)
        } else {
            None
        },
        None => None,
    }
}

/// What reading a text as `u32` gives: the natural number it writes, where that fits.
pub open spec fn u32_value(s: Seq<u8>) -> Option<u32> {
    match natural_value(s) {
        Some(v) => if v <= u32::MAX {
            Some(v as u32)
        } else {
            None
        },
        None => None,
    }
}

proof fn lemma_prefix_value(s: Seq<u8>, n: int)
    requires
        all_digits(s),
        0 <= n <= s.len(),
    ensures
        digits_value(s.take(n)) <= digits_value(s),
    decreases s.len() - n,
{
    if n == s.len() {
        assert(s.take(n) =~= s);
    } else {
        assert(s.take(n + 1).drop_last() =~= s.take(n));
        assert(is_digit(s[n]));
        lemma_prefix_value(s, n + 1);
    }
}

/// Reads digits from `from` on; `None` where the number does not fit into `u64`.
fn parse_digits(s: &[u8], from: usize) -> (r: Option<u64>)
    requires
        from <= s@.len(),
    ensures
        r == (match unsigned_value(s@.skip(from as int)) {
            Some(v) => if v <= u64::MAX {
                Some(v as u64)
            } else {
                None
            },
            None => None,
        }),
{
    let ghost rest = s@.skip(from as int);
    if from == s.len() {
        return None;
    }
    let mut acc: u64 = 0;
    let mut i: usize = from;
    while i < s.len()
        invariant
            from <= i <= s@.len(),
            rest == s@.skip(from as int),
            acc == digits_value(rest.take(i - from)),
            all_digits(rest.take(i - from)),
        decreases s@.len() - i,
    {
        let b = s[i];
        assert(rest[i - from] == b);
        if b < 48 || b > 57 {
            assert(!all_digits(rest)) by {
                assert(!is_digit(rest[i - from]));
            }
            return None;
        }
        let d: u64 = (b - 48) as u64;
        assert(rest.take(i - from + 1).drop_last() =~= rest.take(i - from));
        assert(digits_value(rest.take(i - from + 1)) == acc * 10 + d);
        if acc > (u64::MAX - d) / 10 {
            proof {
                if all_digits(rest) {
                    lemma_prefix_value(rest, i - from + 1);
                }
            }
            return None;
        }
        acc = acc * 10 + d;
        assert(all_digits(rest.take(i - from + 1))) by {
            assert forall|j: int| 0 <= j < i - from + 1 implies is_digit(#[trigger] rest.take(i - from + 1)[j]) by {
                if j < i - from {
                    assert(is_digit(rest.take(i - from)[j]));
                }
            }
        }
        i = i + 1;
    }
    assert(rest.take(i - from) =~= rest);
    Some(acc)
}

fn parse_integer(s: &[u8]) -> (r: Option<i128>)
    ensures
        match r {
            Some(v) => integer_value(s@) == Some(v as int) && -(u64::MAX as int) <= v <= u64::MAX,
            None => match integer_value(s@) {
                Some(v) => v < -(u64::MAX as int) || v > u64::MAX,
                None => true,
            },
        },
{
    if s.len() > 0 && s[0] == 45 {
        match parse_digits(s, 1) {
            Some(v) => Some(-(v as i128)),
            None => None,
        }
    } else if s.len() > 0 && s[0] == 43 {
        match parse_digits(s, 1) {
            Some(v) => Some(v as i128),
            None => None,
        }
    } else {
        assert(s@.skip(0) =~= s@);
        match parse_digits(s, 0) {
            Some(v) => Some(v as i128),
            None => None,
        }
    }
}

/// Reads a text as `i64`.
pub fn parse_i64(s: &[u8]) -> (r: Option<i64>)
    ensures
        r == i64_value(s@),
{
    match parse_integer(s) {
        Some(v) => if v >= i64::MIN as i128 && v <= i64::MAX as i128 {
            Some(v as i64)
        } else {
            None
        },
        None => None,
    }
}

/// Reads a text as `i32`.
pub fn parse_i32(s: &[u8]) -> (r: Option<i32>)
    ensures
        r == i32_value(s@),
{
    match parse_integer(s) {
        Some(v) => if v >= i32::MIN as i128 && v <= i32::MAX as i128 {
            Some(v as i32)
        } else {
            None
        },
        None => None,
    }
}

/// Reads a text as `u32`.
pub fn parse_u32(s: &[u8]) -> (r: Option<u32>)
    ensures
        r == u32_value(s@),
{
    let v = if s.len() > 0 && s[0] == 43 {
        parse_digits(s, 1)
    } else {
        assert(s@.skip(0) =~= s@);
        parse_digits(s, 0)
    };
    match v {
        Some(v) => if v <= u32::MAX as u64 {
            Some(v as u32)
        } else {
            None
        },
        None => None,
    }
}

/// A text as bytes, where every character of it is in ASCII.
pub open spec fn ascii(s: Seq<char>) -> Seq<u8> {
    Seq::new(s.len(), |i: int| s[i] as u8)
}

/// A natural number in decimal is digits that write the number.
pub proof fn lemma_nat_decimal(n: nat)
    ensures
        nat_decimal(n).len() > 0,
        all_digits(ascii(nat_decimal(n))),
        digits_value(ascii(nat_decimal(n))) == n,
        utf8::is_ascii_chars(nat_decimal(n)),
    decreases n,
{
    let s = ascii(nat_decimal(n));
    if n < 10 {
        assert(s.drop_last() =~= seq![]);
        assert(s.last() == 48 + n);
        assert(digits_value(s.drop_last()) == 0);
    } else {
        lemma_nat_decimal(n / 10);
        let before = ascii(nat_decimal(n / 10));
        assert(s.drop_last() =~= before);
        assert forall|i: int| 0 <= i < s.len() implies is_digit(#[trigger] s[i]) by {
            if i < before.len() {
                assert(s[i] == before[i]);
            }
        }
        assert(s.last() == 48 + n % 10);
    }
}

/// A number that is written in decimal is read back as it was.
pub proof fn decimal_reads_back(n: i64)
    ensures
        i64_value(utf8::encode_utf8(decimal(n as int))) == Some(n),
{
    let s = decimal(n as int);
    let magnitude: nat = if n < 0 {
        (-n) as nat
    } else {
        n as nat
    };
    lemma_nat_decimal(magnitude);
    assert(utf8::is_ascii_chars(s));
    utf8::is_ascii_chars_encode_utf8(s);
    let bytes = utf8::encode_utf8(s);
    assert(bytes =~= ascii(s));
    if n < 0 {
        assert(bytes[0] == 45);
        assert(bytes.skip(1) =~= ascii(nat_decimal(magnitude)));
    } else {
        assert(is_digit(bytes[0]));
    }
}

/// Decimal places: ten times a number and a digit is written as the number with the digit behind it; a
/// single digit is written as itself, and a negative number as its magnitude behind a minus sign.
pub proof fn decimal_goes_place_by_place(n: nat, d: nat)
    requires
        d < 10,
    ensures
        decimal(d as int) == seq![seq!['0', '1', '2', '3', '4', '5', '6', '7', '8', '9'][d as int]],
        n > 0 ==> decimal((10 * n + d) as int) == decimal(n as int) + decimal(d as int),
        n > 0 ==> decimal(-(n as int)) == seq!['-'] + decimal(n as int),
{
    let digits = seq!['0', '1', '2', '3', '4', '5', '6', '7', '8', '9'];
    assert(digit_char(d) == digits[d as int]);
    if n > 0 {
        assert((10 * n + d) / 10 == n && (10 * n + d) % 10 == d);
        assert(decimal((10 * n + d) as int) =~= decimal(n as int) + decimal(d as int));
    }
}

/// A run of digits is read place by place: one digit more behind it makes ten times its number and the
/// digit.
pub proof fn digits_are_read_place_by_place(s: Seq<u8>, b: u8)
    requires
        48 <= b <= 57,
    ensures
        digits_value(seq![]) == 0,
        digits_value(s.push(b)) == 10 * digits_value(s) + (b - 48),
{
    assert(s.push(b).drop_last() =~= s);
}

/// Digits alone or behind a plus sign are read as the number that they write, and digits behind a minus
/// sign as its negative, wherever it fits into the type; where it does not, nothing is read. A type
/// without negative numbers takes no minus sign.
pub proof fn digits_are_read_where_they_fit(s: Seq<u8>)
    requires
        s.len() > 0,
        forall|i: int| 0 <= i < s.len() ==> 48 <= #[trigger] s[i] <= 57,
    ensures
        ({
            let v = digits_value(s) as int;
            &&& v <= i64::MAX ==> i64_value(s) == Some(v as i64) && i64_value(seq![43u8] + s) == Some(v as i64)
            &&& v > i64::MAX ==> i64_value(s) is None && i64_value(seq![43u8] + s) is None
            &&& -v >= i64::MIN ==> i64_value(seq![45u8] + s) == Some((-v) as i64)
            &&& -v < i64::MIN ==> i64_value(seq![45u8] + s) is None
            &&& v <= i32::MAX ==> i32_value(s) == Some(v as i32) && i32_value(seq![43u8] + s) == Some(v as i32)
            &&& v > i32::MAX ==> i32_value(s) is None && i32_value(seq![43u8] + s) is None
            &&& -v >= i32::MIN ==> i32_value(seq![45u8] + s) == Some((-v) as i32)
            &&& -v < i32::MIN ==> i32_value(seq![45u8] + s) is None
            &&& v <= u32::MAX ==> u32_value(s) == Some(v as u32) && u32_value(seq![43u8] + s) == Some(v as u32)
            &&& v > u32::MAX ==> u32_value(s) is None && u32_value(seq![43u8] + s) is None
            &&& u32_value(seq![45u8] + s) is None
        }),
{
    assert(48 <= s[0] <= 57);
    assert forall|i: int| 0 <= i < s.len() implies is_digit(#[trigger] s[i]) by {}
    assert((seq![43u8] + s).skip(1) =~= s);
    assert((seq![45u8] + s).skip(1) =~= s);
    assert(!is_digit((seq![45u8] + s)[0]));
}

/// What is no run of digits behind at most one sign is not read as a number.
pub proof fn nothing_but_digits_is_read(s: Seq<u8>, from: int)
    requires
        from == (if s.len() > 0 && (s[0] == 43 || s[0] == 45) {
            1int
        } else {
            0int
        }),
        s.len() == from || exists|i: int| from <= i < s.len() && !(48 <= #[trigger] s[i] <= 57),
    ensures
        i64_value(s) is None,
        i32_value(s) is None,
        u32_value(s) is None,
{
    let body = s.skip(from);
    assert(s.skip(0) =~= s);
    if s.len() > from {
        let i = choose|i: int| from <= i < s.len() && !(48 <= #[trigger] s[i] <= 57);
        assert(!is_digit(body[i - from]));
        assert(!is_digit(s[i]));
    }
}

} // verus!
