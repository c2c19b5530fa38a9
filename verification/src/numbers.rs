//! Decimal text of integers, both ways.

use vstd::prelude::*;
use crate::text::{chars_of, push_char};

verus! {

broadcast use vstd::string::group_string_axioms;

/// The character of a decimal digit.
pub open spec fn digit_char(d: int) -> char {
    if d == 0 {
        '0'
    } else if d == 1 {
        '1'
    } else if d == 2 {
        '2'
    } else if d == 3 {
        '3'
    } else if d == 4 {
        '4'
    } else if d == 5 {
        '5'
    } else if d == 6 {
        '6'
    } else if d == 7 {
        '7'
    } else if d == 8 {
        '8'
    } else {
        '9'
    }
}

/// The decimal digits of `n`, most significant first, without leading
/// zeros.
pub open spec fn decimal(n: nat) -> Seq<char>
    decreases n,
{
    if n < 10 {
        seq![digit_char(n as int)]
    } else {
        decimal(n / 10).push(digit_char((n % 10) as int))
    }
}

/// The decimal text of `i`, with a leading `-` when it is negative.
pub open spec fn signed_decimal(i: int) -> Seq<char> {
    if i < 0 {
        seq!['-'] + decimal((-i) as nat)
    } else {
        decimal(i as nat)
    }
}

fn digit_of(d: u64) -> (c: char)
    requires
        d < 10,
    ensures
        c == digit_char(d as int),
{
    if d == 0 {
        '0'
    } else if d == 1 {
        '1'
    } else if d == 2 {
        '2'
    } else if d == 3 {
        '3'
    } else if d == 4 {
        '4'
    } else if d == 5 {
        '5'
    } else if d == 6 {
        '6'
    } else if d == 7 {
        '7'
    } else if d == 8 {
        '8'
    } else {
        '9'
    }
}

/// The decimal text of `n` (what `n.to_string()` gives).
pub fn decimal_u64(n: u64) -> (s: String)
    ensures
        s@ == decimal(n as nat),
    decreases n,
{
    if n < 10 {
        let mut s = String::new();
        push_char(&mut s, digit_of(n));
        s
    } else {
        let mut s = decimal_u64(n / 10);
        push_char(&mut s, digit_of(n % 10));
        s
    }
}

/// The decimal text of `i` (what `i.to_string()` gives).
pub fn decimal_i64(i: i64) -> (s: String)
    ensures
        s@ == signed_decimal(i as int),
{
    if i < 0 {
        let magnitude: u64 = (0i128 - i as i128) as u64;
        let digits = decimal_u64(magnitude);
        let mut s = String::new();
        push_char(&mut s, '-');
        s.append(digits.as_str());
        s
    } else {
        decimal_u64(i as u64)
    }
}

/// Whether `c` is one of the ASCII digits.
pub open spec fn is_digit(c: char) -> bool {
    '0' <= c <= '9'
}

/// The value of a decimal digit.
pub open spec fn digit_value(c: char) -> int {
    c as int - '0' as int
}

/// The value of a run of decimal digits, most significant first.
pub open spec fn digits_value(s: Seq<char>) -> int
    decreases s.len(),
{
    if s.len() == 0 {
        0
    } else {
        digits_value(s.drop_last()) * 10 + digit_value(s.last())
    }
}

/// Whether every character of `s` is a digit.
pub open spec fn all_digits(s: Seq<char>) -> bool {
    forall|i: int| 0 <= i < s.len() ==> is_digit(#[trigger] s[i])
}

/// The integer that `s` writes: an optional `+` or `-` and then at least
/// one decimal digit, nothing else (the syntax of `str::parse` for
/// signed integers), or `None`.
pub open spec fn integer_text(s: Seq<char>) -> Option<int> {
    if s.len() == 0 {
        None
    } else {
        let negative = s[0] == '-';
        let body = if s[0] == '-' || s[0] == '+' { s.drop_first() } else { s };
        if body.len() > 0 && all_digits(body) {
            Some(if negative { -digits_value(body) } else { digits_value(body) })
        } else {
            None
        }
    }
}

/// The integer that `s` writes if it lies in `lo..=hi`.
pub open spec fn integer_text_in(s: Seq<char>, lo: int, hi: int) -> Option<int> {
    match integer_text(s) {
        Some(v) => if lo <= v <= hi { Some(v) } else { None },
        None => None,
    }
}

/// The decimal text of `n` is a run of digits whose value is `n`, and it
/// does not start with a zero unless it is "0".
pub proof fn lemma_decimal_value(n: nat)
    ensures
        decimal(n).len() > 0,
        all_digits(decimal(n)),
        digits_value(decimal(n)) == n,
        decimal(n).len() > 1 ==> decimal(n)[0] != '0',
    decreases n,
{
    if n < 10 {
        assert(digit_value(digit_char(n as int)) == n);
        assert(decimal(n).drop_last() =~= Seq::<char>::empty());
        assert(digits_value(Seq::<char>::empty()) == 0);
        assert(decimal(n).last() == digit_char(n as int));
    } else {
        lemma_decimal_value(n / 10);
        let s = decimal(n / 10);
        let d = (n % 10) as int;
        assert(decimal(n).drop_last() =~= s);
        assert(digit_value(digit_char(d)) == d);
        assert(digits_value(decimal(n)) == digits_value(s) * 10 + d);
        assert(decimal(n)[0] == s[0]);
        assert forall|i: int| 0 <= i < decimal(n).len() implies is_digit(#[trigger] decimal(n)[i]) by {
            if i < s.len() {
                assert(decimal(n)[i] == s[i]);
            }
        }
        if s.len() == 1 {
            assert(s[0] != '0') by {
                assert(n / 10 > 0);
                assert(digits_value(s) == digits_value(s.drop_last()) * 10 + digit_value(s.last()));
                assert(s.drop_last().len() == 0);
            }
        }
    }
}

/// Reading back the decimal text of an integer gives the integer.
pub proof fn lemma_signed_decimal_reads_back(i: int)
    ensures
        integer_text(signed_decimal(i)) == Some(i),
{
    if i < 0 {
        let d = decimal((-i) as nat);
        lemma_decimal_value((-i) as nat);
        assert((seq!['-'] + d).drop_first() =~= d);
        assert((seq!['-'] + d)[0] == '-');
    } else {
        let d = decimal(i as nat);
        lemma_decimal_value(i as nat);
        assert(is_digit(d[0]));
    }
}

proof fn lemma_digits_value_prefix(s: Seq<char>, k: int)
    requires
        all_digits(s),
        0 <= k <= s.len(),
    ensures
        0 <= digits_value(s.take(k)) <= digits_value(s),
    decreases s.len(),
{
    if s.len() > 0 {
        if k == s.len() {
            assert(s.take(k) =~= s);
            lemma_digits_value_prefix(s.drop_last(), k - 1);
            assert(s.drop_last().take(k - 1) =~= s.drop_last());
        } else {
            lemma_digits_value_prefix(s.drop_last(), k);
            assert(s.drop_last().take(k) =~= s.take(k));
            lemma_digits_value_prefix(s.drop_last(), s.len() - 1);
            assert(s.drop_last().take(s.len() - 1) =~= s.drop_last());
        }
    }
}

/// Reads an integer in `lo..=hi` from decimal text (`str::parse`).
fn parse_integer_in(s: &str, lo: i64, hi: i64) -> (r: Option<i64>)
    ensures
        r matches Some(v) ==> integer_text_in(s@, lo as int, hi as int) == Some(v as int),
        r is None ==> integer_text_in(s@, lo as int, hi as int) is None,
{
    let chars = chars_of(s);
    let n = chars.len();
    if n == 0 {
        return None;
    }
    let negative = chars[0] == '-';
    let start: usize = if chars[0] == '-' || chars[0] == '+' { 1 } else { 0 };
    let ghost body = s@.skip(start as int);
    assert(body =~= (if s@[0] == '-' || s@[0] == '+' { s@.drop_first() } else { s@ }));
    if start == n {
        return None;
    }
    let bound: u128 = 0x8000_0000_0000_0000;
    let mut acc: u128 = 0;
    let mut i = start;
    assert(body.take(0) =~= Seq::<char>::empty());
    while i < n
        invariant
            chars@ == s@,
            n == s@.len(),
            start <= i <= n,
            start == 0 || start == 1,
            s@.len() > 0,
            start == 1 <==> (s@[0] == '-' || s@[0] == '+'),
            body == s@.skip(start as int),
            body =~= (if s@[0] == '-' || s@[0] == '+' { s@.drop_first() } else { s@ }),
            bound == 0x8000_0000_0000_0000u128,
            acc <= bound,
            acc == digits_value(body.take(i - start)),
            all_digits(body.take(i - start)),
        decreases n - i,
    {
        let c = chars[i];
        assert(body[i - start] == c);
        if !('0' <= c && c <= '9') {
            assert(!all_digits(body)) by {
                assert(!is_digit(body[i - start]));
            }
            assert(integer_text(s@) is None);
            return None;
        }
        let d: u128 = (c as u32 - '0' as u32) as u128;
        assert(body.take(i - start + 1).drop_last() =~= body.take(i - start));
        acc = acc * 10 + d;
        i += 1;
        assert(all_digits(body.take(i - start))) by {
            assert forall|j: int| 0 <= j < body.take(i - start).len() implies is_digit(
                #[trigger] body.take(i - start)[j],
            ) by {
                if j < i - start - 1 {
                    assert(body.take(i - start - 1)[j] == body.take(i - start)[j]);
                }
            }
        }
        if acc > bound {
            proof {
                if all_digits(body) {
                    lemma_digits_value_prefix(body, i - start);
                }
            }
            return None;
        }
    }
    assert(body.take(n - start) =~= body);
    let value: i128 = if negative { 0 - acc as i128 } else { acc as i128 };
    if value < lo as i128 || value > hi as i128 {
        return None;
    }
    Some(value as i64)
}

/// Reads an `i64` from decimal text (`str::parse::<i64>`).
pub fn parse_i64(s: &str) -> (r: Option<i64>)
    ensures
        r matches Some(v) ==> integer_text_in(s@, i64::MIN as int, i64::MAX as int) == Some(v as int),
        r is None ==> integer_text_in(s@, i64::MIN as int, i64::MAX as int) is None,
{
    parse_integer_in(s, i64::MIN, i64::MAX)
}

/// Reads an `i32` from decimal text (`str::parse::<i32>`).
pub fn parse_i32(s: &str) -> (r: Option<i32>)
    ensures
        r matches Some(v) ==> integer_text_in(s@, i32::MIN as int, i32::MAX as int) == Some(v as int),
        r is None ==> integer_text_in(s@, i32::MIN as int, i32::MAX as int) is None,
{
    match parse_integer_in(s, i32::MIN as i64, i32::MAX as i64) {
        Some(v) => Some(v as i32),
        None => None,
    }
}

} // verus!
