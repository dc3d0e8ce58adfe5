//! Amounts: recognising the amount token of a ledger line, and writing
//! integer cents and counts as text.
use vstd::prelude::*;

use crate::text::{chars_of, digit, digit_char, is_ascii_digit, is_ascii_digit_spec, push_char, string_of};

verus! {

// ---------------------------------------------------------------------------
// Recognising an amount
// ---------------------------------------------------------------------------

/// A character kept from an amount token: an ASCII digit, `.` or `-`.
pub open spec fn is_amount_char(c: char) -> bool {
    is_ascii_digit_spec(c) || c == '.' || c == '-'
}

/// The amount characters of `s`, in order; everything else (currency
/// signs, thousands separators, letters) is dropped.
pub open spec fn amount_chars(s: Seq<char>) -> Seq<char>
    decreases s.len(),
{
    if s.len() == 0 {
        s
    } else if is_amount_char(s.last()) {
        amount_chars(s.drop_last()).push(s.last())
    } else {
        amount_chars(s.drop_last())
    }
}

/// `s` without its leading `-`, if it has one.
pub open spec fn unsigned_part(s: Seq<char>) -> Seq<char> {
    if s.len() > 0 && s[0] == '-' {
        s.drop_first()
    } else {
        s
    }
}

/// A decimal number in the form that `f64`'s `FromStr` accepts when only
/// digits, `.` and `-` can occur: an optional leading `-`, then digits with
/// at most one `.` among them, and at least one digit.
pub open spec fn is_decimal_literal(s: Seq<char>) -> bool {
    let body = unsigned_part(s);
    &&& forall|i: int| 0 <= i < body.len() ==> is_ascii_digit_spec(#[trigger] body[i]) || body[i] == '.'
    &&& forall|i: int, j: int|
        0 <= i < j < body.len() && #[trigger] body[i] == '.' ==> #[trigger] body[j] != '.'
    &&& exists|i: int| 0 <= i < body.len() && is_ascii_digit_spec(#[trigger] body[i])
}

/// The decimal text of an amount token: its amount characters, when they
/// form a decimal number, and nothing otherwise.
pub open spec fn clean_amount_spec(raw: Seq<char>) -> Option<Seq<char>> {
    let kept = amount_chars(raw);
    if is_decimal_literal(kept) {
        Some(kept)
    } else {
        None
    }
}

/// The amount characters of `raw`.
fn keep_amount_chars(raw: &Vec<char>) -> (r: Vec<char>)
    ensures
        r@ == amount_chars(raw@),
{
    let mut r: Vec<char> = Vec::new();
    let mut i: usize = 0;
    while i < raw.len()
        invariant
            0 <= i <= raw.len(),
            r@ == amount_chars(raw@.take(i as int)),
        decreases raw.len() - i,
    {
        let c = raw[i];
        assert(raw@.take(i + 1).drop_last() =~= raw@.take(i as int));
        if is_ascii_digit(c) || c == '.' || c == '-' {
            r.push(c);
        }
        i = i + 1;
    }
    assert(raw@.take(raw.len() as int) =~= raw@);
    r
}

/// Decides `is_decimal_literal` for text made of amount characters.
fn is_decimal(s: &Vec<char>) -> (r: bool)
    ensures
        r == is_decimal_literal(s@),
{
    let start: usize = if s.len() > 0 && s[0] == '-' {
        1
    } else {
        0
    };
    let ghost body = unsigned_part(s@);
    assert(body =~= s@.skip(start as int));
    let mut i = start;
    let mut seen_dot = false;
    let ghost mut dot_at: int = 0;
    let mut seen_digit = false;
    let ghost mut digit_at: int = 0;
    while i < s.len()
        invariant
            start <= i <= s.len(),
            body == s@.skip(start as int),
            body == unsigned_part(s@),
            body.len() == s.len() - start,
            forall|k: int| 0 <= k < i - start ==> is_ascii_digit_spec(#[trigger] body[k]) || body[k] == '.',
            forall|k: int, m: int|
                0 <= k < m < i - start && #[trigger] body[k] == '.' ==> #[trigger] body[m] != '.',
            seen_dot ==> 0 <= dot_at < i - start && body[dot_at] == '.',
            !seen_dot ==> forall|k: int| 0 <= k < i - start ==> #[trigger] body[k] != '.',
            seen_digit ==> 0 <= digit_at < i - start && is_ascii_digit_spec(body[digit_at]),
            !seen_digit ==> forall|k: int| 0 <= k < i - start ==> !is_ascii_digit_spec(#[trigger] body[k]),
        decreases s.len() - i,
    {
        let c = s[i];
        assert(body[i - start] == c);
        if c == '.' {
            if seen_dot {
                assert(body[dot_at] == '.' && body[i - start] == '.');
                return false;
            }
            seen_dot = true;
            proof {
                dot_at = i - start;
            }
        } else if is_ascii_digit(c) {
            if !seen_digit {
                proof {
                    digit_at = i - start;
                }
            }
            seen_digit = true;
        } else {
            assert(!(is_ascii_digit_spec(body[i - start]) || body[i - start] == '.'));
            return false;
        }
        i = i + 1;
    }
    if !seen_digit {
        assert forall|k: int| 0 <= k < body.len() implies !is_ascii_digit_spec(#[trigger] body[k]) by {
        }
    }
    seen_digit
}

/// The decimal text of the amount token `raw` (see `clean_amount_spec`).
pub fn clean_amount_chars(raw: &Vec<char>) -> (r: Option<Vec<char>>)
    ensures
        match r {
            Some(t) => clean_amount_spec(raw@) == Some(t@),
            None => clean_amount_spec(raw@) is None,
        },
{
    let kept = keep_amount_chars(raw);
    if is_decimal(&kept) {
        Some(kept)
    } else {
        None
    }
}

/// The decimal text of an amount token: the digits, `.` and `-` that it
/// holds, when they form a decimal number; `None` when they do not.
pub fn clean_amount(raw: &str) -> (r: Option<String>)
    ensures
        match r {
            Some(t) => clean_amount_spec(raw@) == Some(t@),
            None => clean_amount_spec(raw@) is None,
        },
{
    let chars = chars_of(raw);
    match clean_amount_chars(&chars) {
        Some(t) => Some(string_of(&t)),
        None => None,
    }
}

// ---------------------------------------------------------------------------
// Writing numbers
// ---------------------------------------------------------------------------

/// The decimal digits of `n`, without leading zeros.
pub open spec fn decimal(n: nat) -> Seq<char>
    decreases n,
{
    if n < 10 {
        seq![digit_char(n as int)]
    } else {
        decimal(n / 10).push(digit_char((n % 10) as int))
    }
}

/// The absolute value of `c`.
pub open spec fn abs(c: int) -> nat {
    if c < 0 {
        (-c) as nat
    } else {
        c as nat
    }
}

/// An amount of cents as yuan: an optional `-`, `¥`, the whole yuan, `.`
/// and exactly two digits of cents.
pub open spec fn cents_text(cents: int) -> Seq<char> {
    let a = abs(cents);
    let sign = if cents < 0 {
        seq!['-']
    } else {
        Seq::<char>::empty()
    };
    sign + seq!['¥'] + decimal(a / 100) + seq!['.', digit_char(((a % 100) / 10) as int), digit_char((a % 10) as int)]
}

/// Appends the decimal digits of `n` to `out`.
pub fn push_decimal(out: &mut String, n: u64)
    ensures
        final(out)@ == old(out)@ + decimal(n as nat),
    decreases n,
{
    if n >= 10 {
        push_decimal(out, n / 10);
    }
    push_char(out, digit(n % 10));
    assert(final(out)@ =~= old(out)@ + decimal(n as nat));
}

/// The decimal digits of `n`.
pub fn decimal_text(n: u64) -> (s: String)
    ensures
        s@ == decimal(n as nat),
{
    let mut s = String::new();
    push_decimal(&mut s, n);
    assert(s@ =~= decimal(n as nat));
    s
}

/// Appends `cents_text(cents)` to `out`.
pub fn push_cents(out: &mut String, cents: i64)
    ensures
        final(out)@ == old(out)@ + cents_text(cents as int),
{
    let a: u64 = if cents < 0 {
        ((0 - (cents as i128)) as u64)
    } else {
        cents as u64
    };
    assert(a == abs(cents as int));
    let ghost start = out@;
    if cents < 0 {
        push_char(out, '-');
    }
    push_char(out, '¥');
    push_decimal(out, a / 100);
    push_char(out, '.');
    push_char(out, digit((a % 100) / 10));
    push_char(out, digit(a % 10));
    assert(out@ =~= start + cents_text(cents as int));
}

/// An amount of cents written as yuan, such as `-¥1234.05`.
pub fn format_cents(cents: i64) -> (s: String)
    ensures
        s@ == cents_text(cents as int),
{
    let mut s = String::new();
    push_cents(&mut s, cents);
    assert(s@ =~= cents_text(cents as int));
    s
}

} // verus!
