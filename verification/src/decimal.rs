//! Decimal numbers as text.
use crate::text::text_of;
use vstd::prelude::*;

verus! {

/// The decimal digit that stands for `d`.
pub open spec fn digit(d: int) -> char {
    (d + 48) as char
}

/// Whether `c` is one of the digits `0` to `9`.
pub open spec fn is_digit(c: char) -> bool {
    '0' <= c <= '9'
}

/// The number that a digit stands for.
pub open spec fn digit_value(c: char) -> nat {
    (c as int - 48) as nat
}

/// `n` in decimal, without leading zeros.
pub open spec fn decimal(n: nat) -> Seq<char>
    decreases n,
{
    if n < 10 {
        seq![digit(n as int)]
    } else {
        decimal(n / 10).push(digit((n % 10) as int))
    }
}

/// Whether every character of `s` is a digit.
pub open spec fn all_digits(s: Seq<char>) -> bool {
    forall|i: int| 0 <= i < s.len() ==> is_digit(#[trigger] s[i])
}

/// The number that a row of digits stands for.
pub open spec fn digits_value(s: Seq<char>) -> nat
    decreases s.len(),
{
    if s.len() == 0 {
        0
    } else {
        10 * digits_value(s.drop_last()) + digit_value(s.last())
    }
}

/// `s` without the plus sign it may begin with.
pub open spec fn without_plus(s: Seq<char>) -> Seq<char> {
    if s.len() > 0 && s[0] == '+' {
        s.skip(1)
    } else {
        s
    }
}

/// The number that `s` stands for: one or more digits, behind at most one plus sign, whose value
/// fits a `usize`.
pub open spec fn parsed_usize(s: Seq<char>) -> Option<nat> {
    let digits = without_plus(s);
    if digits.len() > 0 && all_digits(digits) && digits_value(digits) <= usize::MAX {
        Some(digits_value(digits))
    } else {
        None
    }
}

/// The decimal digits of `n`.
fn decimal_chars(n: u64) -> (chars: Vec<char>)
    ensures
        chars@ == decimal(n as nat),
    decreases n,
{
    let last: char = ((n % 10) as u8 + 48) as char;
    if n < 10 {
        let mut chars: Vec<char> = Vec::new();
        chars.push(last);
        chars
    } else {
        let mut chars = decimal_chars(n / 10);
        chars.push(last);
        chars
    }
}

/// `n` in decimal.
pub fn decimal_text(n: u64) -> (text: String)
    ensures
        text@ == decimal(n as nat),
{
    let chars = decimal_chars(n);
    text_of(chars.as_slice())
}

proof fn lemma_digits_value_grows(s: Seq<char>, k: int)
    requires
        0 <= k <= s.len(),
    ensures
        digits_value(s.take(k)) <= digits_value(s),
    decreases s.len(),
{
    if k < s.len() {
        lemma_digits_value_grows(s.drop_last(), k);
        assert(s.drop_last().take(k) == s.take(k));
    } else {
        assert(s.take(k) == s);
    }
}

/// The number that `chars` stands for, if it stands for one that fits.
pub fn parse_usize(chars: &[char]) -> (n: Option<usize>)
    ensures
        match n {
            Some(value) => parsed_usize(chars@) == Some(value as nat),
            None => parsed_usize(chars@) is None,
        },
{
    let mut at: usize = 0;
    if chars.len() > 0 && chars[0] == '+' {
        at = 1;
    }
    let ghost digits = without_plus(chars@);
    let ghost first: int = at as int;
    assert(digits == chars@.skip(first));
    if at == chars.len() {
        return None;
    }
    let mut value: usize = 0;
    assert(digits.take(0) == Seq::<char>::empty());
    while at < chars.len()
        invariant
            0 <= first <= at <= chars@.len(),
            first < chars@.len(),
            digits == without_plus(chars@),
            digits == chars@.skip(first),
            all_digits(digits.take(at - first)),
            value == digits_value(digits.take(at - first)),
        decreases chars@.len() - at,
    {
        let c = chars[at];
        let ghost done = at - first;
        assert(digits[done] == c);
        if !('0' <= c && c <= '9') {
            return None;
        }
        let d: usize = (c as u8 - 48) as usize;
        assert(digits.take(done + 1).drop_last() == digits.take(done));
        assert(digits_value(digits.take(done + 1)) == 10 * value + d);
        proof {
            lemma_digits_value_grows(digits, done + 1);
        }
        if value > usize::MAX / 10 {
            return None;
        }
        let tens: usize = value * 10;
        if d > usize::MAX - tens {
            return None;
        }
        value = tens + d;
        at += 1;
    }
    assert(digits.take(digits.len() as int) == digits);
    Some(value)
}

/// Decimal text is made of digits, at least one.
pub proof fn lemma_decimal_digits(n: nat)
    ensures
        decimal(n).len() > 0,
        all_digits(decimal(n)),
    decreases n,
{
    if n >= 10 {
        lemma_decimal_digits(n / 10);
    }
}

/// The digits of a number's decimal text stand for that number.
pub proof fn lemma_decimal_value(n: nat)
    ensures
        digits_value(decimal(n)) == n,
    decreases n,
{
    reveal_with_fuel(digits_value, 2);
    if n >= 10 {
        lemma_decimal_value(n / 10);
        assert(decimal(n).drop_last() == decimal(n / 10));
    }
}

/// A length that was written in decimal is read back as the same length.
pub proof fn lemma_decimal_round_trip(n: nat)
    requires
        n <= usize::MAX,
    ensures
        parsed_usize(decimal(n)) == Some(n),
{
    lemma_decimal_digits(n);
    lemma_decimal_value(n);
    assert(is_digit(decimal(n)[0]));
}

// ---------------------------------------------------------------------------------------------
// Laws.
// ---------------------------------------------------------------------------------------------

/// A number below ten is written as its digit, and ten times a number and a digit as the number and
/// then the digit.
pub proof fn lemma_decimal_is(n: nat, d: nat)
    requires
        d < 10,
    ensures
        decimal(d) == "0123456789"@.subrange(d as int, d as int + 1),
        n > 0 ==> decimal(10 * n + d) == decimal(n) + decimal(d),
{
    reveal_strlit("0123456789");
    assert(decimal(d) == seq!["0123456789"@[d as int]]);
    if n > 0 {
        let m = 10 * n + d;
        assert(m / 10 == n && m % 10 == d);
    }
}

/// So many zeros.
pub open spec fn zeros(k: nat) -> Seq<char> {
    Seq::new(k, |i: int| '0')
}

proof fn lemma_digits_text(s: Seq<char>) -> (k: nat)
    requires
        s.len() > 0,
        all_digits(s),
    ensures
        s == zeros(k) + decimal(digits_value(s)),
    decreases s.len(),
{
    let c = s.last();
    let d = digit_value(c);
    let t = s.drop_last();
    assert(is_digit(s[s.len() - 1]));
    assert(decimal(d) == seq![c]);
    if t.len() == 0 {
        assert(digits_value(t) == 0);
        assert(s == zeros(0) + decimal(d));
        0
    } else {
        assert forall|i: int| 0 <= i < t.len() implies is_digit(#[trigger] t[i]) by {
            assert(s[i] == t[i]);
        }
        let k = lemma_digits_text(t);
        let v = digits_value(t);
        assert(s == t.push(c));
        if v > 0 {
            assert((10 * v + d) / 10 == v && (10 * v + d) % 10 == d);
            assert(decimal(10 * v + d) == decimal(v).push(c));
            assert(s == zeros(k) + decimal(10 * v + d));
            k
        } else {
            assert(decimal(0) == seq!['0']);
            assert(s == zeros(k + 1) + decimal(d));
            k + 1
        }
    }
}

proof fn lemma_zeros_value(k: nat, s: Seq<char>)
    ensures
        digits_value(zeros(k) + s) == digits_value(s),
    decreases s.len(), k,
{
    if s.len() > 0 {
        lemma_zeros_value(k, s.drop_last());
        assert((zeros(k) + s).drop_last() == zeros(k) + s.drop_last());
    } else if k > 0 {
        lemma_zeros_value((k - 1) as nat, s);
        assert((zeros(k) + s).drop_last() == zeros((k - 1) as nat) + s);
        assert((zeros(k) + s).last() == '0');
    } else {
        assert(zeros(k) + s == s);
    }
}

/// A text stands for a number exactly where it is the number in decimal, with any zeros before it
/// and a plus sign before these or none, and the number fits.
pub proof fn lemma_parsed_usize_is(s: Seq<char>, n: nat)
    ensures
        parsed_usize(s) == Some(n) <==> n <= usize::MAX && exists|k: nat|
            s == #[trigger] zeros(k) + decimal(n) || s == seq!['+'] + zeros(k) + decimal(n),
{
    let digits = without_plus(s);
    if parsed_usize(s) == Some(n) {
        let k = lemma_digits_text(digits);
        if digits != s {
            assert(s == seq!['+'] + digits);
            assert(s == seq!['+'] + zeros(k) + decimal(n));
        }
    }
    if n <= usize::MAX && exists|k: nat|
        s == #[trigger] zeros(k) + decimal(n) || s == seq!['+'] + zeros(k) + decimal(n) {
        let k = choose|k: nat|
            s == #[trigger] zeros(k) + decimal(n) || s == seq!['+'] + zeros(k) + decimal(n);
        let t = zeros(k) + decimal(n);
        lemma_decimal_digits(n);
        lemma_decimal_value(n);
        lemma_zeros_value(k, decimal(n));
        assert forall|i: int| 0 <= i < t.len() implies is_digit(#[trigger] t[i]) by {
            if i >= k {
                assert(t[i] == decimal(n)[i - k]);
            }
        }
        assert(is_digit(t[0]));
        if s != t {
            assert(s == seq!['+'] + t);
            assert(s.skip(1) == t);
        }
        assert(digits == t);
    }
}

} // verus!
