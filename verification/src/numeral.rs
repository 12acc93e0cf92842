//! Decimal numerals: writing whole numbers, reading them back, and telling which texts are
//! numerals of a real number.

use crate::text::{digit_value, is_digit, is_text, lower_char, part, ascii_lower, ascii_lower_char};
use vstd::prelude::*;

verus! {

// ---------------------------------------------------------------------------------------------
// Whole numbers
// ---------------------------------------------------------------------------------------------

/// The digit of a number below ten.
pub open spec fn digit_char(n: nat) -> char {
    ('0' as nat + n) as char
}

/// `n` in decimal, without leading zeros.
pub open spec fn decimal(n: nat) -> Seq<char>
    decreases n,
{
    if n < 10 {
        seq![digit_char(n)]
    } else {
        decimal(n / 10).push(digit_char(n % 10))
    }
}

/// The number that a run of digits stands for.
pub open spec fn digits_value(s: Seq<char>) -> nat
    decreases s.len(),
{
    if s.len() == 0 {
        0
    } else {
        digits_value(s.drop_last()) * 10 + digit_value(s.last())
    }
}

/// Every character is a digit.
pub open spec fn all_digits(s: Seq<char>) -> bool {
    forall|i: int| 0 <= i < s.len() ==> is_digit(#[trigger] s[i])
}

/// `s` without a `+` at its start.
pub open spec fn without_plus(s: Seq<char>) -> Seq<char> {
    if s.len() > 0 && s[0] == '+' {
        s.skip(1)
    } else {
        s
    }
}

/// The whole number up to `max` that `s` is the numeral of: an optional `+`, then digits.
pub open spec fn unsigned(s: Seq<char>, max: nat) -> Option<nat> {
    let d = without_plus(s);
    if d.len() > 0 && all_digits(d) && digits_value(d) <= max {
        Some(digits_value(d))
    } else {
        None
    }
}

/// A longer run of digits stands for no smaller number.
proof fn lemma_prefix_value(s: Seq<char>, k: int)
    requires
        0 <= k <= s.len(),
    ensures
        digits_value(s.take(k)) <= digits_value(s),
    decreases s.len(),
{
    if k < s.len() {
        assert(s.drop_last().take(k) == s.take(k));
        lemma_prefix_value(s.drop_last(), k);
    } else {
        assert(s.take(k) == s);
    }
}

/// Reading back what `decimal` writes gives the number again.
pub proof fn lemma_decimal_round_trip(n: nat)
    ensures
        decimal(n).len() > 0,
        all_digits(decimal(n)),
        digits_value(decimal(n)) == n,
    decreases n,
{
    reveal_with_fuel(digits_value, 2);
    if n < 10 {
        assert(decimal(n).drop_last() == Seq::<char>::empty());
    } else {
        lemma_decimal_round_trip(n / 10);
        assert(decimal(n).drop_last() == decimal(n / 10));
        assert forall|i: int| 0 <= i < decimal(n).len() implies is_digit(#[trigger] decimal(n)[i]) by {
            if i < decimal(n).len() - 1 {
                assert(decimal(n)[i] == decimal(n / 10)[i]);
            }
        }
    }
}

/// What `decimal` writes is read back by `unsigned` under every limit that allows the number.
pub proof fn law_decimal_is_read_back(n: nat, max: nat)
    requires
        n <= max,
    ensures
        unsigned(decimal(n), max) == Some(n),
{
    lemma_decimal_round_trip(n);
}

/// Appends `n` in decimal.
pub fn push_decimal(out: &mut String, n: u64)
    ensures
        final(out)@ == old(out)@ + decimal(n as nat),
    decreases n,
{
    let ghost before = out@;
    if n >= 10 {
        push_decimal(out, n / 10);
        let ghost high = out@;
        out.push((48u8 + (n % 10) as u8) as char);
        assert(out@ == before + decimal(n as nat));
    } else {
        out.push((48u8 + n as u8) as char);
        assert(out@ == before + decimal(n as nat));
    }
}

/// `n` in decimal.
pub fn decimal_text(n: u64) -> (r: String)
    ensures
        r@ == decimal(n as nat),
{
    let mut out = String::new();
    push_decimal(&mut out, n);
    assert(out@ == decimal(n as nat));
    out
}

/// The whole number up to `max` that `s` is the numeral of.
pub fn parse_unsigned(s: &[char], max: u32) -> (r: Option<u32>)
    ensures
        match r {
            Some(n) => unsigned(s@, max as nat) == Some(n as nat),
            None => unsigned(s@, max as nat) is None,
        },
{
    let d = if s.len() > 0 && s[0] == '+' {
        part(s, 1, s.len())
    } else {
        s
    };
    assert(s@.len() > 0 ==> s@.subrange(1, s@.len() as int) == s@.skip(1));
    if d.len() == 0 {
        return None;
    }
    let mut n: u64 = 0;
    let mut i: usize = 0;
    assert(d@.take(0) == Seq::<char>::empty());
    while i < d.len()
        invariant
            i <= d@.len(),
            d@ == without_plus(s@),
            n <= max,
            n == digits_value(d@.take(i as int)),
            forall|k: int| 0 <= k < i ==> is_digit(#[trigger] d@[k]),
        decreases d.len() - i,
    {
        if !is_digit(d[i]) {
            return None;
        }
        assert(d@.take(i + 1).drop_last() == d@.take(i as int));
        n = n * 10 + (d[i] as u32 - 48) as u64;
        i = i + 1;
        if n > max as u64 {
            proof {
                lemma_prefix_value(d@, i as int);
            }
            return None;
        }
    }
    assert(d@.take(i as int) == d@);
    Some(n as u32)
}

// ---------------------------------------------------------------------------------------------
// Real numbers
// ---------------------------------------------------------------------------------------------

/// The first place at or after `i` that holds no digit.
pub open spec fn digit_run(s: Seq<char>, i: int) -> int
    decreases s.len() - i,
{
    if 0 <= i < s.len() && is_digit(s[i]) {
        digit_run(s, i + 1)
    } else {
        i
    }
}

/// An exponent: `e`, an optional sign, digits to the end.
pub open spec fn is_exponent(s: Seq<char>, i: int) -> bool {
    &&& 0 <= i < s.len()
    &&& s[i] == 'e' || s[i] == 'E'
    &&& {
        let j = if i + 1 < s.len() && (s[i + 1] == '+' || s[i + 1] == '-') {
            i + 2
        } else {
            i + 1
        };
        j < s.len() && digit_run(s, j) == s.len()
    }
}

/// Digits with at most one point among them, at least one digit, and an optional exponent.
pub open spec fn is_decimal(s: Seq<char>) -> bool {
    let a = digit_run(s, 0);
    let point = a < s.len() && s[a] == '.';
    let b = if point {
        digit_run(s, a + 1)
    } else {
        a
    };
    let digits = if point {
        b - 1
    } else {
        b
    };
    digits > 0 && (b == s.len() || is_exponent(s, b))
}

/// `s` without its sign, where it begins with one.
pub open spec fn unsigned_part(s: Seq<char>) -> Seq<char> {
    if s.len() > 0 && (s[0] == '+' || s[0] == '-') {
        s.skip(1)
    } else {
        s
    }
}

/// The numerals of a real number: an optional sign, then `inf`, `infinity` or `nan` in any case,
/// or a decimal numeral.
pub open spec fn is_number(s: Seq<char>) -> bool {
    let u = unsigned_part(s);
    ||| ascii_lower(u) == "inf"@
    ||| ascii_lower(u) == "infinity"@
    ||| ascii_lower(u) == "nan"@
    ||| is_decimal(u)
}

fn skip_digits(s: &[char], i: usize) -> (r: usize)
    requires
        i <= s@.len(),
    ensures
        r == digit_run(s@, i as int),
        i <= r <= s@.len(),
{
    let mut k: usize = i;
    while k < s.len() && is_digit(s[k])
        invariant
            i <= k <= s@.len(),
            digit_run(s@, i as int) == digit_run(s@, k as int),
        decreases s.len() - k,
    {
        k = k + 1;
    }
    k
}

fn exponent_at(s: &[char], i: usize) -> (r: bool)
    requires
        i <= s@.len(),
    ensures
        r == is_exponent(s@, i as int),
{
    if i == s.len() || !(s[i] == 'e' || s[i] == 'E') {
        return false;
    }
    let signed = i + 1 < s.len() && (s[i + 1] == '+' || s[i + 1] == '-');
    let j: usize = if signed {
        i + 2
    } else {
        i + 1
    };
    j < s.len() && skip_digits(s, j) == s.len()
}

fn decimal_numeral(s: &[char]) -> (r: bool)
    ensures
        r == is_decimal(s@),
{
    let a: usize = skip_digits(s, 0);
    let point = a < s.len() && s[a] == '.';
    let b: usize = if point {
        skip_digits(s, a + 1)
    } else {
        a
    };
    let any = if point {
        b > 1
    } else {
        b > 0
    };
    any && (b == s.len() || exponent_at(s, b))
}

fn lowered(s: &[char]) -> (r: Vec<char>)
    ensures
        r@ == ascii_lower(s@),
{
    let mut out: Vec<char> = Vec::new();
    let mut i: usize = 0;
    while i < s.len()
        invariant
            i <= s@.len(),
            out@.len() == i,
            forall|k: int| 0 <= k < i ==> out@[k] == ascii_lower_char(s@[k]),
        decreases s.len() - i,
    {
        out.push(lower_char(s[i]));
        i = i + 1;
    }
    assert(out@ =~= ascii_lower(s@));
    out
}

/// Whether `s` is the numeral of a real number.
pub fn is_numeral(s: &[char]) -> (r: bool)
    ensures
        r == is_number(s@),
{
    let u = if s.len() > 0 && (s[0] == '+' || s[0] == '-') {
        part(s, 1, s.len())
    } else {
        s
    };
    assert(s@.len() > 0 ==> s@.subrange(1, s@.len() as int) == s@.skip(1));
    let low = lowered(u);
    is_text(&low, "inf") || is_text(&low, "infinity") || is_text(&low, "nan") || decimal_numeral(u)
}

/// A run of digits ends where they end.
proof fn lemma_digit_run(s: Seq<char>, i: int, k: int)
    requires
        0 <= i <= k <= s.len(),
        forall|j: int| i <= j < k ==> is_digit(#[trigger] s[j]),
        k < s.len() ==> !is_digit(s[k]),
    ensures
        digit_run(s, i) == k,
    decreases k - i,
{
    if i < k {
        lemma_digit_run(s, i + 1, k);
    }
}

/// Whole numbers, and numbers with a point, are numerals, with a sign or without.
pub proof fn law_decimals_are_numbers(a: nat, b: nat)
    ensures
        is_number(decimal(a)),
        is_number(seq!['-'] + decimal(a)),
        is_number(decimal(a) + seq!['.'] + decimal(b)),
        is_number(seq!['-'] + (decimal(a) + seq!['.'] + decimal(b))),
        is_number(seq!['+'] + (decimal(a) + seq!['.'] + decimal(b))),
{
    lemma_decimal_round_trip(a);
    lemma_decimal_round_trip(b);
    let x = decimal(a);
    let y = decimal(b);
    let n = x.len() as int;
    assert(is_digit(x[0]));
    lemma_digit_run(x, 0, n);
    assert(is_decimal(x));
    let p = x + seq!['.'] + y;
    assert(p[0] == x[0]);
    assert forall|j: int| 0 <= j < n implies is_digit(#[trigger] p[j]) by {
        assert(p[j] == x[j]);
    }
    assert(p[n] == '.');
    lemma_digit_run(p, 0, n);
    assert forall|j: int| n + 1 <= j < p.len() implies is_digit(#[trigger] p[j]) by {
        assert(p[j] == y[j - n - 1]);
    }
    lemma_digit_run(p, n + 1, p.len() as int);
    assert(is_decimal(p));
    assert((seq!['-'] + x).skip(1) =~= x);
    assert((seq!['-'] + p).skip(1) =~= p);
    assert((seq!['+'] + p).skip(1) =~= p);
}

} // verus!
