//! Single precision, in whole numbers.
//!
//! A positive quantity is a whole number of some small unit, and every result is rounded as
//! IEEE single precision rounds it: to 24 significant bits, to the nearest, ties to even. Nothing
//! here comes near the ends of the exponent's range.

use vstd::prelude::*;

verus! {

/// One more than the largest number of 24 bits.
pub const TOP: u128 = 0x100_0000;

/// The weight of the last of the 24 significant bits of `n`.
pub open spec fn last_place(n: nat) -> nat
    decreases n,
{
    if n < TOP {
        1
    } else {
        2 * last_place(n / 2)
    }
}

/// `n` rounded to a multiple of `unit`: the nearest one, and the even one of two that are equally
/// near.
pub open spec fn nearest_multiple(n: nat, unit: nat) -> nat {
    let q = n / unit;
    let r = n % unit;
    if 2 * r < unit || (2 * r == unit && q % 2 == 0) {
        (q * unit) as nat
    } else {
        ((q + 1) * unit) as nat
    }
}

/// `n` rounded to 24 significant bits.
#[verifier::opaque]
pub open spec fn rounded(n: nat) -> nat {
    nearest_multiple(n, last_place(n))
}

/// The last place is at least one and no more than `n / 2^23`.
pub proof fn lemma_last_place(n: nat)
    ensures
        1 <= last_place(n),
        n >= TOP ==> last_place(n) * 0x80_0000 <= n,
        n < last_place(n) * 0x100_0000,
    decreases n,
{
    if n >= TOP {
        lemma_last_place(n / 2);
    }
}

/// Rounding moves a number by at most half of its last place.
pub proof fn lemma_rounded_near(n: nat)
    ensures
        -(last_place(n) as int) <= 2 * (rounded(n) - n) <= last_place(n),
{
    reveal(rounded);
    lemma_last_place(n);
    lemma_nearest(n, last_place(n));
}

/// Rounding to a multiple moves a number by at most half of the unit.
pub proof fn lemma_nearest(n: nat, unit: nat)
    requires
        unit >= 1,
    ensures
        -(unit as int) <= 2 * (nearest_multiple(n, unit) - n) <= unit,
        nearest_multiple(n, unit) % unit == 0,
{
    let q = n / unit;
    let r = n % unit;
    assert(n == q * unit + r && 0 <= r < unit) by (nonlinear_arith)
        requires
            unit >= 1,
            q == n / unit,
            r == n % unit,
    ;
    assert((q + 1) * unit == q * unit + unit) by (nonlinear_arith);
    assert((q * unit) % unit == 0 && ((q + 1) * unit) % unit == 0) by (nonlinear_arith)
        requires
            unit >= 1,
    ;
}

/// What has no more than 24 significant bits is kept as it is.
pub proof fn lemma_rounded_small(n: nat)
    requires
        n < TOP,
    ensures
        rounded(n) == n,
{
    reveal(rounded);
}

/// Rounding moves a number by at most one part in 2^24.
pub proof fn lemma_rounded_bound(n: nat)
    ensures
        (rounded(n) - n) * 0x100_0000 <= n,
        (n - rounded(n)) * 0x100_0000 <= n,
{
    lemma_last_place(n);
    lemma_rounded_near(n);
}

/// `n` rounded to 24 significant bits.
pub fn round(n: u128) -> (r: u128)
    requires
        n <= u128::MAX / 2,
    ensures
        r == rounded(n as nat),
        (r - n) * 0x100_0000 <= n,
        (n - r) * 0x100_0000 <= n,
{
    let mut unit: u128 = 1;
    let mut m: u128 = n;
    while m >= TOP
        invariant
            m <= n,
            unit >= 1,
            unit * m <= n,
            n <= u128::MAX / 2,
            last_place(n as nat) == unit * last_place(m as nat),
        decreases m,
    {
        assert(unit * 2 <= unit * m) by (nonlinear_arith)
            requires
                m >= 2,
        ;
        assert((unit * 2) * (m / 2) <= unit * m) by (nonlinear_arith)
            requires
                unit >= 1,
        ;
        assert(unit * (2 * last_place((m / 2) as nat)) == (unit * 2) * last_place((m / 2) as nat))
            by (nonlinear_arith);
        unit = unit * 2;
        m = m / 2;
    }
    assert(last_place(n as nat) == unit) by (nonlinear_arith)
        requires
            last_place(n as nat) == unit * last_place(m as nat),
            last_place(m as nat) == 1,
    ;
    proof {
        reveal(rounded);
        lemma_rounded_bound(n as nat);
        lemma_last_place(n as nat);
    }
    to_multiple(n, unit)
}

/// `n` rounded to a multiple of `unit`.
pub fn to_multiple(n: u128, unit: u128) -> (r: u128)
    requires
        n <= u128::MAX / 2,
        1 <= unit,
        unit <= n || unit == 1,
    ensures
        r == nearest_multiple(n as nat, unit as nat),
{
    proof {
        lemma_nearest(n as nat, unit as nat);
    }
    let q: u128 = n / unit;
    let rest: u128 = n % unit;
    assert(q * unit <= n && (q + 1) * unit <= n + unit) by (nonlinear_arith)
        requires
            unit >= 1,
            q == n / unit,
    ;
    if rest < unit - rest || (rest == unit - rest && q % 2 == 0) {
        q * unit
    } else {
        (q + 1) * unit
    }
}

/// The unit in which ratios are measured: one 2^58th.
pub const RATIO_ONE: u128 = 0x400_0000_0000_0000;

/// Twice the whole part of `n / d`, and one more where the division leaves a rest: below a number
/// of more than 25 bits this decides every rounding as the exact quotient does.
pub open spec fn sticky_quotient(n: nat, d: nat) -> nat {
    2 * (n / d) + if n % d == 0 {
        0nat
    } else {
        1nat
    }
}

/// `a / b` in single precision, as a multiple of one 2^58th; `a` and `b` are themselves first
/// rounded to single precision.
pub open spec fn ratio(a: nat, b: nat) -> nat {
    rounded(sticky_quotient((rounded(a) * (RATIO_ONE as nat / 2)) as nat, rounded(b)))
}

/// `n * s` in single precision, where `s` and the result are multiples of one 2^58th.
pub open spec fn product(n: nat, s: nat) -> nat {
    rounded((rounded(n) * s) as nat)
}

/// The bound of a machine word: more than this becomes this.
pub open spec fn saturated(n: nat) -> nat {
    if n > u32::MAX {
        u32::MAX as nat
    } else {
        n
    }
}

/// The whole part of a multiple of one 2^58th.
pub open spec fn whole_part(x: nat) -> nat {
    saturated(x / RATIO_ONE as nat)
}

/// The whole number nearest to a multiple of one 2^58th, the larger of two equally near.
pub open spec fn nearest_whole(x: nat) -> nat {
    saturated((x + RATIO_ONE / 2) as nat / RATIO_ONE as nat)
}

/// Rounding gives zero for zero only.
pub proof fn lemma_rounded_positive(n: nat)
    requires
        n > 0,
    ensures
        rounded(n) > 0,
{
    lemma_last_place(n);
    lemma_rounded_near(n);
    if n >= TOP {
        assert(last_place(n) <= n);
    }
}

/// `a / b` in single precision.
pub fn divide(a: u32, b: u32) -> (r: u128)
    requires
        b > 0,
    ensures
        r == ratio(a as nat, b as nat),
        r <= 0x1_0000_0000u128 * RATIO_ONE * 4,
{
    let x: u128 = round(a as u128);
    let y: u128 = round(b as u128);
    proof {
        lemma_rounded_positive(b as nat);
    }
    assert(x * 0x200_0000_0000_0000u128 <= 0x1_ffff_ffffu128 * 0x200_0000_0000_0000u128)
        by (nonlinear_arith)
        requires
            x <= 0x1_ffff_ffff,
    ;
    let n: u128 = x * (RATIO_ONE / 2);
    assert(n / y <= n) by (nonlinear_arith)
        requires
            y >= 1,
    ;
    let q: u128 = 2 * (n / y) + if n % y == 0 {
        0
    } else {
        1
    };
    round(q)
}

/// `n * s` in single precision.
pub fn multiply(n: u32, s: u128) -> (r: u128)
    requires
        s <= 0x1_0000_0000u128 * RATIO_ONE * 4,
    ensures
        r == product(n as nat, s as nat),
        r <= 0x4_0000_0000u128 * 0x1_0000_0000u128 * RATIO_ONE * 4,
{
    let x: u128 = round(n as u128);
    assert(x * s <= 0x1_ffff_ffffu128 * (0x1_0000_0000u128 * 0x400_0000_0000_0000u128 * 4))
        by (nonlinear_arith)
        requires
            x <= 0x1_ffff_ffff,
            s <= 0x1_0000_0000u128 * 0x400_0000_0000_0000u128 * 4,
    ;
    round(x * s)
}

fn saturate(n: u128) -> (r: u32)
    ensures
        r == saturated(n as nat),
{
    if n > u32::MAX as u128 {
        u32::MAX
    } else {
        n as u32
    }
}

/// The whole part.
pub fn truncate(x: u128) -> (r: u32)
    ensures
        r == whole_part(x as nat),
{
    saturate(x / RATIO_ONE)
}

/// The nearest whole number.
pub fn to_nearest(x: u128) -> (r: u32)
    requires
        x <= u128::MAX / 2,
    ensures
        r == nearest_whole(x as nat),
{
    saturate((x + RATIO_ONE / 2) / RATIO_ONE)
}

// ---------------------------------------------------------------------------------------------
// Numbers that rounding keeps
// ---------------------------------------------------------------------------------------------

/// Rounding keeps `n`: it has no more than 24 significant bits.
pub open spec fn is_single(n: nat) -> bool {
    n % last_place(n) == 0
}

/// Doubling keeps a multiple a multiple.
proof fn lemma_double_multiple(a: nat, b: nat)
    requires
        b >= 1,
        a % b == 0,
    ensures
        (2 * a) % (2 * b) == 0,
{
    let q = a / b;
    vstd::arithmetic::div_mod::lemma_fundamental_div_mod(a as int, b as int);
    assert(2 * a == q * (2 * b)) by (nonlinear_arith)
        requires
            a == b * q,
    ;
    vstd::arithmetic::div_mod::lemma_mod_multiples_basic(q as int, (2 * b) as int);
}

/// A larger number has a last place that is a multiple of a smaller one's.
proof fn lemma_last_place_divides(n: nat, m: nat)
    requires
        n <= m,
    ensures
        last_place(m) % last_place(n) == 0,
    decreases m,
{
    lemma_last_place(n);
    lemma_last_place(m);
    if n >= TOP {
        lemma_last_place_divides(n / 2, m / 2);
        let a = last_place(m / 2);
        let b = last_place(n / 2);
        lemma_last_place(n / 2);
        lemma_double_multiple(a, b);
    } else {
        assert(last_place(m) % 1 == 0);
    }
}

/// A multiple of a multiple is a multiple.
proof fn lemma_multiple(x: nat, a: nat, b: nat)
    requires
        a >= 1,
        b >= 1,
        x % a == 0,
        a % b == 0,
    ensures
        x % b == 0,
{
    let p = x / a;
    let q = a / b;
    vstd::arithmetic::div_mod::lemma_fundamental_div_mod(x as int, a as int);
    vstd::arithmetic::div_mod::lemma_fundamental_div_mod(a as int, b as int);
    assert(x == b * (q * p)) by (nonlinear_arith)
        requires
            x == a * p,
            a == b * q,
    ;
    assert((b * (q * p)) % b == 0) by (nonlinear_arith)
        requires
            b >= 1,
    ;
}

/// Rounding never passes a number that it keeps.
pub proof fn lemma_rounded_at_most(n: nat, m: nat)
    requires
        n <= m,
        is_single(m),
    ensures
        rounded(n) <= m,
{
    reveal(rounded);
    let u = last_place(n);
    lemma_last_place(n);
    lemma_last_place(m);
    lemma_last_place_divides(n, m);
    lemma_multiple(m, last_place(m), u);
    let q = n / u;
    let k = m / u;
    assert(n == q * u + n % u && m == k * u) by (nonlinear_arith)
        requires
            u >= 1,
            q == n / u,
            k == m / u,
            m % u == 0,
    ;
    if n % u == 0 {
    } else {
        assert(q + 1 <= k) by (nonlinear_arith)
            requires
                q * u < k * u,
                u >= 1,
        ;
        assert((q + 1) * u <= k * u) by (nonlinear_arith)
            requires
                q + 1 <= k,
        ;
    }
    assert(q * u <= n);
}

/// Twice a number of 24 significant bits has no more.
proof fn lemma_single_doubled(n: nat)
    requires
        is_single(n),
    ensures
        is_single(2 * n),
{
    lemma_last_place(n);
    if 2 * n >= TOP {
        assert((2 * n) / 2 == n);
        let u = last_place(n);
        lemma_double_multiple(n, u);
    } else {
        assert((2 * n) % 1 == 0);
    }
}

/// A number of 24 significant bits has no more when it is scaled by a power of two.
pub proof fn lemma_single_shifted(n: nat, k: nat)
    requires
        is_single(n),
    ensures
        is_single((n * vstd::arithmetic::power2::pow2(k)) as nat),
    decreases k,
{
    vstd::arithmetic::power2::lemma_pow2(k);
    if k == 0 {
        vstd::arithmetic::power2::lemma2_to64();
        assert(n * 1 == n);
    } else {
        lemma_single_shifted(n, (k - 1) as nat);
        vstd::arithmetic::power2::lemma_pow2_unfold(k);
        let p = vstd::arithmetic::power2::pow2((k - 1) as nat);
        assert(2 * (n * p) == n * (2 * p)) by (nonlinear_arith);
        lemma_single_doubled((n * p) as nat);
    }
}

/// Half of the largest number with this last place, times two.
proof fn lemma_last_place_below(r: nat, x: nat)
    requires
        r < last_place(x) * TOP,
    ensures
        last_place(x) % last_place(r) == 0,
    decreases x, r,
{
    lemma_last_place(x);
    lemma_last_place(r);
    if r <= x {
        lemma_last_place_divides(r, x);
    } else if r < TOP {
        assert(last_place(x) % 1 == 0);
    } else {
        // Both have the same last place.
        if x < TOP {
            assert(false);
        } else {
            assert(r / 2 < last_place(x / 2) * TOP);
            lemma_last_place_below(r / 2, x / 2);
            let a = last_place(x / 2);
            let b = last_place(r / 2);
            lemma_last_place(r / 2);
            lemma_double_multiple(a, b);
        }
    }
}

/// What has been rounded is kept by rounding.
pub proof fn lemma_rounded_is_single(n: nat)
    ensures
        is_single(rounded(n)),
{
    reveal(rounded);
    let u = last_place(n);
    lemma_last_place(n);
    lemma_nearest(n, u);
    let r = rounded(n);
    lemma_last_place(r);
    if r < u * TOP {
        lemma_last_place_below(r, n);
        lemma_multiple(r, u, last_place(r));
    } else {
        // Rounded up to the next power of two.
        let q = n / u;
        assert(q < TOP) by (nonlinear_arith)
            requires
                n < u * 0x100_0000,
                q == n / u,
                u >= 1,
                TOP == 0x100_0000,
        ;
        assert(r <= (q + 1) * u) by (nonlinear_arith)
            requires
                r == q * u || r == (q + 1) * u,
                u >= 1,
        ;
        assert((q + 1) * u <= TOP * u) by (nonlinear_arith)
            requires
                q < TOP,
        ;
        assert(r == u * TOP) by (nonlinear_arith)
            requires
                r >= u * TOP,
                r <= TOP * u,
        ;
        lemma_power_single(n);
    }
}

/// One more than the largest number with this last place has few significant bits.
proof fn lemma_power_single(n: nat)
    ensures
        is_single((last_place(n) * TOP) as nat),
    decreases n,
{
    lemma_last_place(n);
    if n >= TOP {
        lemma_power_single(n / 2);
        lemma_single_doubled((last_place(n / 2) * TOP) as nat);
        assert(2 * (last_place(n / 2) * TOP) == last_place(n) * TOP);
    } else {
        assert(last_place(0x80_0000) == 1);
        assert(last_place(0x100_0000) == 2);
        assert(0x100_0000nat % 2 == 0);
    }
}

/// Rounding keeps what has no more than 24 significant bits.
pub proof fn lemma_single_kept(n: nat)
    requires
        is_single(n),
    ensures
        rounded(n) == n,
{
    reveal(rounded);
    lemma_last_place(n);
    vstd::arithmetic::div_mod::lemma_fundamental_div_mod(n as int, last_place(n) as int);
    let u = last_place(n);
    let q = n / u;
    assert(q * u == u * q) by (nonlinear_arith);
}

/// Rounding keeps the order of numbers.
pub proof fn lemma_rounded_monotone(n: nat, m: nat)
    requires
        n <= m,
    ensures
        rounded(n) <= rounded(m),
{
    lemma_rounded_is_single(m);
    if n <= rounded(m) {
        lemma_rounded_at_most(n, rounded(m));
    } else {
        // `m` is rounded down past `n`, so both lie between the same two neighbours.
        reveal(rounded);
        let u = last_place(m);
        lemma_last_place(m);
        lemma_last_place(n);
        let q = m / u;
        vstd::arithmetic::div_mod::lemma_fundamental_div_mod(m as int, u as int);
        assert(q * u == u * q) by (nonlinear_arith);
        assert((q + 1) * u == q * u + u) by (nonlinear_arith);
        assert(rounded(m) == q * u);
        // `n` lies in the same step of `m`'s grid.
        assert(n > q * u);
        lemma_same_step(n, m);
    }
}

proof fn lemma_same_step(n: nat, m: nat)
    requires
        n <= m,
        (m / last_place(m)) * last_place(m) < n,
        2 * (m % last_place(m)) < last_place(m) || (2 * (m % last_place(m)) == last_place(m) && (m
            / last_place(m)) % 2 == 0),
    ensures
        rounded(n) <= rounded(m),
{
    reveal(rounded);
    let u = last_place(m);
    let v = last_place(n);
    lemma_last_place(m);
    lemma_last_place(n);
    lemma_last_place_divides(n, m);
    let q = m / u;
    vstd::arithmetic::div_mod::lemma_fundamental_div_mod(m as int, u as int);
    assert(u * q == q * u) by (nonlinear_arith);
    if u == v {
        assert(n / u == q && n % u == n - q * u) by {
            vstd::arithmetic::div_mod::lemma_fundamental_div_mod_converse(
                n as int,
                u as int,
                q as int,
                n - q * u,
            );
        }
    } else {
        // A smaller last place: `n` is below the power of two where `m`'s step begins.
        lemma_smaller_place(n, m);
        assert(false);
    }
}

/// Where the last places differ, a multiple of the larger one lies between the numbers, and the smaller
/// number is below it.
proof fn lemma_smaller_place(n: nat, m: nat)
    requires
        n <= m,
        last_place(n) != last_place(m),
    ensures
        n < (m / last_place(m)) * last_place(m) || n == 0,
    decreases m,
{
    lemma_last_place(m);
    lemma_last_place(n);
    if n < TOP {
        lemma_step_at_least(m);
    } else {
        lemma_smaller_place(n / 2, m / 2);
        let u = last_place(m / 2);
        let q = (m / 2) / u;
        lemma_last_place(m / 2);
        assert(m / (2 * u) == q) by {
            vstd::arithmetic::div_mod::lemma_div_denominator(m as int, 2, u as int);
        }
        assert(q * (2 * u) == 2 * (q * u)) by (nonlinear_arith);
    }
}

proof fn lemma_step_at_least(m: nat)
    requires
        m >= TOP,
    ensures
        (m / last_place(m)) * last_place(m) >= TOP,
    decreases m,
{
    let u = last_place(m / 2);
    lemma_last_place(m / 2);
    assert(m / (2 * u) == (m / 2) / u) by {
        vstd::arithmetic::div_mod::lemma_div_denominator(m as int, 2, u as int);
    }
    let q = (m / 2) / u;
    assert(q * (2 * u) == 2 * (q * u)) by (nonlinear_arith);
    assert(last_place(m) == 2 * u);
    if m / 2 >= TOP {
        lemma_step_at_least(m / 2);
    } else {
        assert(q == m / 2) by {
            assert(u == 1);
            vstd::arithmetic::div_mod::lemma_div_basics((m / 2) as int);
        }
        assert(q * u == q) by (nonlinear_arith)
            requires
                u == 1,
        ;
    }
}

/// Scaling a side to `c` pixels gives `c` pixels, or just below: single precision errs by less than a hundredth.
pub proof fn lemma_scaled_to(c: nat, side: nat)
    requires
        1 <= c < 0x1_0000,
        0 < side <= u32::MAX,
    ensures
        100 * (c * RATIO_ONE) - RATIO_ONE < 100 * product(side, ratio(c, side)),
        100 * product(side, ratio(c, side)) < 100 * (c * RATIO_ONE) + RATIO_ONE,
{
    let one = 0x400_0000_0000_0000nat;
    let y = rounded(side);
    lemma_rounded_bound(side);
    lemma_rounded_positive(side);
    lemma_rounded_small(c);
    assert(y <= 0x2_0000_0000);
    let n = (c * (one / 2)) as nat;
    let (k, rest) = (n / y, n % y);
    assert(k * y + rest == n && 0 <= rest < y) by (nonlinear_arith)
        requires
            y > 0,
            k == n / y,
            rest == n % y,
    ;
    let q = sticky_quotient(n, y);
    assert((2 * k) * y == 2 * (k * y) && (2 * k + 1) * y == 2 * (k * y) + y) by (nonlinear_arith);
    assert(2 * n - y <= q * y <= 2 * n + y);
    let s = rounded(q);
    lemma_rounded_bound(q);
    let z = y * s;
    assert((z - q * y) * 0x100_0000 <= q * y && (q * y - z) * 0x100_0000 <= q * y) by (nonlinear_arith)
        requires
            (s - q) * 0x100_0000 <= q,
            (q - s) * 0x100_0000 <= q,
            z == y * s,
            y > 0,
    ;
    lemma_rounded_bound(z as nat);
}

} // verus!
