//! Double precision, in whole numbers: ratios of machine integers as IEEE double precision rounds
//! them (to 53 significant bits, to the nearest, ties to even), and how they are written in
//! decimal.

use crate::numeral::{decimal, digit_char, push_decimal};
use crate::single::{nearest_multiple, sticky_quotient};
use vstd::prelude::*;

verus! {

/// One more than the largest number of 53 bits.
pub const TOP: u128 = 0x20_0000_0000_0000;

/// The unit in which ratios are measured: one 2^87th.
pub const ONE: u128 = 0x80_0000_0000_0000_0000_0000;

/// The weight of the last of the 53 significant bits of `n`.
pub open spec fn last_place(n: nat) -> nat
    decreases n,
{
    if n < TOP {
        1
    } else {
        2 * last_place(n / 2)
    }
}

/// `n` rounded to 53 significant bits.
#[verifier::opaque]
pub open spec fn rounded(n: nat) -> nat {
    nearest_multiple(n, last_place(n))
}

/// The last place is at least one and no more than `n / 2^52`.
pub proof fn lemma_last_place(n: nat)
    ensures
        1 <= last_place(n),
        n >= TOP ==> last_place(n) * 0x10_0000_0000_0000 <= n,
        n < last_place(n) * 0x20_0000_0000_0000,
    decreases n,
{
    if n >= TOP {
        lemma_last_place(n / 2);
    }
}

/// Rounding moves a number by at most one part in 2^53.
pub proof fn lemma_rounded_bound(n: nat)
    ensures
        (rounded(n) - n) * 0x20_0000_0000_0000 <= n,
        (n - rounded(n)) * 0x20_0000_0000_0000 <= n,
{
    reveal(rounded);
    lemma_last_place(n);
    crate::single::lemma_nearest(n, last_place(n));
}

/// `n` rounded to 53 significant bits.
fn round(n: u128) -> (r: u128)
    requires
        n <= u128::MAX / 2,
    ensures
        r == rounded(n as nat),
        (r - n) * 0x20_0000_0000_0000 <= n,
        (n - r) * 0x20_0000_0000_0000 <= n,
{
    let mut unit: u128 = 1;
    let mut m: u128 = n;
    while m >= TOP
        invariant
            m <= n,
            unit >= 1,
            unit * m <= n,
            n <= u128::MAX / 2,
            last_place(n as nat) == unit * last_place(m as nat),
        decreases m,
    {
        assert(unit * 2 <= unit * m) by (nonlinear_arith)
            requires
                m >= 2,
        ;
        assert((unit * 2) * (m / 2) <= unit * m) by (nonlinear_arith)
            requires
                unit >= 1,
        ;
        assert(unit * (2 * last_place((m / 2) as nat)) == (unit * 2) * last_place((m / 2) as nat))
            by (nonlinear_arith);
        unit = unit * 2;
        m = m / 2;
    }
    assert(last_place(n as nat) == unit) by (nonlinear_arith)
        requires
            last_place(n as nat) == unit * last_place(m as nat),
            last_place(m as nat) == 1,
    ;
    proof {
        reveal(rounded);
        lemma_rounded_bound(n as nat);
        lemma_last_place(n as nat);
    }
    crate::single::to_multiple(n, unit)
}

/// `n / d` in double precision, as a multiple of one 2^87th.
pub open spec fn ratio(n: nat, d: nat) -> nat {
    rounded(sticky_quotient((n * (ONE as nat / 2)) as nat, d))
}

/// `n / d` in double precision.
pub fn divide(n: u32, d: u32) -> (r: u128)
    requires
        d > 0,
    ensures
        r == ratio(n as nat, d as nat),
        r <= 0x2_0000_0000u128 * ONE,
        n > 0 ==> r >= 0x80_0000_0000_0000,
        n < d ==> r <= ONE,
{
    assert(n * 0x40_0000_0000_0000_0000_0000u128 <= 0xffff_ffffu128
        * 0x40_0000_0000_0000_0000_0000u128) by (nonlinear_arith)
        requires
            n <= 0xffff_ffff,
    ;
    let a: u128 = n as u128 * (ONE / 2);
    let b: u128 = d as u128;
    assert(a / b <= a) by (nonlinear_arith)
        requires
            b >= 1,
    ;
    proof {
        if n > 0 {
            assert(a / b >= 0x40_0000_0040_0000) by (nonlinear_arith)
                requires
                    a >= 0x40_0000_0000_0000_0000_0000,
                    1 <= b <= 0xffff_ffff,
            ;
        }
        if n < d {
            assert(a / b <= 0x3f_ffff_ffc0_0000_0000_0000) by (nonlinear_arith)
                requires
                    a == n * 0x40_0000_0000_0000_0000_0000u128,
                    b == d,
                    n < d,
                    1 <= b <= 0xffff_ffff,
            ;
        }
    }
    let q: u128 = 2 * (a / b) + if a % b == 0 {
        0
    } else {
        1
    };
    round(q)
}

/// The whole number nearest to `x / unit`, the even one of two equally near.
pub open spec fn half_even(x: nat, unit: nat) -> nat {
    nearest_multiple(x, unit) / unit
}

/// A ratio in tenths, rounded to the nearest, ties to even.
pub open spec fn tenths(x: nat) -> nat {
    half_even((x * 10) as nat, ONE as nat)
}

/// A ratio as a whole number, rounded to the nearest, ties to even.
pub open spec fn wholes(x: nat) -> nat {
    half_even(x, ONE as nat)
}

fn nearest(x: u128) -> (r: u128)
    requires
        x <= u128::MAX / 2,
    ensures
        r == half_even(x as nat, ONE as nat),
        r <= x / ONE + 1,
{
    let q: u128 = x / ONE;
    let rest: u128 = x % ONE;
    let r: u128 = if rest < ONE - rest || (rest == ONE - rest && q % 2 == 0) {
        q
    } else {
        q + 1
    };
    assert((r * 0x80_0000_0000_0000_0000_0000u128) / 0x80_0000_0000_0000_0000_0000int == r)
        by (nonlinear_arith);
    r
}

/// A number of tenths in decimal; a zero behind the point is left out with the point.
pub open spec fn tenths_text(t: nat) -> Seq<char> {
    if t % 10 == 0 {
        decimal(t / 10)
    } else {
        decimal(t / 10).push('.').push(digit_char(t % 10))
    }
}

/// The ratio `n / d` in decimal, rounded to one place behind the point.
pub open spec fn ratio_text(n: nat, d: nat) -> Seq<char> {
    tenths_text(tenths(ratio(n, d)))
}

/// The ratio `n / d` in decimal, rounded to a whole number.
pub open spec fn whole_text(n: nat, d: nat) -> Seq<char> {
    decimal(wholes(ratio(n, d)))
}

/// Appends the ratio `n / d`, rounded to one place behind the point.
pub fn push_ratio(out: &mut String, n: u32, d: u32)
    requires
        d > 0,
    ensures
        final(out)@ == old(out)@ + ratio_text(n as nat, d as nat),
{
    let ghost before = out@;
    let x: u128 = divide(n, d);
    let t: u128 = nearest(x * 10);
    push_decimal(out, (t / 10) as u64);
    if t % 10 != 0 {
        out.push('.');
        out.push((48u8 + (t % 10) as u8) as char);
    }
    assert(out@ == before + tenths_text(t as nat));
}

/// Appends the ratio `n / d`, rounded to a whole number.
pub fn push_whole(out: &mut String, n: u32, d: u32)
    requires
        d > 0,
    ensures
        final(out)@ == old(out)@ + whole_text(n as nat, d as nat),
{
    let x: u128 = divide(n, d);
    push_decimal(out, nearest(x) as u64);
}

/// One over a ratio below one, in double precision, as a multiple of one 2^55th.
pub open spec fn reciprocal(x: nat) -> nat {
    rounded(sticky_quotient((ONE as nat * 0x40_0000_0000_0000) as nat, x))
}

/// The whole number nearest to a multiple of one 2^55th, the larger of two equally near.
pub open spec fn nearest_55(x: nat) -> nat {
    (x + 0x40_0000_0000_0000) / 0x80_0000_0000_0000
}

/// A quotient can be taken step by step: what one division leaves is divided further.
proof fn lemma_long_division(a: nat, c: nat, x: nat)
    requires
        x > 0,
    ensures
        (a * c) / x == (a / x) * c + ((a % x) * c) / x,
        (a * c) % x == ((a % x) * c) % x,
{
    let q = a / x;
    let r = a % x;
    assert(a == x * q + r) by (nonlinear_arith)
        requires
            x > 0,
            q == a / x,
            r == a % x,
    ;
    assert(a * c == x * (q * c) + r * c) by (nonlinear_arith)
        requires
            a == x * q + r,
    ;
    vstd::arithmetic::div_mod::lemma_hoist_over_denominator((r * c) as int, (q * c) as int, x);
    vstd::arithmetic::div_mod::lemma_mod_multiples_vanish((q * c) as int, (r * c) as int, x as int);
    assert(x * (q * c) == (q * c) * x) by (nonlinear_arith);
}

/// One over `x`, to the nearest whole number.
pub fn whole_reciprocal(x: u128) -> (r: u64)
    requires
        0x80_0000_0000_0000 <= x <= ONE,
    ensures
        r == nearest_55(reciprocal(x as nat)),
{
    let q0: u128 = ONE / x;
    let r0: u128 = ONE % x;
    let a1: u128 = r0 * 0x100_0000_0000;
    let q1: u128 = a1 / x;
    let r1: u128 = a1 % x;
    let a2: u128 = r1 * 0x4000;
    let q2: u128 = a2 / x;
    let r2: u128 = a2 % x;
    proof {
        let one = ONE as nat;
        lemma_long_division(one, 0x100_0000_0000, x as nat);
        lemma_long_division((one * 0x100_0000_0000) as nat, 0x4000, x as nat);
        assert(q0 <= 0x1_0000_0000) by (nonlinear_arith)
            requires
                q0 == 0x80_0000_0000_0000_0000_0000u128 / x,
                x >= 0x80_0000_0000_0000,
        ;
        assert(q1 < 0x100_0000_0000) by (nonlinear_arith)
            requires
                q1 == (r0 * 0x100_0000_0000u128) / (x as int),
                r0 < x,
                x > 0,
        ;
        assert(q2 < 0x4000) by (nonlinear_arith)
            requires
                q2 == (r1 * 0x4000u128) / (x as int),
                r1 < x,
                x > 0,
        ;
    }
    let q: u128 = (q0 * 0x100_0000_0000 + q1) * 0x4000 + q2;
    let n: u128 = round(
        2 * q + if r2 == 0 {
            0
        } else {
            1
        },
    );
    ((n + 0x40_0000_0000_0000) / 0x80_0000_0000_0000) as u64
}

/// Twice a quotient and its rest are right within one.
proof fn lemma_sticky(n: nat, d: nat)
    requires
        d > 0,
    ensures
        2 * n - d <= sticky_quotient(n, d) * d <= 2 * n + d,
{
    let (k, rest) = (n / d, n % d);
    assert(k * d + rest == n && 0 <= rest < d) by (nonlinear_arith)
        requires
            d > 0,
            k == n / d,
            rest == n % d,
    ;
    assert((2 * k) * d == 2 * (k * d) && (2 * k + 1) * d == 2 * (k * d) + d) by (nonlinear_arith);
}

/// A ratio in double precision is right but for its 53rd bit.
proof fn lemma_ratio_near(n: nat, d: nat)
    requires
        0 < d,
    ensures
        ({
            let e = d + (n * ONE + d) / 0x20_0000_0000_0000 + 1;
            -e <= ratio(n, d) * d - n * ONE <= e
        }),
{
    let q = sticky_quotient((n * (ONE as nat / 2)) as nat, d);
    lemma_sticky((n * (ONE as nat / 2)) as nat, d);
    lemma_rounded_bound(q);
    assert(2 * (n * (ONE as nat / 2)) == n * ONE) by (nonlinear_arith)
        requires
            ONE == 0x80_0000_0000_0000_0000_0000,
    ;
    let r = ratio(n, d);
    let (qd, rd) = (q * d, r * d);
    assert((rd - qd) * 0x20_0000_0000_0000 <= qd && (qd - rd) * 0x20_0000_0000_0000 <= qd) by (nonlinear_arith)
        requires
            (r - q) * 0x20_0000_0000_0000 <= q,
            (q - r) * 0x20_0000_0000_0000 <= q,
            qd == q * d,
            rd == r * d,
            d > 0,
    ;
}

/// The number nearest to a multiple of a unit.
proof fn lemma_half_even(x: nat, unit: nat)
    requires
        unit > 0,
    ensures
        -(unit as int) <= 2 * (half_even(x, unit) * unit - x) <= unit,
{
    crate::single::lemma_nearest(x, unit);
    let m = nearest_multiple(x, unit);
    assert((m / unit) * unit == m) by (nonlinear_arith)
        requires
            m % unit == 0,
            unit > 0,
    ;
}

/// A ratio is written to the nearest tenth: no other number with one place behind the point is nearer.
pub proof fn law_ratio_is_written_to_the_tenth(n: u32, d: u32) -> (t: nat)
    requires
        d > 0,
    ensures
        ratio_text(n as nat, d as nat) == tenths_text(t),
        -(d as int) <= 2 * (t * d - 10 * n) <= d,
{
    let x = ratio(n as nat, d as nat);
    let one = ONE as nat;
    lemma_ratio_near(n as nat, d as nat);
    lemma_half_even((x * 10) as nat, one);
    let t = tenths(x);
    lemma_scaled_error(x, n as int, d as int, t as int, 10, ONE as int);
    t
}

/// A ratio is written to the nearest whole number.
pub proof fn law_ratio_is_written_to_the_whole(n: u32, d: u32) -> (w: nat)
    requires
        d > 0,
    ensures
        whole_text(n as nat, d as nat) == decimal(w),
        -(d as int) <= 2 * (w * d - n) <= d,
{
    let x = ratio(n as nat, d as nat);
    let one = ONE as nat;
    lemma_ratio_near(n as nat, d as nat);
    lemma_half_even(x, one);
    let w = wholes(x);
    lemma_scaled_error(x, n as int, d as int, w as int, 1, ONE as int);
    w
}

/// What is nearest to `c` times a ratio is nearest to it in whole numbers as well: double precision errs by too little
/// to show.
proof fn lemma_scaled_error(x: nat, n: int, d: int, t: int, c: int, one: int)
    requires
        one == ONE,
        0 <= n <= u32::MAX,
        0 < d <= u32::MAX,
        1 <= c <= 10,
        ({
            let e = d + (n * one + d) / 0x20_0000_0000_0000 + 1;
            -e <= x * d - n * one <= e
        }),
        -one <= 2 * (t * one - x * c) <= one,
    ensures
        -d <= 2 * (t * d - c * n) <= d,
{
    let xd = x * d;
    let tod = (t * one) * d;
    let xcd = (x * c) * d;
    assert(-(one * d) <= 2 * (tod - xcd) <= one * d) by (nonlinear_arith)
        requires
            -one <= 2 * (t * one - x * c) <= one,
            tod == (t * one) * d,
            xcd == (x * c) * d,
            d > 0,
    ;
    assert(xcd == c * xd && tod == (t * d) * one) by (nonlinear_arith)
        requires
            xcd == (x * c) * d,
            xd == x * d,
            tod == (t * one) * d,
    ;
    let no = n * one;
    assert(c * no == (c * n) * one) by (nonlinear_arith)
        requires
            no == n * one,
    ;
    assert(0 <= no <= 0xffff_ffff * one) by (nonlinear_arith)
        requires
            no == n * one,
            0 <= n <= 0xffff_ffff,
            one > 0,
    ;
    let e = d + (no + d) / 0x20_0000_0000_0000 + 1;
    assert(100 * e < one);
    let td = t * d;
    let cn = c * n;
    let err = c * (xd - no);
    assert(-(10 * e) <= err <= 10 * e) by (nonlinear_arith)
        requires
            err == c * (xd - no),
            -e <= xd - no <= e,
            1 <= c <= 10,
    ;
    assert(c * xd == err + c * no) by (nonlinear_arith)
        requires
            err == c * (xd - no),
    ;
    let m = 2 * (td - cn);
    assert(m * one == 2 * (td * one) - 2 * (cn * one)) by (nonlinear_arith)
        requires
            m == 2 * (td - cn),
    ;
    assert(-(one * d) - one < m * one < one * d + one);
    assert(-d <= m <= d) by (nonlinear_arith)
        requires
            -(one * d) - one < m * one < one * d + one,
            one > 0,
    ;
}

/// The reciprocal of a fraction, rounded to a whole number, times the fraction is one, within half the fraction.
proof fn lemma_reciprocal_near(x: int, k: int, one: int)
    requires
        one == ONE,
        0 < x <= one,
        k == nearest_55(reciprocal(x as nat)),
    ensures
        -(x + 0x10_0000_0000) <= 2 * (k * x - one) <= x + 0x10_0000_0000,
        k >= 0,
{
    let b = 0x80_0000_0000_0000int;
    let a0 = (one * 0x40_0000_0000_0000) as nat;
    let q = sticky_quotient(a0, x as nat) as int;
    lemma_sticky(a0, x as nat);
    lemma_rounded_bound(q as nat);
    let r = reciprocal(x as nat) as int;
    let (qx, rx) = (q * x, r * x);
    assert((rx - qx) * 0x20_0000_0000_0000 <= qx && (qx - rx) * 0x20_0000_0000_0000 <= qx) by (nonlinear_arith)
        requires
            (r - q) * 0x20_0000_0000_0000 <= q,
            (q - r) * 0x20_0000_0000_0000 <= q,
            qx == q * x,
            rx == r * x,
            x > 0,
    ;
    let kx = k * x;
    let kb = k * b;
    assert(kb <= r + b / 2 && r + b / 2 < kb + b);
    let kbx = kb * x;
    assert(-(b * x) <= 2 * (kbx - rx) <= b * x) by (nonlinear_arith)
        requires
            -b <= 2 * (kb - r) <= b,
            kbx == kb * x,
            rx == r * x,
            x > 0,
    ;
    assert(kbx == b * kx) by (nonlinear_arith)
        requires
            kbx == kb * x,
            kb == k * b,
            kx == k * x,
    ;
    let ob = one * b;
    assert(-x <= qx - ob <= x);
    assert(0x20_0000_0000_0000 * (rx - qx) <= ob + x && 0x20_0000_0000_0000 * (qx - rx) <= ob + x);
    let bx = b * x;
    assert(2 * (b * kx - ob) <= bx + 2 * x + 2 * ((ob + x) / 0x20_0000_0000_0000 + 1));
    assert(2 * (ob - b * kx) <= bx + 2 * x + 2 * ((ob + x) / 0x20_0000_0000_0000 + 1));
    assert(2 * x + 2 * ((ob + x) / 0x20_0000_0000_0000 + 1) <= b * 0x10_0000_0000);
    let m = 2 * (kx - one);
    assert(b * m == 2 * (b * kx - ob)) by (nonlinear_arith)
        requires
            m == 2 * (kx - one),
            ob == one * b,
    ;
    assert(-(x + 0x10_0000_0000) <= m <= x + 0x10_0000_0000) by (nonlinear_arith)
        requires
            b * m <= bx + b * 0x10_0000_0000,
            -(b * m) <= bx + b * 0x10_0000_0000,
            bx == b * x,
            b > 0,
    ;
}

/// A fraction of a second is written with the whole number below one that is nearest to it: of all `1/k` with whole `k`,
/// `k` times the fraction is nearest to one.
pub proof fn law_fraction_is_written_below_one(n: u32, d: u32) -> (k: nat)
    requires
        0 < n < d,
    ensures
        k == nearest_55(reciprocal(ratio(n as nat, d as nat))),
        -(n as int) <= 2 * (k * n - d) <= n,
{
    let one = 0x80_0000_0000_0000_0000_0000int;
    let x = ratio(n as nat, d as nat) as int;
    let k = nearest_55(reciprocal(x as nat)) as int;
    lemma_ratio_near(n as nat, d as nat);
    let (dd, nn) = (d as int, n as int);
    let no = nn * one;
    let xd = x * dd;
    let e = dd + (no + dd) / 0x20_0000_0000_0000 + 1;
    assert(-e <= xd - no <= e);
    assert(one <= no <= 0xffff_ffff * one) by (nonlinear_arith)
        requires
            no == nn * one,
            1 <= nn <= 0xffff_ffff,
            one > 0,
    ;
    assert(e < one / 0x100);
    assert(0 < x < one) by (nonlinear_arith)
        requires
            xd == x * dd,
            -e <= xd - no <= e,
            no == nn * one,
            nn + 1 <= dd,
            one <= no,
            e < one / 0x100,
            one == 0x80_0000_0000_0000_0000_0000,
            dd > 0,
    ;
    lemma_reciprocal_near(x, k, one);
    let s1 = 0x10_0000_0000int;
    let kx = k * x;
    let kxd = k * xd;
    assert(kxd == kx * dd) by (nonlinear_arith)
        requires
            kxd == k * xd,
            xd == x * dd,
            kx == k * x,
    ;
    let od = one * dd;
    assert(-(xd + s1 * dd) <= 2 * (kxd - od) <= xd + s1 * dd) by (nonlinear_arith)
        requires
            -(x + s1) <= 2 * (kx - one) <= x + s1,
            kxd == kx * dd,
            od == one * dd,
            xd == x * dd,
            dd > 0,
    ;
    let kno = k * no;
    // The reciprocal is no more than four times the fraction turned over.
    assert(kx <= 2 * one);
    assert(kxd <= 2 * od) by (nonlinear_arith)
        requires
            kx <= 2 * one,
            kxd == kx * dd,
            od == one * dd,
            dd > 0,
    ;
    assert(kno <= 4 * od) by (nonlinear_arith)
        requires
            kno == k * no,
            kxd == k * xd,
            kxd <= 2 * od,
            no <= 2 * xd,
            k >= 0,
    ;
    assert(k <= 4 * dd) by (nonlinear_arith)
        requires
            kno == k * no,
            kno <= 4 * od,
            od == one * dd,
            one <= no,
            k >= 0,
            one > 0,
            dd > 0,
    ;
    let ke = k * e;
    let part = (no + dd) / 0x20_0000_0000_0000;
    assert(0x20_0000_0000_0000 * (k * part) <= kno + k * dd) by (nonlinear_arith)
        requires
            0x20_0000_0000_0000 * part <= no + dd,
            kno == k * no,
            k >= 0,
    ;
    assert(ke == k * dd + k * part + k) by (nonlinear_arith)
        requires
            ke == k * e,
            e == dd + part + 1,
    ;
    assert(0 <= k * dd <= 4 * 0xffff_ffff * 0xffff_ffff) by (nonlinear_arith)
        requires
            0 <= k <= 4 * dd,
            0 < dd <= 0xffff_ffff,
    ;
    assert(od <= 0xffff_ffff * one) by (nonlinear_arith)
        requires
            od == one * dd,
            dd <= 0xffff_ffff,
            one > 0,
    ;
    assert(ke < one / 0x100);
    let err = kxd - kno;
    assert(-ke <= err <= ke) by (nonlinear_arith)
        requires
            err == kxd - kno,
            kxd == k * xd,
            kno == k * no,
            ke == k * e,
            -e <= xd - no <= e,
            k >= 0,
    ;
    let m = 2 * (k * nn - dd);
    assert(m * one == 2 * (kno - od)) by (nonlinear_arith)
        requires
            m == 2 * (k * nn - dd),
            kno == k * no,
            no == nn * one,
            od == one * dd,
    ;
    assert(s1 * dd <= one / 0x100) by (nonlinear_arith)
        requires
            dd <= 0xffff_ffff,
            s1 == 0x10_0000_0000,
            one == 0x80_0000_0000_0000_0000_0000,
    ;
    assert(-(no + one) < m * one < no + one);
    assert(-nn <= m <= nn) by (nonlinear_arith)
        requires
            -(no + one) < m * one < no + one,
            no == nn * one,
            one > 0,
    ;
    k as nat
}

} // verus!
