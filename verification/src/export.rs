//! Export sizes for common destinations, how a crop maps onto them, and where exports are saved.

use crate::numeral::{decimal, push_decimal};
use crate::preset::opt_view;
use crate::single::{
    divide, lemma_rounded_at_most, lemma_rounded_is_single, lemma_single_shifted, multiply,
    nearest_whole, product, ratio, rounded, to_nearest, RATIO_ONE, TOP,
};
use crate::text::{
    ascii_lower, ascii_lower_char, chars_of, contains_text, lower_char, text_eq, views,
};
use crate::unicode::{lowercase, lowercase_of, uppercase, uppercase_of};
use vstd::prelude::*;

verus! {

#[derive(Clone, Copy, PartialEq, Eq, Debug, Structural)]
pub enum Size {
    /// Full resolution of the (cropped) photo.
    Original,
    /// A fixed canvas, e.g. Instagram portrait 1080x1350.
    Exact(u32, u32),
    /// Longest edge at most this many pixels.
    LongEdge(u32),
}

#[derive(Clone, Copy, Debug)]
pub struct SizePreset {
    pub label: &'static str,
    /// Short tag for file names and the command line.
    pub slug: &'static str,
    pub size: Size,
}

/// The place of the custom long-edge size; its value comes from the UI.
pub const CUSTOM: usize = 9;

/// The sizes on offer: label, slug and size.
pub open spec fn size_table() -> Seq<(Seq<char>, Seq<char>, Size)> {
    seq![
        ("Original size"@, "original"@, Size::Original),
        ("Instagram · Portrait 4:5 (1080×1350)"@, "instagram-portrait"@, Size::Exact(1080, 1350)),
        ("Instagram · Square (1080×1080)"@, "instagram-square"@, Size::Exact(1080, 1080)),
        ("Instagram · Landscape (1080×566)"@, "instagram-landscape"@, Size::Exact(1080, 566)),
        (
            "Instagram · Story / Reel 9:16 (1080×1920)"@,
            "instagram-story"@,
            Size::Exact(1080, 1920),
        ),
        ("X · Post 16:9 (1600×900)"@, "x-post"@, Size::Exact(1600, 900)),
        ("X · Large (up to 4096 px)"@, "x-large"@, Size::LongEdge(4096)),
        ("Facebook (up to 2048 px)"@, "facebook"@, Size::LongEdge(2048)),
        ("Web (up to 1920 px)"@, "web"@, Size::LongEdge(1920)),
        ("Custom long edge…"@, "custom"@, Size::LongEdge(0)),
    ]
}

/// A list of sizes as views.
pub open spec fn sizes_view(s: Seq<SizePreset>) -> Seq<(Seq<char>, Seq<char>, Size)> {
    s.map_values(|p: SizePreset| (p.label@, p.slug@, p.size))
}

/// The sizes on offer. The last entry is the custom long-edge size.
pub fn sizes() -> (r: [SizePreset; 10])
    ensures
        sizes_view(r@) == size_table(),
{
    let r = [
        SizePreset { label: "Original size", slug: "original", size: Size::Original },
        SizePreset {
            label: "Instagram · Portrait 4:5 (1080×1350)",
            slug: "instagram-portrait",
            size: Size::Exact(1080, 1350),
        },
        SizePreset {
            label: "Instagram · Square (1080×1080)",
            slug: "instagram-square",
            size: Size::Exact(1080, 1080),
        },
        SizePreset {
            label: "Instagram · Landscape (1080×566)",
            slug: "instagram-landscape",
            size: Size::Exact(1080, 566),
        },
        SizePreset {
            label: "Instagram · Story / Reel 9:16 (1080×1920)",
            slug: "instagram-story",
            size: Size::Exact(1080, 1920),
        },
        SizePreset {
            label: "X · Post 16:9 (1600×900)",
            slug: "x-post",
            size: Size::Exact(1600, 900),
        },
        SizePreset {
            label: "X · Large (up to 4096 px)",
            slug: "x-large",
            size: Size::LongEdge(4096),
        },
        SizePreset {
            label: "Facebook (up to 2048 px)",
            slug: "facebook",
            size: Size::LongEdge(2048),
        },
        SizePreset { label: "Web (up to 1920 px)", slug: "web", size: Size::LongEdge(1920) },
        SizePreset { label: "Custom long edge…", slug: "custom", size: Size::LongEdge(0) },
    ];
    assert(sizes_view(r@) =~= size_table());
    r
}

/// The two texts are equal but for the case of ASCII letters.
pub open spec fn same_but_case(a: Seq<char>, b: Seq<char>) -> bool {
    ascii_lower(a) == ascii_lower(b)
}

/// Whether two texts are equal but for the case of ASCII letters.
pub fn eq_ignore_case(a: &str, b: &str) -> (r: bool)
    ensures
        r == same_but_case(a@, b@),
{
    let x = chars_of(a);
    let y = chars_of(b);
    if x.len() != y.len() {
        assert(ascii_lower(a@).len() != ascii_lower(b@).len());
        return false;
    }
    let mut i: usize = 0;
    while i < x.len()
        invariant
            x@ == a@,
            y@ == b@,
            x@.len() == y@.len(),
            i <= x@.len(),
            forall|k: int| 0 <= k < i ==> ascii_lower_char(x@[k]) == ascii_lower_char(y@[k]),
        decreases x.len() - i,
    {
        if lower_char(x[i]) != lower_char(y[i]) {
            assert(ascii_lower(a@)[i as int] != ascii_lower(b@)[i as int]);
            return false;
        }
        i = i + 1;
    }
    assert(ascii_lower(a@) =~= ascii_lower(b@));
    true
}

/// The first size from place `i` on with this slug, in any case; the custom one cannot be named.
pub open spec fn size_named(slug: Seq<char>, i: int) -> Option<Size>
    decreases size_table().len() - i,
{
    if i < 0 || i >= size_table().len() {
        None
    } else if same_but_case(size_table()[i].1, slug) && size_table()[i].1 != "custom"@ {
        Some(size_table()[i].2)
    } else {
        size_named(slug, i + 1)
    }
}

/// The size with this slug.
pub fn find(slug: &str) -> (r: Option<Size>)
    ensures
        r == size_named(slug@, 0),
{
    let all = sizes();
    let mut i: usize = 0;
    while i < all.len()
        invariant
            i <= all@.len(),
            all@.len() == size_table().len(),
            sizes_view(all@) == size_table(),
            size_named(slug@, 0) == size_named(slug@, i as int),
        decreases all.len() - i,
    {
        let p = all[i];
        assert(sizes_view(all@)[i as int] == (p.label@, p.slug@, p.size));
        if eq_ignore_case(p.slug, slug) && !text_eq(p.slug, "custom") {
            return Some(p.size);
        }
        i = i + 1;
    }
    None
}

// ---------------------------------------------------------------------------------------------
// Sizes
// ---------------------------------------------------------------------------------------------

/// A scale that never enlarges.
pub open spec fn capped(s: nat) -> nat {
    if s <= RATIO_ONE {
        s
    } else {
        RATIO_ONE as nat
    }
}

/// One side scaled by `s` (a multiple of one 2^58th) in single precision, to the nearest pixel; never
/// enlarged, and at least one pixel.
pub open spec fn scaled_side(side: nat, s: nat) -> nat {
    let n = nearest_whole(product(side, capped(s)));
    if n >= 1 {
        n
    } else {
        1
    }
}

fn scale_side(side: u32, s: u128) -> (r: u32)
    requires
        s <= RATIO_ONE,
    ensures
        r == scaled_side(side as nat, s as nat),
{
    let n: u32 = to_nearest(multiply(side, s));
    if n >= 1 {
        n
    } else {
        1
    }
}

/// A size scaled by `s`, never enlarged.
pub fn scaled(size: (u32, u32), s: u128) -> (r: (u32, u32))
    ensures
        r.0 == scaled_side(size.0 as nat, s as nat),
        r.1 == scaled_side(size.1 as nat, s as nat),
{
    let t: u128 = if s <= RATIO_ONE {
        s
    } else {
        RATIO_ONE
    };
    (scale_side(size.0, t), scale_side(size.1, t))
}

/// The longer of two sides.
pub open spec fn long_side(size: (u32, u32)) -> nat {
    if size.0 >= size.1 {
        size.0 as nat
    } else {
        size.1 as nat
    }
}

/// The smaller of two scales.
pub open spec fn smaller(a: nat, b: nat) -> nat {
    if a <= b {
        a
    } else {
        b
    }
}

/// The size scaled so that its longer side has at most `max` pixels; never enlarged.
pub fn fit(size: (u32, u32), max: u32) -> (r: (u32, u32))
    requires
        size.0 > 0 || size.1 > 0,
    ensures
        output_size(r, size, ratio(max as nat, long_side(size))),
{
    let longer: u32 = if size.0 >= size.1 {
        size.0
    } else {
        size.1
    };
    scaled(size, divide(max, longer))
}

/// What to render: whether the crop is trimmed to the canvas, its full-resolution size, and the final
/// (resized) size.
#[derive(Clone, Copy, PartialEq, Eq, Debug)]
pub struct Plan {
    pub trimmed: bool,
    pub render: (u32, u32),
    pub output: (u32, u32),
}

/// The final size of a photo of `px` pixels scaled by `s`.
pub open spec fn output_size(o: (u32, u32), px: (u32, u32), s: nat) -> bool {
    o.0 == scaled_side(px.0 as nat, s) && o.1 == scaled_side(px.1 as nat, s)
}

/// The plan for exporting a crop of `px` pixels, of which the canvas' aspect ratio leaves
/// `trimmed_px`.
pub open spec fn plans(
    p: Plan,
    size: Size,
    px: (u32, u32),
    trimmed_px: (u32, u32),
    fill: bool,
) -> bool {
    match size {
        Size::Original => p == (Plan { trimmed: false, render: px, output: px }),
        Size::LongEdge(n) => if n == 0 {
            p == (Plan { trimmed: false, render: px, output: px })
        } else {
            !p.trimmed && p.render == px && output_size(p.output, px, ratio(n as nat, long_side(px)))
        },
        Size::Exact(w, h) => if fill {
            &&& p.trimmed
            &&& p.render == trimmed_px
            // Exact target when the photo is big enough; otherwise same aspect at native size.
            &&& if trimmed_px.0 >= w && trimmed_px.1 >= h {
                p.output == (w, h)
            } else {
                output_size(p.output, trimmed_px, RATIO_ONE as nat)
            }
        } else {
            &&& !p.trimmed
            &&& p.render == px
            &&& output_size(
                p.output,
                px,
                smaller(ratio(w as nat, px.0 as nat), ratio(h as nat, px.1 as nat)),
            )
        },
    }
}

/// Plans an export of a crop of `px` pixels. With `fill`, fixed-size formats trim the crop to their
/// aspect ratio, which leaves `trimmed_px`; otherwise the photo is fitted inside them.
pub fn plan(size: Size, px: (u32, u32), trimmed_px: (u32, u32), fill: bool) -> (r: Plan)
    requires
        px.0 > 0,
        px.1 > 0,
    ensures
        plans(r, size, px, trimmed_px, fill),
{
    match size {
        Size::Original => Plan { trimmed: false, render: px, output: px },
        Size::LongEdge(n) => {
            if n == 0 {
                Plan { trimmed: false, render: px, output: px }
            } else {
                let longer: u32 = if px.0 >= px.1 {
                    px.0
                } else {
                    px.1
                };
                Plan { trimmed: false, render: px, output: scaled(px, divide(n, longer)) }
            }
        },
        Size::Exact(w, h) => {
            if fill {
                let output = if trimmed_px.0 >= w && trimmed_px.1 >= h {
                    (w, h)
                } else {
                    scaled(trimmed_px, RATIO_ONE)
                };
                Plan { trimmed: true, render: trimmed_px, output }
            } else {
                let across: u128 = divide(w, px.0);
                let down: u128 = divide(h, px.1);
                let s: u128 = if across <= down {
                    across
                } else {
                    down
                };
                Plan { trimmed: false, render: px, output: scaled(px, s) }
            }
        },
    }
}

/// Scaling a side never enlarges it, and leaves at least a pixel. (Sides beyond 24 bits that single
/// precision rounds up are the exception.)
pub proof fn law_scaling_never_enlarges(side: nat, s: nat)
    requires
        side >= 1,
        rounded(side) <= side,
    ensures
        1 <= scaled_side(side, s) <= side,
{
    let t = rounded(side);
    lemma_rounded_is_single(side);
    vstd::arithmetic::power2::lemma2_to64();
    vstd::arithmetic::power2::lemma2_to64_rest();
    lemma_single_shifted(t, 58);
    let whole = (t * RATIO_ONE) as nat;
    assert(whole == (t * vstd::arithmetic::power2::pow2(58)) as nat);
    assert(t * capped(s) <= whole) by (nonlinear_arith)
        requires
            capped(s) <= RATIO_ONE,
            whole == t * RATIO_ONE,
    ;
    lemma_rounded_at_most((t * capped(s)) as nat, whole);
    let x = product(side, capped(s));
    assert(x <= whole);
    assert((x + RATIO_ONE / 2) as nat / RATIO_ONE as nat <= t) by (nonlinear_arith)
        requires
            x <= t * RATIO_ONE,
            RATIO_ONE == 0x400_0000_0000_0000,
    ;
}

/// Sides of up to 24 bits are never enlarged.
pub proof fn law_ordinary_sides_never_enlarge(side: nat, s: nat)
    requires
        1 <= side < TOP,
    ensures
        1 <= scaled_side(side, s) <= side,
{
    crate::single::lemma_rounded_small(side);
    law_scaling_never_enlarges(side, s);
}

/// A photo that already fits keeps its size: scaling by one or more changes nothing.
pub proof fn law_large_enough_scale_keeps(side: nat, s: nat)
    requires
        1 <= side < TOP,
        s >= RATIO_ONE,
    ensures
        scaled_side(side, s) == side,
{
    crate::single::lemma_rounded_small(side);
    lemma_rounded_is_single(side);
    vstd::arithmetic::power2::lemma2_to64();
    vstd::arithmetic::power2::lemma2_to64_rest();
    lemma_single_shifted(side, 58);
    let whole = (side * RATIO_ONE) as nat;
    crate::single::lemma_single_kept(whole);
    assert((whole + RATIO_ONE / 2) as nat / RATIO_ONE as nat == side) by (nonlinear_arith)
        requires
            whole == side * RATIO_ONE,
            RATIO_ONE == 0x400_0000_0000_0000,
    ;
}

/// A side scaled to fit `w` pixels fits them: single precision errs by less than half a pixel.
proof fn lemma_scaled_fits(side: nat, w: nat, s: nat)
    requires
        1 <= side <= u32::MAX,
        1 <= w < 0x20_0000,
        s <= ratio(w, side),
    ensures
        scaled_side(side, s) <= w,
{
    let a = rounded(side);
    crate::single::lemma_rounded_bound(side);
    crate::single::lemma_rounded_positive(side);
    crate::single::lemma_rounded_small(w);
    let n = (w * 0x200_0000_0000_0000) as nat;
    let q = crate::single::sticky_quotient(n, a);
    assert(q * a <= 2 * n + a) by {
        let k = n / a;
        vstd::arithmetic::div_mod::lemma_fundamental_div_mod(n as int, a as int);
        assert(a * k <= n);
        assert(q <= 2 * k + 1);
        assert(q * a <= (2 * k + 1) * a) by (nonlinear_arith)
            requires
                q <= 2 * k + 1,
        ;
        assert((2 * k + 1) * a == 2 * (a * k) + a) by (nonlinear_arith);
    }
    let r = ratio(w, side);
    assert(r == rounded(q));
    crate::single::lemma_rounded_bound(q);
    assert(r * 0x100_0000 <= q * 0x100_0001);
    let t = capped(s);
    assert(t <= r);
    let p = a * t;
    assert(p * 0x100_0000 <= (q * a) * 0x100_0001) by (nonlinear_arith)
        requires
            p == a * t,
            t <= r,
            r * 0x100_0000 <= q * 0x100_0001,
    ;
    let x = product(side, t);
    crate::single::lemma_rounded_bound(p as nat);
    assert(x * 0x100_0000 <= p * 0x100_0001);
    assert(a <= 0x2_0000_0000);
    assert(x < w * RATIO_ONE + RATIO_ONE / 2);
    assert((x + RATIO_ONE / 2) as nat / RATIO_ONE as nat <= w) by (nonlinear_arith)
        requires
            x < w * RATIO_ONE + RATIO_ONE / 2,
            RATIO_ONE == 0x400_0000_0000_0000,
    ;
}

/// A long edge at most this many pixels: neither side of the export is longer.
pub proof fn law_long_edge_is_kept(p: Plan, n: u32, px: (u32, u32), trimmed_px: (u32, u32), fill: bool)
    requires
        1 <= n < 0x20_0000,
        px.0 > 0,
        px.1 > 0,
        plans(p, Size::LongEdge(n), px, trimmed_px, fill),
    ensures
        p.output.0 <= n,
        p.output.1 <= n,
{
    let s = ratio(n as nat, long_side(px));
    if px.0 >= px.1 {
        lemma_scaled_fits(px.0 as nat, n as nat, s);
        lemma_scaled_monotone(px.1 as nat, px.0 as nat, s);
    } else {
        lemma_scaled_fits(px.1 as nat, n as nat, s);
        lemma_scaled_monotone(px.0 as nat, px.1 as nat, s);
    }
}

/// Fitted inside a canvas, the photo is nowhere larger than it.
pub proof fn law_fitted_inside_canvas(
    p: Plan,
    w: u32,
    h: u32,
    px: (u32, u32),
    trimmed_px: (u32, u32),
)
    requires
        1 <= w < 0x20_0000,
        1 <= h < 0x20_0000,
        px.0 > 0,
        px.1 > 0,
        plans(p, Size::Exact(w, h), px, trimmed_px, false),
    ensures
        p.output.0 <= w,
        p.output.1 <= h,
        !p.trimmed,
        p.render == px,
{
    let s = smaller(ratio(w as nat, px.0 as nat), ratio(h as nat, px.1 as nat));
    lemma_scaled_fits(px.0 as nat, w as nat, s);
    lemma_scaled_fits(px.1 as nat, h as nat, s);
}

/// A power of two is a number that rounding keeps.
proof fn lemma_one_is_kept()
    ensures
        crate::single::is_single(RATIO_ONE as nat),
        rounded(RATIO_ONE as nat) == RATIO_ONE,
{
    crate::single::lemma_rounded_small(1);
    lemma_rounded_is_single(1);
    vstd::arithmetic::power2::lemma2_to64();
    vstd::arithmetic::power2::lemma2_to64_rest();
    lemma_single_shifted(1, 58);
    assert((1 * vstd::arithmetic::power2::pow2(58)) as nat == RATIO_ONE);
    crate::single::lemma_single_kept(RATIO_ONE as nat);
}

/// A side that is no shorter than `w` is scaled to `w` by a ratio of at most one, and one that is no longer
/// by a ratio of at least one.
proof fn lemma_ratio_and_one(w: nat, side: nat)
    requires
        1 <= w < 0x20_0000,
        1 <= side,
    ensures
        side >= w ==> ratio(w, side) <= RATIO_ONE,
        side > w ==> ratio(w, side) < RATIO_ONE,
        side <= w ==> ratio(w, side) >= RATIO_ONE,
{
    let one = 0x400_0000_0000_0000nat;
    let a = rounded(side);
    crate::single::lemma_rounded_small(w);
    crate::single::lemma_rounded_positive(side);
    lemma_one_is_kept();
    let n = (w * (one / 2)) as nat;
    let (k, rest) = (n / a, n % a);
    let q = crate::single::sticky_quotient(n, a);
    assert(k * a + rest == n && 0 <= rest < a) by (nonlinear_arith)
        requires
            a > 0,
            k == n / a,
            rest == n % a,
    ;
    if side >= w {
        crate::single::lemma_rounded_monotone(w, side);
        assert(q <= one) by (nonlinear_arith)
            requires
                k * a + rest == n,
                0 <= rest < a,
                n == w * (one / 2),
                w <= a,
                one == 0x400_0000_0000_0000,
                rest == 0 ==> q == 2 * k,
                rest != 0 ==> q == 2 * k + 1,
        ;
        crate::single::lemma_rounded_monotone(q, one);
    }
    if side > w {
        crate::single::lemma_rounded_small(w + 1);
        crate::single::lemma_rounded_monotone(w + 1, side);
        assert((q - 1) * a <= w * one) by (nonlinear_arith)
            requires
                k * a + rest == n,
                0 <= rest < a,
                n == w * (one / 2),
                one == 0x400_0000_0000_0000,
                q <= 2 * k + 1,
                a > 0,
        ;
        assert((q - 1) * (w + 1) <= w * one) by (nonlinear_arith)
            requires
                (q - 1) * a <= w * one,
                w + 1 <= a,
                one > 0,
                w > 0,
        ;
        assert(0x20_0000 * (q - 1) <= 0x1f_ffff * one) by (nonlinear_arith)
            requires
                (q - 1) * (w + 1) <= w * one,
                w + 1 <= 0x20_0000,
                one > 0,
                w > 0,
        ;
        crate::single::lemma_rounded_bound(q);
    }
    if side <= w {
        crate::single::lemma_rounded_small(side);
        assert(q >= one) by (nonlinear_arith)
            requires
                k * a + rest == n,
                0 <= rest < a,
                n == w * (one / 2),
                a <= w,
                one == 0x400_0000_0000_0000,
                q >= 2 * k,
        ;
        crate::single::lemma_rounded_monotone(one, q);
    }
}

/// Scaled by what makes a side of `whole` pixels one of `w`, a side keeps its proportion to it, within a
/// pixel.
proof fn lemma_scaled_near(side: nat, w: nat, whole: nat)
    requires
        1 <= side <= whole < TOP,
        1 <= w < 0x20_0000,
        w <= whole,
    ensures
        ({
            let n = nearest_whole(product(side, ratio(w, whole)));
            -(whole as int) < n * whole - side * w < whole
        }),
        side == whole ==> nearest_whole(product(side, ratio(w, whole))) == w,
{
    let one = 0x400_0000_0000_0000int;
    crate::single::lemma_rounded_small(w);
    crate::single::lemma_rounded_small(whole);
    crate::single::lemma_rounded_small(side);
    let a = whole as int;
    let n0 = (w * (one / 2)) as nat;
    let (k, rest) = (n0 / whole, n0 % whole);
    let q = crate::single::sticky_quotient(n0, whole);
    assert(k * a + rest == n0 && 0 <= rest < a) by (nonlinear_arith)
        requires
            a > 0,
            k == n0 as int / a,
            rest == n0 as int % a,
    ;
    assert((2 * k) * a == 2 * (k * a) && (2 * k + 1) * a == 2 * (k * a) + a) by (nonlinear_arith);
    let qa = q * a;
    assert(w * one - a <= qa <= w * one + a);
    let s = ratio(w, whole);
    crate::single::lemma_rounded_bound(q);
    let sa = s * a;
    assert((sa - qa) * 0x100_0000 <= qa && (qa - sa) * 0x100_0000 <= qa) by (nonlinear_arith)
        requires
            (s - q) * 0x100_0000 <= q,
            (q - s) * 0x100_0000 <= q,
            sa == s * a,
            qa == q * a,
            a > 0,
    ;
    let x = side as int;
    let z = x * s;
    let za = z * a;
    assert(za == x * sa) by (nonlinear_arith)
        requires
            za == z * a,
            z == x * s,
            sa == s * a,
    ;
    let p = product(side, s) as int;
    crate::single::lemma_rounded_bound(z as nat);
    let pa = p * a;
    assert((pa - za) * 0x100_0000 <= za && (za - pa) * 0x100_0000 <= za) by (nonlinear_arith)
        requires
            (p - z) * 0x100_0000 <= z,
            (z - p) * 0x100_0000 <= z,
            pa == p * a,
            za == z * a,
            a > 0,
    ;
    // The scale is right within a quarter of a pixel over the whole side, and so is every part of it.
    assert(0x100_0000 * (sa - w * one) <= 0x100_0000 * a + w * one + a);
    assert(0x100_0000 * (w * one - sa) <= 0x100_0000 * a + w * one + a);
    assert(8 * (sa - w * one) < one + one / 1024 && 8 * (w * one - sa) < one + one / 1024);
    assert(8 * (za - x * w * one) <= a * (one + one / 1024) && 8 * (x * w * one - za) <= a * (one + one / 1024))
        by (nonlinear_arith)
        requires
            za == x * sa,
            1 <= x <= a,
            8 * (sa - w * one) < one + one / 1024,
            8 * (w * one - sa) < one + one / 1024,
            one == 0x400_0000_0000_0000,
    ;
    assert(0 <= x * w * one <= a * 0x20_0000 * one) by (nonlinear_arith)
        requires
            1 <= x <= a,
            1 <= w < 0x20_0000,
            one == 0x400_0000_0000_0000,
    ;
    let t = x * w * one;
    let ao = a * one;
    assert(a * (one + one / 1024) <= 2 * ao && a * 0x20_0000 * one == 0x20_0000 * ao && ao >= one) by (nonlinear_arith)
        requires
            a >= 1,
            ao == a * one,
            one == 0x400_0000_0000_0000,
    ;
    assert(1024 * (a * (one + one / 1024)) <= 1025 * ao) by (nonlinear_arith)
        requires
            a >= 1,
            ao == a * one,
            one == 0x400_0000_0000_0000,
    ;
    assert(za <= 0x20_0000 * ao + ao);
    assert(8 * (pa - za) < ao + ao / 1024 && 8 * (za - pa) < ao + ao / 1024);
    // So the product is right within three eighths, and the nearest pixel within less than one.
    assert(pa - t < ao / 2 - ao / 16 && t - pa < ao / 2 - ao / 16);
    let n = nearest_whole(product(side, s)) as int;
    assert(p <= 0x40_0000 * one) by (nonlinear_arith)
        requires
            p * a <= 0x20_0000 * ao + 2 * ao,
            ao == a * one,
            a >= 1,
            one > 0,
    ;
    let m = (p + one / 2) / one;
    assert(n == m);
    let m1 = m * one;
    assert(m1 <= p + one / 2 && p + one / 2 < m1 + one) by (nonlinear_arith)
        requires
            m == (p + one / 2) / one,
            m1 == m * one,
            one == 0x400_0000_0000_0000,
    ;
    let ma = m1 * a;
    assert(2 * (ma - pa) <= ao && 2 * (pa - ma) <= ao) by (nonlinear_arith)
        requires
            2 * (m1 - p) <= one,
            2 * (p - m1) <= one,
            ma == m1 * a,
            pa == p * a,
            ao == a * one,
            a >= 1,
    ;
    assert(-ao < ma - t < ao);
    assert(-a < m * a - x * w < a) by (nonlinear_arith)
        requires
            -ao < ma - t < ao,
            ma == m1 * a,
            m1 == m * one,
            t == x * w * one,
            ao == a * one,
            one > 0,
    ;
    if side == whole {
        assert(m == w) by (nonlinear_arith)
            requires
                -a < m * a - a * w < a,
                a >= 1,
        ;
    }
}

/// The long edge is reached: a photo that is larger comes out with its longer side exactly as long as asked for,
/// and with the other in proportion, within a pixel; one that is not larger keeps its size.
pub proof fn law_long_edge_is_reached(p: Plan, n: u32, px: (u32, u32), trimmed_px: (u32, u32), fill: bool)
    requires
        1 <= n < 0x20_0000,
        0 < px.0 < TOP,
        0 < px.1 < TOP,
        plans(p, Size::LongEdge(n), px, trimmed_px, fill),
    ensures
        px.0 <= n && px.1 <= n ==> p.output == px,
        px.0 >= px.1 && px.0 >= n ==> p.output.0 == n && is_in_proportion(p.output.1, px.1, n, px.0),
        px.1 >= px.0 && px.1 >= n ==> p.output.1 == n && is_in_proportion(p.output.0, px.0, n, px.1),
        !p.trimmed,
        p.render == px,
{
    let s = ratio(n as nat, long_side(px));
    lemma_ratio_and_one(n as nat, long_side(px));
    if px.0 <= n && px.1 <= n {
        law_large_enough_scale_keeps(px.0 as nat, s);
        law_large_enough_scale_keeps(px.1 as nat, s);
    }
    if long_side(px) >= n {
        lemma_scaled_near(px.0 as nat, n as nat, long_side(px));
        lemma_scaled_near(px.1 as nat, n as nat, long_side(px));
    }
}

/// A side of `side` pixels has come out as `out`, in proportion to one of `whole` that has come out as `w`: within
/// a pixel, and at least one.
pub open spec fn is_in_proportion(out: u32, side: u32, w: u32, whole: u32) -> bool {
    out == 1 || -(whole as int) < out * whole - side * w < whole
}

/// Fitted inside a canvas, a photo that is larger touches it: its width or its height is that of the canvas, and
/// the other side is in proportion. One that is not larger keeps its size.
pub proof fn law_fitted_touches_the_canvas(p: Plan, w: u32, h: u32, px: (u32, u32), trimmed_px: (u32, u32))
    requires
        1 <= w < 0x20_0000,
        1 <= h < 0x20_0000,
        0 < px.0 < TOP,
        0 < px.1 < TOP,
        plans(p, Size::Exact(w, h), px, trimmed_px, false),
    ensures
        px.0 <= w && px.1 <= h ==> p.output == px,
        px.0 > w || px.1 > h ==> p.output.0 == w || p.output.1 == h,
{
    let across = ratio(w as nat, px.0 as nat);
    let down = ratio(h as nat, px.1 as nat);
    let s = smaller(across, down);
    lemma_ratio_and_one(w as nat, px.0 as nat);
    lemma_ratio_and_one(h as nat, px.1 as nat);
    if px.0 <= w && px.1 <= h {
        law_large_enough_scale_keeps(px.0 as nat, s);
        law_large_enough_scale_keeps(px.1 as nat, s);
    } else if across <= down {
        if px.0 >= w {
            lemma_scaled_near(px.0 as nat, w as nat, px.0 as nat);
        }
    } else {
        if px.1 >= h {
            lemma_scaled_near(px.1 as nat, h as nat, px.1 as nat);
        }
    }
}

/// The original size is kept, and so is the size where no long edge is given.
pub proof fn law_original_is_kept(p: Plan, size: Size, px: (u32, u32), trimmed_px: (u32, u32), fill: bool)
    requires
        size == Size::Original || size == Size::LongEdge(0),
        plans(p, size, px, trimmed_px, fill),
    ensures
        p.output == px,
        p.render == px,
        !p.trimmed,
{
}

/// Filling a canvas, a photo that is large enough comes out as exactly the canvas, whatever its own size; a
/// smaller one keeps the size that is left of it. What is rendered is what the trimming leaves.
pub proof fn law_filled_canvas_is_exact(p: Plan, w: u32, h: u32, px: (u32, u32), trimmed_px: (u32, u32))
    requires
        0 < trimmed_px.0 < TOP,
        0 < trimmed_px.1 < TOP,
        plans(p, Size::Exact(w, h), px, trimmed_px, true),
    ensures
        trimmed_px.0 >= w && trimmed_px.1 >= h ==> p.output == (w, h),
        trimmed_px.0 < w || trimmed_px.1 < h ==> p.output == trimmed_px,
        p.trimmed,
        p.render == trimmed_px,
{
    law_large_enough_scale_keeps(trimmed_px.0 as nat, RATIO_ONE as nat);
    law_large_enough_scale_keeps(trimmed_px.1 as nat, RATIO_ONE as nat);
}

/// Scaled alike, a shorter side stays no longer than a longer one.
proof fn lemma_scaled_monotone(a: nat, b: nat, s: nat)
    requires
        a <= b,
    ensures
        scaled_side(a, s) <= scaled_side(b, s),
{
    let t = capped(s);
    crate::single::lemma_rounded_monotone(a, b);
    let x = (rounded(a) * t) as nat;
    let y = (rounded(b) * t) as nat;
    assert(x <= y) by (nonlinear_arith)
        requires
            rounded(a) <= rounded(b),
            x == rounded(a) * t,
            y == rounded(b) * t,
    ;
    crate::single::lemma_rounded_monotone(x, y);
    let u = product(a, t);
    let v = product(b, t);
    assert((u + RATIO_ONE / 2) as nat / RATIO_ONE as nat <= (v + RATIO_ONE / 2) as nat
        / RATIO_ONE as nat) by (nonlinear_arith)
        requires
            u <= v,
            RATIO_ONE == 0x400_0000_0000_0000,
    ;
}

// ---------------------------------------------------------------------------------------------
// Quick Export
// ---------------------------------------------------------------------------------------------

/// Formats we can write, by extension.
pub const WRITABLE: [&'static str; 6] = ["jpg", "jpeg", "png", "tif", "tiff", "webp"];

/// An extension in lower case that we can write.
pub open spec fn is_writable(e: Seq<char>) -> bool {
    exists|i: int| 0 <= i < WRITABLE@.len() && (#[trigger] WRITABLE@[i])@ == e
}

/// The `n`th name that Quick Export tries: `name-edited.ext`, then `name-edited-2.ext` and so on.
pub open spec fn edited_name(stem: Seq<char>, ext: Seq<char>, n: nat) -> Seq<char> {
    if n == 1 {
        stem + "-edited."@ + ext
    } else {
        stem + "-edited-"@ + decimal(n) + "."@ + ext
    }
}

/// The stem of the original's name; `photo` where it has no name.
pub open spec fn original_stem(name: Option<Seq<char>>) -> Seq<char> {
    match name {
        Some(n) => crate::names::stem_of(n),
        None => "photo"@,
    }
}

/// The extension of the original's name as it is written; empty where it has none.
pub open spec fn original_extension(name: Option<Seq<char>>) -> Seq<char> {
    match name {
        Some(n) => match crate::names::raw_extension(n) {
            Some(e) => e,
            None => seq![],
        },
        None => seq![],
    }
}

/// The extension of the edited copy: that of the original where we can write it, else `jpg`.
pub open spec fn edited_extension(name: Option<Seq<char>>) -> Seq<char> {
    let e = original_extension(name);
    if is_writable(lowercase_of(e)) {
        e
    } else {
        "jpg"@
    }
}

/// The original format's name, where the format had to change.
pub open spec fn converted_from(name: Option<Seq<char>>) -> Option<Seq<char>> {
    let e = original_extension(name);
    if is_writable(lowercase_of(e)) {
        None
    } else {
        Some(uppercase_of(e))
    }
}

/// The view of a text that may be missing.
pub open spec fn str_view(o: Option<&str>) -> Option<Seq<char>> {
    match o {
        Some(s) => Some(s@),
        None => None,
    }
}

/// The first name that Quick Export tries and that is not taken.
pub open spec fn first_free(
    name: Seq<char>,
    stem: Seq<char>,
    ext: Seq<char>,
    taken: Seq<Seq<char>>,
) -> bool {
    &&& !taken.contains(name)
    &&& exists|n: nat|
        {
            &&& 1 <= n
            &&& name == #[trigger] edited_name(stem, ext, n)
            &&& forall|m: nat| 1 <= m < n ==> taken.contains(#[trigger] edited_name(stem, ext, m))
        }
}

/// Different numbers give different names.
pub proof fn lemma_edited_names_differ(stem: Seq<char>, ext: Seq<char>, n: nat, m: nat)
    requires
        1 <= n,
        1 <= m,
        edited_name(stem, ext, n) == edited_name(stem, ext, m),
    ensures
        n == m,
{
    reveal_strlit("-edited.");
    reveal_strlit("-edited-");
    reveal_strlit(".");
    let a = edited_name(stem, ext, n);
    let b = edited_name(stem, ext, m);
    let k = stem.len() as int;
    if n == 1 && m != 1 {
        assert(a[k + 7] == '.');
        assert(b[k + 7] == '-');
    } else if n != 1 && m == 1 {
        assert(a[k + 7] == '-');
        assert(b[k + 7] == '.');
    } else if n != 1 && m != 1 {
        crate::numeral::lemma_decimal_round_trip(n);
        crate::numeral::lemma_decimal_round_trip(m);
        let x = decimal(n);
        let y = decimal(m);
        assert(a.len() == k + 8 + x.len() + 1 + ext.len());
        assert(b.len() == k + 8 + y.len() + 1 + ext.len());
        assert forall|i: int| 0 <= i < x.len() implies x[i] == y[i] by {
            assert(a[k + 8 + i] == x[i]);
            assert(b[k + 8 + i] == y[i]);
        }
        assert(x =~= y);
    }
}

/// The names that Quick Export tries first, `n` of them.
pub open spec fn first_names(stem: Seq<char>, ext: Seq<char>, n: nat) -> Seq<Seq<char>> {
    Seq::new(n, |i: int| edited_name(stem, ext, (i + 1) as nat))
}

/// As many names as there are taken, and one more, cannot all be taken.
proof fn lemma_one_is_free(stem: Seq<char>, ext: Seq<char>, taken: Seq<Seq<char>>, n: nat)
    requires
        forall|i: nat| 1 <= i <= n ==> taken.contains(#[trigger] edited_name(stem, ext, i)),
    ensures
        n <= taken.len(),
{
    let names = first_names(stem, ext, n);
    assert(names.no_duplicates()) by {
        assert forall|i: int, j: int| 0 <= i < n && 0 <= j < n && i != j implies names[i] != names[j] by {
            if names[i] == names[j] {
                lemma_edited_names_differ(stem, ext, (i + 1) as nat, (j + 1) as nat);
            }
        }
    }
    names.unique_seq_to_set();
    vstd::seq_lib::seq_to_set_is_finite(taken);
    assert(names.to_set().subset_of(taken.to_set())) by {
        assert forall|p: Seq<char>| names.to_set().contains(p) implies taken.to_set().contains(p) by {
            let i = choose|i: int| 0 <= i < names.len() && names[i] == p;
            assert(taken.contains(edited_name(stem, ext, (i + 1) as nat)));
        }
    }
    vstd::set_lib::lemma_len_subset(names.to_set(), taken.to_set());
    taken.lemma_cardinality_of_set();
}

fn write_edited_name(stem: &str, ext: &str, n: u64) -> (r: String)
    requires
        n >= 1,
    ensures
        r@ == edited_name(stem@, ext@, n as nat),
{
    let mut out = stem.to_owned();
    if n == 1 {
        out.append("-edited.");
    } else {
        out.append("-edited-");
        push_decimal(&mut out, n);
        out.append(".");
    }
    out.append(ext);
    out
}

fn is_taken(taken: &[String], name: &str) -> (r: bool)
    ensures
        r == views(taken@).contains(name@),
{
    let ghost all = views(taken@);
    let mut i: usize = 0;
    while i < taken.len()
        invariant
            i <= taken@.len(),
            all == views(taken@),
            forall|k: int| 0 <= k < i ==> #[trigger] all[k] != name@,
        decreases taken.len() - i,
    {
        assert(all[i as int] == taken@[i as int]@);
        if text_eq(taken[i].as_str(), name) {
            return true;
        }
        i = i + 1;
    }
    false
}

/// Where Quick Export saves: `name-edited.ext` next to the original (`name-edited-2.ext` and so on if
/// taken), keeping its format when we can write it, else JPEG. Also returns the original format's
/// name when it had to change (e.g. "HEIC"). `name` is the original's file name, `taken` are the
/// names that are not free.
pub fn edited_path(name: Option<&str>, taken: &[String]) -> (r: (String, Option<String>))
    requires
        taken@.len() < u64::MAX,
    ensures
        first_free(
            r.0@,
            original_stem(str_view(name)),
            edited_extension(str_view(name)),
            views(taken@),
        ),
        opt_view(r.1) == converted_from(str_view(name)),
{
    let ghost original = str_view(name);
    let stem = match name {
        Some(s) => crate::names::stem(s),
        None => "photo".to_owned(),
    };
    let raw = match name {
        Some(s) => match crate::names::written_extension(s) {
            Some(e) => e,
            None => String::new(),
        },
        None => String::new(),
    };
    assert(raw@ =~= original_extension(original));
    let low = lowercase(raw.as_str());
    let (ext, converted) = if contains_text(&WRITABLE, low.as_str()) {
        (raw, None)
    } else {
        ("jpg".to_owned(), Some(uppercase(raw.as_str())))
    };
    let ghost names = views(taken@);
    let mut n: u64 = 1;
    let mut candidate = write_edited_name(stem.as_str(), ext.as_str(), 1);
    while is_taken(taken, candidate.as_str())
        invariant
            1 <= n,
            n <= taken@.len() + 1,
            taken@.len() < u64::MAX,
            names == views(taken@),
            candidate@ == edited_name(stem@, ext@, n as nat),
            forall|m: nat| 1 <= m < n ==> names.contains(#[trigger] edited_name(stem@, ext@, m)),
        decreases taken@.len() + 1 - n,
    {
        proof {
            assert forall|m: nat| 1 <= m <= n implies names.contains(
                #[trigger] edited_name(stem@, ext@, m),
            ) by {}
            lemma_one_is_free(stem@, ext@, names, n as nat);
            assert(names.len() == taken@.len());
        }
        n = n + 1;
        candidate = write_edited_name(stem.as_str(), ext.as_str(), n);
    }
    assert(first_free(candidate@, stem@, ext@, names)) by {
        assert(candidate@ == edited_name(stem@, ext@, n as nat));
    }
    (candidate, converted)
}

/// A copy that Quick Export makes never has a name that is taken, and never that of the photo, whose stem it begins with;
/// it has the extension that it was to have.
pub proof fn law_edited_copies_overwrite_nothing(
    name: Seq<char>,
    stem: Seq<char>,
    ext: Seq<char>,
    taken: Seq<Seq<char>>,
)
    requires
        first_free(name, stem, ext, taken),
        !ext.contains('.'),
        stem.len() > 0,
    ensures
        !taken.contains(name),
        name != stem.push('.') + ext,
        name.len() > stem.len() && name.take(stem.len() as int) == stem,
        crate::names::raw_extension(name) == Some(ext),
        !taken.contains(stem + "-edited."@ + ext) ==> name == stem + "-edited."@ + ext,
{
    reveal_strlit("-edited.");
    reveal_strlit("-edited-");
    reveal_strlit(".");
    reveal_strlit("..");
    let n = choose|n: nat|
        {
            &&& 1 <= n
            &&& name == #[trigger] edited_name(stem, ext, n)
            &&& forall|m: nat| 1 <= m < n ==> taken.contains(#[trigger] edited_name(stem, ext, m))
        };
    let k = stem.len() as int;
    assert(name.take(k) =~= stem);
    assert(name[k] == '-');
    assert((stem.push('.') + ext)[k] == '.');
    let front = if n == 1 {
        stem + "-edited"@
    } else {
        stem + "-edited-"@ + decimal(n)
    };
    reveal_strlit("-edited");
    assert(name =~= front.push('.') + ext);
    assert(front.len() > 1);
    crate::names::law_name_is_taken_apart(front, ext);
    if n > 1 {
        assert(taken.contains(edited_name(stem, ext, 1)));
    }
}

/// Every size on offer is found by its slug, however that is written; the custom one is not.
pub proof fn law_sizes_are_found_by_slug(i: int, slug: Seq<char>)
    requires
        0 <= i < CUSTOM,
        same_but_case(slug, size_table()[i].1),
    ensures
        size_named(slug, 0) == Some(size_table()[i].2),
{
    reveal_strlit("original");
    reveal_strlit("instagram-portrait");
    reveal_strlit("instagram-square");
    reveal_strlit("instagram-landscape");
    reveal_strlit("instagram-story");
    reveal_strlit("x-post");
    reveal_strlit("x-large");
    reveal_strlit("facebook");
    reveal_strlit("web");
    reveal_strlit("custom");
    let t = size_table();
    assert(t[0].1.len() == 8 && t[1].1.len() == 18 && t[2].1.len() == 16 && t[3].1.len() == 19 && t[4].1.len() == 15);
    assert(t[5].1.len() == 6 && t[6].1.len() == 7 && t[7].1.len() == 8 && t[8].1.len() == 3);
    assert(ascii_lower(slug).len() == slug.len());
    assert(ascii_lower(t[i].1).len() == t[i].1.len());
    assert(slug.len() == t[i].1.len());
    assert forall|j: int| 0 <= j < i implies !same_but_case((#[trigger] t[j]).1, slug) by {
        assert(ascii_lower(t[j].1).len() == t[j].1.len());
        if t[j].1.len() == slug.len() {
            assert(j == 0 && i == 7);
            assert(ascii_lower(t[0].1)[0] == 'o');
            assert(ascii_lower(t[7].1)[0] == 'f');
        }
    }
    assert(t[i].1 != "custom"@) by {
        if i == 5 {
            assert(t[5].1[0] == 'x');
        }
    }
    lemma_size_named(slug, 0, i);
}

proof fn lemma_size_named(slug: Seq<char>, j: int, i: int)
    requires
        0 <= j <= i < size_table().len(),
        forall|k: int| j <= k < i ==> !same_but_case((#[trigger] size_table()[k]).1, slug),
        same_but_case(size_table()[i].1, slug),
        size_table()[i].1 != "custom"@,
    ensures
        size_named(slug, j) == Some(size_table()[i].2),
    decreases i - j,
{
    if j < i {
        assert(!same_but_case(size_table()[j].1, slug));
        lemma_size_named(slug, j + 1, i);
    }
}

/// The label of a fixed size names its width and its height, and that of a long edge its length.
pub proof fn law_size_labels_name_the_size(i: int)
    requires
        0 <= i < CUSTOM,
    ensures
        size_table()[i].2 matches Size::Exact(w, h) ==> ends_with(
            size_table()[i].0,
            "("@ + decimal(w as nat) + "×"@ + decimal(h as nat) + ")"@,
        ),
        size_table()[i].2 matches Size::LongEdge(n) ==> ends_with(
            size_table()[i].0,
            "(up to "@ + decimal(n as nat) + " px)"@,
        ),
{
    reveal_strlit("Instagram · Portrait 4:5 (1080×1350)");
    reveal_strlit("Instagram · Square (1080×1080)");
    reveal_strlit("Instagram · Landscape (1080×566)");
    reveal_strlit("Instagram · Story / Reel 9:16 (1080×1920)");
    reveal_strlit("X · Post 16:9 (1600×900)");
    reveal_strlit("X · Large (up to 4096 px)");
    reveal_strlit("Facebook (up to 2048 px)");
    reveal_strlit("Web (up to 1920 px)");
    reveal_strlit("(");
    reveal_strlit("×");
    reveal_strlit(")");
    reveal_strlit("(up to ");
    reveal_strlit(" px)");
    reveal_with_fuel(decimal, 5);
    let label = size_table()[i].0;
    match size_table()[i].2 {
        Size::Exact(w, h) => {
            let t = "("@ + decimal(w as nat) + "×"@ + decimal(h as nat) + ")"@;
            assert(label.skip(label.len() - t.len()) =~= t);
        },
        Size::LongEdge(n) => {
            let t = "(up to "@ + decimal(n as nat) + " px)"@;
            assert(label.skip(label.len() - t.len()) =~= t);
        },
        Size::Original => {},
    }
}

/// A text ends with another.
pub open spec fn ends_with(s: Seq<char>, t: Seq<char>) -> bool {
    t.len() <= s.len() && s.skip(s.len() - t.len()) == t
}

} // verus!
