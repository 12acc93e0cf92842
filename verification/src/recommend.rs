//! Per-photo preset recommendations: every preset is rendered small, and the results are compared
//! with the original. The grid that they are rendered into, the measurements that need whole
//! numbers only, the reasons and the choice are here; the measurements that need fractions are
//! the caller's.

use crate::pixels::{rows, rows_fit, take_rows};
use crate::single::{
    divide, lemma_rounded_bound, lemma_rounded_monotone, multiply, product, ratio, round, rounded, truncate,
    whole_part,
};
use crate::order::{precedes, sort_numbers};
use crate::text::{text_eq, views};
use vstd::prelude::*;

verus! {

pub const GRID_COLS: u32 = 32;

pub const CELL_MAX: u32 = 96;

pub const COUNT: usize = 12;

/// The larger of two numbers.
pub open spec fn larger(a: nat, b: nat) -> nat {
    if a >= b {
        a
    } else {
        b
    }
}

/// One side of a grid cell, in single precision: the side scaled so that the longer one becomes
/// [`CELL_MAX`], and at least 8.
pub open spec fn cell_side(side: nat, longer: nat) -> nat {
    larger(
        if longer == 0 {
            0
        } else {
            whole_part(product(side, ratio(CELL_MAX as nat, longer)))
        },
        8,
    )
}

/// Grid cell size for a crop of the given pixel size.
pub fn cell_size(px: (u32, u32)) -> (r: (u32, u32))
    ensures
        r.0 == cell_side(px.0 as nat, larger(px.0 as nat, px.1 as nat)),
        r.1 == cell_side(px.1 as nat, larger(px.0 as nat, px.1 as nat)),
{
    let longer: u32 = if px.0 >= px.1 {
        px.0
    } else {
        px.1
    };
    if longer == 0 {
        return (8, 8);
    }
    let s: u128 = divide(CELL_MAX, longer);
    let w: u32 = truncate(multiply(px.0, s));
    let h: u32 = truncate(multiply(px.1, s));
    (
        if w >= 8 {
            w
        } else {
            8
        },
        if h >= 8 {
            h
        } else {
            8
        },
    )
}

// ---------------------------------------------------------------------------------------------
// Pixels
// ---------------------------------------------------------------------------------------------

/// One, where quantities are whole numbers of 2^-32.
pub const UNIT: u128 = 0x1_0000_0000;

/// The weights of a colour's channels, as multiples of 2^-32: the single precision numbers
/// nearest to 0.299, 0.587 and so on.
pub const LUMA_R: u128 = 1284195200;

pub const LUMA_G: u128 = 2521145856;

pub const LUMA_B: u128 = 489626272;

pub const CB_R: u128 = 724715584;

pub const CB_G: u128 = 1422768000;

pub const CR_G: u128 = 1798251264;

pub const CR_B: u128 = 349232384;

pub const HALF: u128 = 2147483648;

/// Brightness, `0.299 r + 0.587 g + 0.114 b`, every step rounded to single precision.
pub open spec fn luma(r: nat, g: nat, b: nat) -> nat {
    rounded(
        rounded(rounded(LUMA_R as nat * r) + rounded(LUMA_G as nat * g)) + rounded(
            LUMA_B as nat * b,
        ),
    )
}

/// Blueness, `128 - 0.168736 r - 0.331264 g + 0.5 b`, every step rounded to single precision.
pub open spec fn blueness(r: nat, g: nat, b: nat) -> nat {
    let x = rounded((128 * UNIT - rounded(CB_R as nat * r)) as nat);
    let y = rounded((x - rounded(CB_G as nat * g)) as nat);
    rounded(y + rounded(HALF as nat * b))
}

/// Redness, `128 + 0.5 r - 0.418688 g - 0.081312 b`, every step rounded to single precision.
pub open spec fn redness(r: nat, g: nat, b: nat) -> nat {
    let x = rounded((128 * UNIT + rounded(HALF as nat * r)) as nat);
    let y = rounded((x - rounded(CR_G as nat * g)) as nat);
    rounded((y - rounded(CR_B as nat * b)) as nat)
}

/// Classic YCbCr skin-tone rule, on 0..255 values.
pub open spec fn skin_rule(r: nat, g: nat, b: nat) -> bool {
    &&& 77 * UNIT <= blueness(r, g, b) <= 127 * UNIT
    &&& 133 * UNIT <= redness(r, g, b) <= 173 * UNIT
    &&& 40 * UNIT <= luma(r, g, b) <= 235 * UNIT
}

fn measure_luma(r: u8, g: u8, b: u8) -> (y: u128)
    ensures
        y == luma(r as nat, g as nat, b as nat),
{
    round(
        round(round(LUMA_R * r as u128) + round(LUMA_G * g as u128)) + round(LUMA_B * b as u128),
    )
}

fn measure_blueness(r: u8, g: u8, b: u8) -> (y: u128)
    ensures
        y == blueness(r as nat, g as nat, b as nat),
{
    let x: u128 = round(128 * UNIT - round(CB_R * r as u128));
    let y: u128 = round(x - round(CB_G * g as u128));
    round(y + round(HALF * b as u128))
}

fn measure_redness(r: u8, g: u8, b: u8) -> (y: u128)
    ensures
        y == redness(r as nat, g as nat, b as nat),
{
    let x: u128 = round(128 * UNIT + round(HALF * r as u128));
    let y: u128 = round(x - round(CR_G * g as u128));
    round(y - round(CR_B * b as u128))
}

/// Whether a pixel has the colour of skin.
pub fn is_skin(p: &[u8]) -> (r: bool)
    requires
        p@.len() >= 3,
    ensures
        r == skin_rule(p@[0] as nat, p@[1] as nat, p@[2] as nat),
{
    let y: u128 = measure_luma(p[0], p[1], p[2]);
    let cb: u128 = measure_blueness(p[0], p[1], p[2]);
    let cr: u128 = measure_redness(p[0], p[1], p[2]);
    77 * UNIT <= cb && cb <= 127 * UNIT && 133 * UNIT <= cr && cr <= 173 * UNIT && 40 * UNIT <= y
        && y <= 235 * UNIT
}

/// Where cell `i` of a grid begins, in bytes of an image of four bytes a pixel.
pub open spec fn cell_start(width: int, cell: (int, int), cols: int, i: int) -> int {
    ((i / cols) * cell.1 * width + (i % cols) * cell.0) * 4
}

/// Cell `i` lies within an image of `size` bytes.
pub open spec fn cell_fits(size: int, width: int, cell: (int, int), cols: int, i: int) -> bool {
    &&& cols > 0
    &&& (i % cols) * cell.0 + cell.0 <= width
    &&& ((i / cols) * cell.1 + cell.1) * width * 4 <= size
}

/// The pixels of cell `i`, row by row.
pub open spec fn cell_of(rgba: Seq<u8>, width: int, cell: (int, int), cols: int, i: int) -> Seq<u8> {
    rows(rgba, cell_start(width, cell, cols, i), width * 4, cell.0 * 4, cell.1 as nat)
}

/// A cell that fits lies within the image row by row.
pub proof fn lemma_cell_fits(size: int, width: int, cell: (int, int), cols: int, i: int)
    requires
        0 <= width,
        0 <= cell.0,
        0 < cell.1,
        0 <= i,
        cell_fits(size, width, cell, cols, i),
    ensures
        0 <= cell_start(width, cell, cols, i) <= size,
        rows_fit(size, cell_start(width, cell, cols, i), width * 4, cell.0 * 4, cell.1 as nat),
{
    let down = i / cols;
    let across = i % cols;
    let (w, h) = cell;
    assert(down >= 0 && across >= 0) by (nonlinear_arith)
        requires
            i >= 0,
            cols > 0,
            down == i / cols,
            across == i % cols,
    ;
    assert((down * h * width + across * w) * 4 + (h - 1) * (width * 4) + w * 4 <= (down * h + h)
        * width * 4) by (nonlinear_arith)
        requires
            across * w + w <= width,
    ;
    assert(0 <= down * h * width && 0 <= across * w && 0 <= (h - 1) * (width * 4) && 0 <= w)
        by (nonlinear_arith)
        requires
            down >= 0,
            across >= 0,
            w >= 0,
            h > 0,
            width >= 0,
    ;
}

/// The pixels of cell `i` of a grid with `cols` columns, four bytes each, row by row.
pub fn cell_pixels(rgba: &[u8], width: u32, cell: (u32, u32), cols: u32, i: u32) -> (r: Vec<u8>)
    requires
        cell.1 > 0,
        cell_fits(rgba@.len() as int, width as int, (cell.0 as int, cell.1 as int), cols as int, i as int),
    ensures
        r@ == cell_of(rgba@, width as int, (cell.0 as int, cell.1 as int), cols as int, i as int),
{
    let size: usize = rgba.len();
    let down: u32 = i / cols;
    let across: u32 = i % cols;
    proof {
        lemma_cell_fits(
            rgba@.len() as int,
            width as int,
            (cell.0 as int, cell.1 as int),
            cols as int,
            i as int,
        );
        assert(0 <= down * cell.1 * width && 0 <= down * cell.1 && down * cell.1 * width <= (down
            * cell.1 + cell.1) * width && width <= (down * cell.1 + cell.1) * width && cell.0
            <= across * cell.0 + cell.0 && 0 <= across * cell.0) by (nonlinear_arith)
            requires
                cell.1 > 0,
        ;
        assert(width > 0 ==> down * cell.1 <= (down * cell.1 + cell.1) * width) by (nonlinear_arith)
            requires
                cell.1 > 0,
        ;
    }
    if width == 0 {
        assert(cell.0 == 0);
        assert(cell_start(0, (0, cell.1 as int), cols as int, i as int) == 0) by (nonlinear_arith)
            requires
                cols > 0,
        ;
        return take_rows(rgba, 0, 0, 0, cell.1 as usize);
    }
    let first_row: usize = down as usize * cell.1 as usize;
    let start: usize = (first_row * width as usize + across as usize * cell.0 as usize) * 4;
    take_rows(rgba, start, width as usize * 4, cell.0 as usize * 4, cell.1 as usize)
}

/// The brightest channel of a pixel.
pub open spec fn brightest(px: Seq<u8>, k: int) -> nat {
    larger(larger(px[4 * k] as nat, px[4 * k + 1] as nat), px[4 * k + 2] as nat)
}

/// Number of the first `n` pixels with a channel at the top: at least 0.99 of 255.
pub open spec fn count_high(px: Seq<u8>, n: nat) -> nat
    decreases n,
{
    if n == 0 {
        0
    } else {
        count_high(px, (n - 1) as nat) + if brightest(px, n - 1) >= 253 {
            1nat
        } else {
            0nat
        }
    }
}

/// Number of the first `n` pixels with all channels at the bottom: at most 0.02 of 255.
pub open spec fn count_low(px: Seq<u8>, n: nat) -> nat
    decreases n,
{
    if n == 0 {
        0
    } else {
        count_low(px, (n - 1) as nat) + if brightest(px, n - 1) <= 5 {
            1nat
        } else {
            0nat
        }
    }
}

/// How many pixels have a channel at the top, and how many all channels at the bottom.
pub fn clipping(px: &[u8]) -> (r: (u64, u64))
    ensures
        r.0 == count_high(px@, (px@.len() / 4) as nat),
        r.1 == count_low(px@, (px@.len() / 4) as nat),
{
    let n: usize = px.len() / 4;
    let mut high: u64 = 0;
    let mut low: u64 = 0;
    let mut k: usize = 0;
    while k < n
        invariant
            n == px@.len() / 4,
            n <= usize::MAX / 4,
            k <= n,
            high <= k,
            low <= k,
            high == count_high(px@, k as nat),
            low == count_low(px@, k as nat),
        decreases n - k,
    {
        let r: u8 = px[4 * k];
        let g: u8 = px[4 * k + 1];
        let b: u8 = px[4 * k + 2];
        let rg: u8 = if r >= g {
            r
        } else {
            g
        };
        let top: u8 = if rg >= b {
            rg
        } else {
            b
        };
        if top >= 253 {
            high = high + 1;
        }
        if top <= 5 {
            low = low + 1;
        }
        k = k + 1;
    }
    (high, low)
}

/// Which pixels have the colour of skin.
pub fn skin_mask(px: &[u8]) -> (r: Vec<bool>)
    ensures
        r@.len() == px@.len() / 4,
        forall|k: int|
            0 <= k < r@.len() ==> (#[trigger] r@[k]) == skin_rule(
                px@[4 * k] as nat,
                px@[4 * k + 1] as nat,
                px@[4 * k + 2] as nat,
            ),
{
    let n: usize = px.len() / 4;
    let mut out: Vec<bool> = Vec::new();
    let mut k: usize = 0;
    while k < n
        invariant
            n == px@.len() / 4,
            n <= usize::MAX / 4,
            k <= n,
            out@.len() == k,
            forall|j: int|
                0 <= j < k ==> (#[trigger] out@[j]) == skin_rule(
                    px@[4 * j] as nat,
                    px@[4 * j + 1] as nat,
                    px@[4 * j + 2] as nat,
                ),
        decreases n - k,
    {
        let p = vstd::slice::slice_subrange(px, 4 * k, 4 * k + 3);
        out.push(is_skin(p));
        k = k + 1;
    }
    out
}

/// The distance between two numbers.
pub open spec fn distance(a: nat, b: nat) -> nat {
    if a >= b {
        (a - b) as nat
    } else {
        (b - a) as nat
    }
}

/// The distance between two pixels: that of their red, green and blue.
pub open spec fn pixel_distance(a: Seq<u8>, b: Seq<u8>, k: int) -> nat {
    distance(a[4 * k] as nat, b[4 * k] as nat) + distance(a[4 * k + 1] as nat, b[4 * k + 1] as nat)
        + distance(a[4 * k + 2] as nat, b[4 * k + 2] as nat)
}

/// The distance between the first `n` pixels.
pub open spec fn total_distance(a: Seq<u8>, b: Seq<u8>, n: nat) -> nat
    decreases n,
{
    if n == 0 {
        0
    } else {
        total_distance(a, b, (n - 1) as nat) + pixel_distance(a, b, n - 1)
    }
}

fn abs_diff(a: u8, b: u8) -> (r: u64)
    ensures
        r == distance(a as nat, b as nat),
        r <= 255,
{
    if a >= b {
        (a - b) as u64
    } else {
        (b - a) as u64
    }
}

/// How far two renderings are apart, summed over the pixels that both have.
pub fn difference(a: &[u8], b: &[u8]) -> (r: u64)
    requires
        a@.len() <= 0x1000_0000_0000,
    ensures
        r == total_distance(
            a@,
            b@,
            if a@.len() <= b@.len() {
                (a@.len() / 4) as nat
            } else {
                (b@.len() / 4) as nat
            },
        ),
{
    let n: usize = if a.len() <= b.len() {
        a.len() / 4
    } else {
        b.len() / 4
    };
    let mut total: u64 = 0;
    let mut k: usize = 0;
    while k < n
        invariant
            n <= a@.len() / 4,
            n <= b@.len() / 4,
            n <= usize::MAX / 4,
            a@.len() <= 0x1000_0000_0000,
            k <= n,
            total <= 765 * k,
            total == total_distance(a@, b@, k as nat),
        decreases n - k,
    {
        total = total + abs_diff(a[4 * k], b[4 * k]) + abs_diff(a[4 * k + 1], b[4 * k + 1])
            + abs_diff(a[4 * k + 2], b[4 * k + 2]);
        k = k + 1;
    }
    total
}

// ---------------------------------------------------------------------------------------------
// Reasons
// ---------------------------------------------------------------------------------------------

/// The saturations of the first `n` steps together.
pub open spec fn up_to(hist: Seq<u32>, n: nat) -> nat
    decreases n,
{
    if n == 0 {
        0
    } else {
        up_to(hist, (n - 1) as nat) + hist[n - 1] as nat
    }
}

/// The steps of saturation that pixels are counted in.
pub const SATURATION_STEPS: usize = 64;

/// The first step of a histogram at which `target` pixels have been counted; the last step where that
/// many are not there.
pub fn percentile(hist: &[u32], target: u32) -> (r: usize)
    requires
        hist@.len() == SATURATION_STEPS,
    ensures
        r < SATURATION_STEPS,
        up_to(hist@, (r + 1) as nat) >= target || r == SATURATION_STEPS - 1,
        forall|j: int| 0 <= j < r ==> #[trigger] up_to(hist@, (j + 1) as nat) < target,
{
    let mut seen: u64 = 0;
    let mut i: usize = 0;
    while i < hist.len()
        invariant
            hist@.len() == SATURATION_STEPS,
            i <= hist@.len(),
            seen == up_to(hist@, i as nat),
            seen <= i * 0xffff_ffff,
            forall|j: int| 0 <= j < i ==> #[trigger] up_to(hist@, (j + 1) as nat) < target,
        decreases hist.len() - i,
    {
        seen = seen + hist[i] as u64;
        if seen >= target as u64 {
            return i;
        }
        i = i + 1;
    }
    SATURATION_STEPS - 1
}

/// Which of the four times four blocks of a cell a pixel lies in, row by row.
pub fn block_of(x: u32, y: u32, cell: (u32, u32)) -> (r: usize)
    requires
        x < cell.0,
        y < cell.1,
    ensures
        r == (y * 4 / cell.1 as int) * 4 + x * 4 / cell.0 as int,
        r < 16,
{
    let down: u64 = y as u64 * 4 / cell.1 as u64;
    let across: u64 = x as u64 * 4 / cell.0 as u64;
    assert(down <= 3) by (nonlinear_arith)
        requires
            y < cell.1,
            down == y as u64 * 4 / cell.1 as int,
    ;
    assert(across <= 3) by (nonlinear_arith)
        requires
            x < cell.0,
            across == x as u64 * 4 / cell.0 as int,
    ;
    (down * 4 + across) as usize
}

/// Why a preset suits a photo.
#[derive(Clone, Copy, PartialEq, Eq, Debug, Structural)]
pub enum Reason {
    BlackAndWhite,
    NaturalSkinTones,
    BrightensDarkPhoto,
    AddsDepth,
    LivensColours,
    KeepsHighlights,
    KeepsShadows,
}

/// The words for a reason.
pub open spec fn label_of(r: Reason) -> Seq<char> {
    match r {
        Reason::BlackAndWhite => "black & white"@,
        Reason::NaturalSkinTones => "natural skin tones"@,
        Reason::BrightensDarkPhoto => "brightens a dark photo"@,
        Reason::AddsDepth => "adds depth to a flat photo"@,
        Reason::LivensColours => "livens up muted colours"@,
        Reason::KeepsHighlights => "keeps highlight detail"@,
        Reason::KeepsShadows => "keeps shadow detail"@,
    }
}

impl Reason {
    /// The words for this reason.
    pub fn label(self) -> (r: &'static str)
        ensures
            r@ == label_of(self),
    {
        match self {
            Reason::BlackAndWhite => "black & white",
            Reason::NaturalSkinTones => "natural skin tones",
            Reason::BrightensDarkPhoto => "brightens a dark photo",
            Reason::AddsDepth => "adds depth to a flat photo",
            Reason::LivensColours => "livens up muted colours",
            Reason::KeepsHighlights => "keeps highlight detail",
            Reason::KeepsShadows => "keeps shadow detail",
        }
    }
}

/// What was found of a result, compared with the original.
#[derive(Clone, Copy, Debug)]
pub struct Findings {
    /// No new clipping at the top of a bright photo.
    pub keeps_highlights: bool,
    /// No new clipping at the bottom of a dark photo.
    pub keeps_shadows: bool,
    /// A dark photo became clearly brighter.
    pub brightens: bool,
    /// A flat photo gained contrast.
    pub adds_depth: bool,
    /// A colour photo with muted colours gained saturation.
    pub livens: bool,
    /// The result has no colour.
    pub gray: bool,
    /// The original has skin tones.
    pub some_skin: bool,
    /// The original has plenty of them. The colour rule also catches wood, sand and clay.
    pub much_skin: bool,
    /// The skin tones kept their colour.
    pub skin_kept: bool,
}

/// A list of one reason, or of none.
pub open spec fn given(holds: bool, r: Reason) -> Seq<Reason> {
    if holds {
        seq![r]
    } else {
        seq![]
    }
}

/// Every reason that holds, the most specific first: what the look is, then what it does for this
/// photo, then what it leaves alone.
pub open spec fn all_reasons(f: Findings) -> Seq<Reason> {
    given(f.gray, Reason::BlackAndWhite) + given(
        !f.gray && f.some_skin && f.much_skin && f.skin_kept,
        Reason::NaturalSkinTones,
    ) + given(f.brightens, Reason::BrightensDarkPhoto) + given(f.adds_depth, Reason::AddsDepth)
        + given(f.livens, Reason::LivensColours) + given(
        f.keeps_highlights,
        Reason::KeepsHighlights,
    ) + given(f.keeps_shadows, Reason::KeepsShadows)
}

/// The first two of a list.
pub open spec fn first_two(s: Seq<Reason>) -> Seq<Reason> {
    if s.len() <= 2 {
        s
    } else {
        s.take(2)
    }
}

fn give(out: &mut Vec<Reason>, holds: bool, r: Reason)
    ensures
        final(out)@ == old(out)@ + given(holds, r),
{
    let ghost before = out@;
    if holds {
        out.push(r);
    }
    assert(out@ == before + given(holds, r));
}

/// The two most specific reasons that hold.
pub fn reasons(f: Findings) -> (r: Vec<Reason>)
    ensures
        r@ == first_two(all_reasons(f)),
{
    let mut out: Vec<Reason> = Vec::new();
    give(&mut out, f.gray, Reason::BlackAndWhite);
    give(
        &mut out,
        !f.gray && f.some_skin && f.much_skin && f.skin_kept,
        Reason::NaturalSkinTones,
    );
    give(&mut out, f.brightens, Reason::BrightensDarkPhoto);
    give(&mut out, f.adds_depth, Reason::AddsDepth);
    give(&mut out, f.livens, Reason::LivensColours);
    give(&mut out, f.keeps_highlights, Reason::KeepsHighlights);
    give(&mut out, f.keeps_shadows, Reason::KeepsShadows);
    assert(out@ =~= all_reasons(f));
    out.truncate(2);
    out
}

// ---------------------------------------------------------------------------------------------
// Choosing
// ---------------------------------------------------------------------------------------------

/// `order` lists the scored presets, best first; equally good ones as they stand.
pub open spec fn best_first(order: Seq<usize>, scores: Seq<i32>) -> bool {
    &&& order.len() == scores.len()
    &&& forall|i: int| 0 <= i < order.len() ==> (#[trigger] order[i]) < scores.len()
    &&& forall|i: int, j: int|
        0 <= i < j < order.len() ==> {
            let a = #[trigger] order[i];
            let b = #[trigger] order[j];
            scores[a as int] > scores[b as int] || (scores[a as int] == scores[b as int] && a < b)
        }
}

/// The scored presets, best first. A score is given as a whole number that orders like it.
pub fn ranking(scores: &[i32]) -> (order: Vec<usize>)
    ensures
        best_first(order@, scores@),
{
    let mut keys: Vec<i128> = Vec::new();
    let mut i: usize = 0;
    while i < scores.len()
        invariant
            i <= scores@.len(),
            keys@.len() == i,
            forall|k: int| 0 <= k < i ==> (#[trigger] keys@[k]) == -(scores@[k] as int),
        decreases scores.len() - i,
    {
        keys.push(-(scores[i] as i128));
        i = i + 1;
    }
    let order = sort_numbers(&keys);
    assert forall|a: int, b: int| 0 <= a < b < order@.len() implies {
        let x = #[trigger] order@[a];
        let y = #[trigger] order@[b];
        scores@[x as int] > scores@[y as int] || (scores@[x as int] == scores@[y as int] && x < y)
    } by {
        assert(precedes(keys@, order@[a], order@[b]));
    }
    order
}

/// A scored preset, as far as the choice depends on it.
#[derive(Clone, Copy, Debug)]
pub struct Candidate {
    /// Which preset it is.
    pub index: usize,
    /// Its score is high enough to recommend it.
    pub good: bool,
    /// Its result is black and white.
    pub black_and_white: bool,
}

/// How many of the chosen candidates come from the group of candidate `i`.
pub open spec fn same_group(
    c: Seq<Candidate>,
    groups: Seq<Seq<char>>,
    chosen: Seq<usize>,
    i: int,
) -> nat
    decreases chosen.len(),
{
    if chosen.len() == 0 {
        0
    } else {
        same_group(c, groups, chosen.drop_last(), i) + if groups[c[chosen.last() as int].index as int]
            == groups[c[i].index as int] {
            1nat
        } else {
            0nat
        }
    }
}

/// How many of the chosen candidates are black and white.
pub open spec fn black_and_white(c: Seq<Candidate>, chosen: Seq<usize>) -> nat
    decreases chosen.len(),
{
    if chosen.len() == 0 {
        0
    } else {
        black_and_white(c, chosen.drop_last()) + if c[chosen.last() as int].black_and_white {
            1nat
        } else {
            0nat
        }
    }
}

/// Candidate `i` looks like one of the chosen ones.
pub open spec fn looks_alike(similar: Seq<Vec<bool>>, chosen: Seq<usize>, i: int) -> bool {
    exists|k: int| 0 <= k < chosen.len() && similar[i]@[(#[trigger] chosen[k]) as int]
}

/// Candidate `i` may join the chosen ones: it looks like none of them, fewer than three of them
/// come from its group, and it is not the third in black and white.
pub open spec fn admits(
    c: Seq<Candidate>,
    groups: Seq<Seq<char>>,
    similar: Seq<Vec<bool>>,
    chosen: Seq<usize>,
    i: int,
) -> bool {
    &&& !looks_alike(similar, chosen, i)
    &&& same_group(c, groups, chosen, i) < 3
    &&& !(c[i].black_and_white && black_and_white(c, chosen) >= 2)
}

/// The choice of at most `k`, from candidate `i` on, when `chosen` are already taken. It ends with
/// the first candidate that is not good enough.
pub open spec fn choose_from(
    c: Seq<Candidate>,
    groups: Seq<Seq<char>>,
    similar: Seq<Vec<bool>>,
    k: nat,
    i: int,
    chosen: Seq<usize>,
) -> Seq<usize>
    decreases c.len() - i,
{
    if i < 0 || i >= c.len() || chosen.len() == k || !c[i].good {
        chosen
    } else if admits(c, groups, similar, chosen, i) {
        choose_from(c, groups, similar, k, i + 1, chosen.push(i as usize))
    } else {
        choose_from(c, groups, similar, k, i + 1, chosen)
    }
}

/// The inputs of a choice belong together: every candidate has a group, and for every candidate it
/// is known which of those before it look like it.
pub open spec fn choosable(
    c: Seq<Candidate>,
    groups: int,
    similar: Seq<Vec<bool>>,
) -> bool {
    &&& similar.len() == c.len()
    &&& forall|i: int| 0 <= i < c.len() ==> (#[trigger] c[i]).index < groups
    &&& forall|i: int| 0 <= i < c.len() ==> (#[trigger] similar[i])@.len() >= i
}

fn alike(similar: &Vec<bool>, chosen: &Vec<usize>) -> (r: bool)
    requires
        forall|k: int| 0 <= k < chosen@.len() ==> (#[trigger] chosen@[k]) < similar@.len(),
    ensures
        r == exists|k: int| 0 <= k < chosen@.len() && similar@[(#[trigger] chosen@[k]) as int],
{
    let mut k: usize = 0;
    while k < chosen.len()
        invariant
            k <= chosen@.len(),
            forall|j: int| 0 <= j < chosen@.len() ==> (#[trigger] chosen@[j]) < similar@.len(),
            forall|j: int| 0 <= j < k ==> !similar@[(#[trigger] chosen@[j]) as int],
        decreases chosen.len() - k,
    {
        if similar[chosen[k]] {
            assert(similar@[chosen@[k as int] as int]);
            return true;
        }
        k = k + 1;
    }
    false
}

/// Picks the best `k`, skipping near-duplicates and limiting how many come from one group (and how
/// many are black & white). The candidates stand best first; `similar[i][j]` says whether the
/// results of candidates `i` and `j < i` look alike. Gives the places of the chosen ones.
pub fn pick(
    candidates: &[Candidate],
    groups: &[String],
    similar: &[Vec<bool>],
    k: usize,
) -> (r: Vec<usize>)
    requires
        choosable(candidates@, groups@.len() as int, similar@),
    ensures
        r@ == choose_from(candidates@, views(groups@), similar@, k as nat, 0, seq![]),
{
    let ghost names = views(groups@);
    let mut chosen: Vec<usize> = Vec::new();
    let mut i: usize = 0;
    while i < candidates.len() && chosen.len() != k && candidates[i].good
        invariant
            i <= candidates@.len(),
            names == views(groups@),
            choosable(candidates@, groups@.len() as int, similar@),
            chosen@.len() <= i,
            forall|j: int| 0 <= j < chosen@.len() ==> (#[trigger] chosen@[j]) < i,
            choose_from(candidates@, names, similar@, k as nat, i as int, chosen@) == choose_from(
                candidates@,
                names,
                similar@,
                k as nat,
                0,
                seq![],
            ),
        decreases candidates.len() - i,
    {
        let ghost row = similar@[i as int];
        let close = alike(&similar[i], &chosen);
        let mut group_count: usize = 0;
        let mut bw_count: usize = 0;
        let mut j: usize = 0;
        assert(chosen@.take(0) == Seq::<usize>::empty());
        while j < chosen.len()
            invariant
                j <= chosen@.len(),
                i < candidates@.len(),
                names == views(groups@),
                choosable(candidates@, groups@.len() as int, similar@),
                forall|m: int| 0 <= m < chosen@.len() ==> (#[trigger] chosen@[m]) < i,
                group_count <= j,
                bw_count <= j,
                group_count == same_group(candidates@, names, chosen@.take(j as int), i as int),
                bw_count == black_and_white(candidates@, chosen@.take(j as int)),
            decreases chosen.len() - j,
        {
            let other = candidates[chosen[j]];
            assert(chosen@.take(j + 1).drop_last() == chosen@.take(j as int));
            assert(chosen@.take(j + 1).last() == chosen@[j as int]);
            assert(names[candidates@[i as int].index as int] == groups@[candidates@[i as int].index as int]@);
            if text_eq(groups[other.index].as_str(), groups[candidates[i].index].as_str()) {
                group_count = group_count + 1;
            }
            if other.black_and_white {
                bw_count = bw_count + 1;
            }
            j = j + 1;
        }
        assert(chosen@.take(j as int) == chosen@);
        if !close && group_count < 3 && !(candidates[i].black_and_white && bw_count >= 2) {
            chosen.push(i);
        }
        i = i + 1;
    }
    chosen
}

/// What holds of the chosen candidates at every step: they stand in order, all are good enough, no
/// two look alike, no group has more than three and no more than two are black and white.
pub open spec fn fair(
    c: Seq<Candidate>,
    groups: Seq<Seq<char>>,
    similar: Seq<Vec<bool>>,
    chosen: Seq<usize>,
) -> bool {
    &&& forall|j: int| 0 <= j < chosen.len() ==> (#[trigger] chosen[j]) < c.len() && c[chosen[j] as int].good
    &&& forall|a: int, b: int|
        0 <= a < b < chosen.len() ==> (#[trigger] chosen[a]) < (#[trigger] chosen[b])
            && !similar[chosen[b] as int]@[chosen[a] as int]
    &&& forall|x: int| 0 <= x < c.len() ==> #[trigger] same_group(c, groups, chosen, x) <= 3
    &&& black_and_white(c, chosen) <= 2
}

proof fn lemma_same_group(
    c: Seq<Candidate>,
    groups: Seq<Seq<char>>,
    chosen: Seq<usize>,
    x: int,
    y: int,
)
    requires
        groups[c[x].index as int] == groups[c[y].index as int],
    ensures
        same_group(c, groups, chosen, x) == same_group(c, groups, chosen, y),
    decreases chosen.len(),
{
    if chosen.len() > 0 {
        lemma_same_group(c, groups, chosen.drop_last(), x, y);
    }
}

proof fn lemma_choose_from(
    c: Seq<Candidate>,
    groups: Seq<Seq<char>>,
    similar: Seq<Vec<bool>>,
    k: nat,
    i: int,
    chosen: Seq<usize>,
)
    requires
        0 <= i <= c.len() <= usize::MAX,
        chosen.len() <= k,
        fair(c, groups, similar, chosen),
        forall|j: int| 0 <= j < chosen.len() ==> (#[trigger] chosen[j]) < i,
    ensures
        choose_from(c, groups, similar, k, i, chosen).len() <= k,
        fair(c, groups, similar, choose_from(c, groups, similar, k, i, chosen)),
    decreases c.len() - i,
{
    if i >= c.len() || chosen.len() == k || !c[i].good {
    } else if admits(c, groups, similar, chosen, i) {
        let next = chosen.push(i as usize);
        assert(next.drop_last() == chosen);
        assert forall|x: int| 0 <= x < c.len() implies #[trigger] same_group(c, groups, next, x) <= 3 by {
            assert(same_group(c, groups, chosen, x) <= 3);
            if groups[c[x].index as int] == groups[c[i].index as int] {
                lemma_same_group(c, groups, chosen, x, i);
            }
        }
        assert forall|a: int, b: int| 0 <= a < b < next.len() implies (#[trigger] next[a]) < (
        #[trigger] next[b]) && !similar[next[b] as int]@[next[a] as int] by {
            if b == chosen.len() {
                assert(chosen[a] < i);
                assert(!similar[i]@[chosen[a] as int]);
            }
        }
        lemma_choose_from(c, groups, similar, k, i + 1, next);
    } else {
        lemma_choose_from(c, groups, similar, k, i + 1, chosen);
    }
}

/// However the candidates stand: no more than `k` are chosen, in the order of the candidates; all of
/// them are good enough; no two look alike; no more than three come from one group; and no more
/// than two are black and white.
pub proof fn law_choice_is_fair(
    c: Seq<Candidate>,
    groups: Seq<Seq<char>>,
    similar: Seq<Vec<bool>>,
    k: nat,
)
    requires
        choosable(c, groups.len() as int, similar),
        c.len() <= usize::MAX,
    ensures
        choose_from(c, groups, similar, k, 0, seq![]).len() <= k,
        fair(c, groups, similar, choose_from(c, groups, similar, k, 0, seq![])),
{
    lemma_choose_from(c, groups, similar, k, 0, seq![]);
}

/// The best candidate is always chosen, where it is good enough and one may be chosen at all.
pub proof fn law_best_is_chosen(
    c: Seq<Candidate>,
    groups: Seq<Seq<char>>,
    similar: Seq<Vec<bool>>,
    k: nat,
)
    requires
        choosable(c, groups.len() as int, similar),
        c.len() > 0,
        c[0].good,
        k > 0,
    ensures
        choose_from(c, groups, similar, k, 0, seq![]).len() > 0,
        choose_from(c, groups, similar, k, 0, seq![])[0] == 0,
{
    let none = Seq::<usize>::empty();
    assert(admits(c, groups, similar, none, 0));
    lemma_choice_keeps(c, groups, similar, k, 1, none.push(0));
}

proof fn lemma_choice_keeps(
    c: Seq<Candidate>,
    groups: Seq<Seq<char>>,
    similar: Seq<Vec<bool>>,
    k: nat,
    i: int,
    chosen: Seq<usize>,
)
    requires
        chosen.len() > 0,
    ensures
        choose_from(c, groups, similar, k, i, chosen).len() > 0,
        choose_from(c, groups, similar, k, i, chosen)[0] == chosen[0],
    decreases c.len() - i,
{
    if i < 0 || i >= c.len() || chosen.len() == k || !c[i].good {
    } else if admits(c, groups, similar, chosen, i) {
        lemma_choice_keeps(c, groups, similar, k, i + 1, chosen.push(i as usize));
    } else {
        lemma_choice_keeps(c, groups, similar, k, i + 1, chosen);
    }
}

/// A grid cell is never smaller than 8 pixels on a side.
pub proof fn law_cell_at_least_8(side: nat, longer: nat)
    ensures
        cell_side(side, longer) >= 8,
{
}

/// A grid cell is at most [`CELL_MAX`] pixels a side, and its longer side no more than a pixel shorter.
pub proof fn law_cells_fill_their_square(px: (u32, u32))
    requires
        px.0 > 0 || px.1 > 0,
    ensures
        ({
            let longer = larger(px.0 as nat, px.1 as nat);
            let (w, h) = (cell_side(px.0 as nat, longer), cell_side(px.1 as nat, longer));
            w <= CELL_MAX && h <= CELL_MAX && larger(w, h) >= CELL_MAX - 1
        }),
{
    let longer = larger(px.0 as nat, px.1 as nat);
    let s = ratio(CELL_MAX as nat, longer);
    crate::single::lemma_scaled_to(96, longer);
    assert forall|side: nat| side <= longer implies #[trigger] product(side, s) <= product(longer, s) by {
        lemma_rounded_monotone(side, longer);
        assert(rounded(side) * s <= rounded(longer) * s) by (nonlinear_arith)
            requires
                rounded(side) <= rounded(longer),
                s >= 0,
        ;
        lemma_rounded_monotone((rounded(side) * s) as nat, (rounded(longer) * s) as nat);
    }
    assert(product(px.0 as nat, s) <= product(longer, s));
    assert(product(px.1 as nat, s) <= product(longer, s));
}

/// Candidate `x` of the chosen ones comes from the group of candidate `i`.
pub open spec fn in_group(c: Seq<Candidate>, groups: Seq<Seq<char>>, x: int, i: int) -> bool {
    groups[c[x].index as int] == groups[c[i].index as int]
}

/// Three of the chosen candidates that stand before candidate `i` come from its group.
pub open spec fn group_is_full(c: Seq<Candidate>, groups: Seq<Seq<char>>, chosen: Seq<usize>, i: int) -> bool {
    exists|x: usize, y: usize, z: usize|
        {
            &&& x < y < z < i
            &&& #[trigger] chosen.contains(x) && #[trigger] chosen.contains(y) && #[trigger] chosen.contains(z)
            &&& in_group(c, groups, x as int, i) && in_group(c, groups, y as int, i) && in_group(
                c,
                groups,
                z as int,
                i,
            )
        }
}

/// Two of the chosen candidates that stand before candidate `i` are black and white.
pub open spec fn has_two_black_and_white(c: Seq<Candidate>, chosen: Seq<usize>, i: int) -> bool {
    exists|x: usize, y: usize|
        {
            &&& x < y < i
            &&& #[trigger] chosen.contains(x) && #[trigger] chosen.contains(y)
            &&& c[x as int].black_and_white && c[y as int].black_and_white
        }
}

/// One of the chosen candidates that stand before candidate `i` looks like it.
pub open spec fn has_a_double(similar: Seq<Vec<bool>>, chosen: Seq<usize>, i: int) -> bool {
    exists|x: usize| x < i && #[trigger] chosen.contains(x) && similar[i]@[x as int]
}

/// There is a reason not to choose candidate `i` beside those chosen before it.
pub open spec fn is_refused(
    c: Seq<Candidate>,
    groups: Seq<Seq<char>>,
    similar: Seq<Vec<bool>>,
    chosen: Seq<usize>,
    i: int,
) -> bool {
    ||| has_a_double(similar, chosen, i)
    ||| group_is_full(c, groups, chosen, i)
    ||| c[i].black_and_white && has_two_black_and_white(c, chosen, i)
}

/// Places that stand in order, each in a list of this length.
pub open spec fn are_places(pos: Seq<int>, len: nat) -> bool {
    &&& forall|a: int| 0 <= a < pos.len() ==> 0 <= #[trigger] pos[a] < len
    &&& forall|a: int, b: int| 0 <= a < b < pos.len() ==> #[trigger] pos[a] < #[trigger] pos[b]
}

/// Where `n` of the chosen candidates from the group of candidate `i` stand.
proof fn find_in_group(
    c: Seq<Candidate>,
    groups: Seq<Seq<char>>,
    chosen: Seq<usize>,
    i: int,
    n: nat,
) -> (pos: Seq<int>)
    requires
        same_group(c, groups, chosen, i) >= n,
    ensures
        pos.len() == n,
        are_places(pos, chosen.len()),
        forall|a: int| 0 <= a < n ==> in_group(c, groups, chosen[#[trigger] pos[a]] as int, i),
    decreases chosen.len(),
{
    if n == 0 {
        seq![]
    } else {
        let last = chosen.len() - 1;
        if in_group(c, groups, chosen.last() as int, i) {
            let before = find_in_group(c, groups, chosen.drop_last(), i, (n - 1) as nat);
            before.push(last)
        } else {
            find_in_group(c, groups, chosen.drop_last(), i, n)
        }
    }
}

/// Where `n` of the chosen candidates that are black and white stand.
proof fn find_black_and_white(c: Seq<Candidate>, chosen: Seq<usize>, n: nat) -> (pos: Seq<int>)
    requires
        black_and_white(c, chosen) >= n,
    ensures
        pos.len() == n,
        are_places(pos, chosen.len()),
        forall|a: int| 0 <= a < n ==> c[chosen[#[trigger] pos[a]] as int].black_and_white,
    decreases chosen.len(),
{
    if n == 0 {
        seq![]
    } else {
        let last = chosen.len() - 1;
        if c[chosen.last() as int].black_and_white {
            let before = find_black_and_white(c, chosen.drop_last(), (n - 1) as nat);
            before.push(last)
        } else {
            find_black_and_white(c, chosen.drop_last(), n)
        }
    }
}

proof fn lemma_group_counts(
    c: Seq<Candidate>,
    groups: Seq<Seq<char>>,
    chosen: Seq<usize>,
    i: int,
    pos: Seq<int>,
)
    requires
        are_places(pos, chosen.len()),
        forall|a: int| 0 <= a < pos.len() ==> in_group(c, groups, chosen[#[trigger] pos[a]] as int, i),
    ensures
        same_group(c, groups, chosen, i) >= pos.len(),
    decreases chosen.len(),
{
    if pos.len() > 0 {
        assert(0 <= pos[0] < chosen.len());
        let shorter = chosen.drop_last();
        if pos.last() == chosen.len() - 1 {
            let rest = pos.drop_last();
            assert forall|a: int| 0 <= a < rest.len() implies in_group(
                c,
                groups,
                shorter[#[trigger] rest[a]] as int,
                i,
            ) by {
                assert(pos[a] < pos[pos.len() - 1]);
                assert(in_group(c, groups, chosen[pos[a]] as int, i));
            }
            assert(in_group(c, groups, chosen[pos[pos.len() - 1]] as int, i));
            lemma_group_counts(c, groups, shorter, i, rest);
        } else {
            assert forall|a: int| 0 <= a < pos.len() implies 0 <= #[trigger] pos[a] < shorter.len() by {
                if a < pos.len() - 1 {
                    assert(pos[a] < pos[pos.len() - 1]);
                }
            }
            lemma_group_counts(c, groups, shorter, i, pos);
        }
    }
}

proof fn lemma_black_and_white_counts(c: Seq<Candidate>, chosen: Seq<usize>, pos: Seq<int>)
    requires
        are_places(pos, chosen.len()),
        forall|a: int| 0 <= a < pos.len() ==> c[chosen[#[trigger] pos[a]] as int].black_and_white,
    ensures
        black_and_white(c, chosen) >= pos.len(),
    decreases chosen.len(),
{
    if pos.len() > 0 {
        assert(0 <= pos[0] < chosen.len());
        let shorter = chosen.drop_last();
        if pos.last() == chosen.len() - 1 {
            let rest = pos.drop_last();
            assert forall|a: int| 0 <= a < rest.len() implies c[shorter[#[trigger] rest[a]] as int].black_and_white by {
                assert(pos[a] < pos[pos.len() - 1]);
                assert(c[chosen[pos[a]] as int].black_and_white);
            }
            assert(c[chosen[pos[pos.len() - 1]] as int].black_and_white);
            lemma_black_and_white_counts(c, shorter, rest);
        } else {
            assert forall|a: int| 0 <= a < pos.len() implies 0 <= #[trigger] pos[a] < shorter.len() by {
                if a < pos.len() - 1 {
                    assert(pos[a] < pos[pos.len() - 1]);
                }
            }
            lemma_black_and_white_counts(c, shorter, pos);
        }
    }
}

/// However the candidates stand, of those chosen no four come from one group and no three are black and
/// white, wherever among the chosen ones they stand.
pub proof fn law_choice_is_varied(
    c: Seq<Candidate>,
    groups: Seq<Seq<char>>,
    similar: Seq<Vec<bool>>,
    k: nat,
    pos: Seq<int>,
)
    requires
        choosable(c, groups.len() as int, similar),
        c.len() <= usize::MAX,
        are_places(pos, choose_from(c, groups, similar, k, 0, seq![]).len()),
        pos.len() > 0,
    ensures
        ({
            let r = choose_from(c, groups, similar, k, 0, seq![]);
            &&& (forall|a: int|
                0 <= a < pos.len() ==> in_group(c, groups, r[#[trigger] pos[a]] as int, r[pos[0]] as int))
                ==> pos.len() <= 3
            &&& (forall|a: int|
                0 <= a < pos.len() ==> c[r[#[trigger] pos[a]] as int].black_and_white) ==> pos.len() <= 2
        }),
{
    let r = choose_from(c, groups, similar, k, 0, seq![]);
    law_choice_is_fair(c, groups, similar, k);
    if forall|a: int|
        0 <= a < pos.len() ==> in_group(c, groups, r[#[trigger] pos[a]] as int, r[pos[0]] as int) {
        let x = r[pos[0]] as int;
        assert(0 <= x < c.len());
        lemma_group_counts(c, groups, r, x, pos);
        assert(same_group(c, groups, r, x) <= 3);
    }
    if forall|a: int| 0 <= a < pos.len() ==> c[r[#[trigger] pos[a]] as int].black_and_white {
        lemma_black_and_white_counts(c, r, pos);
    }
}

/// The choice goes on from what is chosen already, with candidates from `i` on; all of those up to one that is
/// chosen are good enough.
proof fn lemma_choice_goes_on(
    c: Seq<Candidate>,
    groups: Seq<Seq<char>>,
    similar: Seq<Vec<bool>>,
    k: nat,
    i: int,
    chosen: Seq<usize>,
)
    requires
        0 <= i,
        c.len() <= usize::MAX,
    ensures
        ({
            let r = choose_from(c, groups, similar, k, i, chosen);
            &&& r.len() >= chosen.len()
            &&& forall|a: int| 0 <= a < chosen.len() ==> #[trigger] r[a] == chosen[a]
            &&& forall|a: int| chosen.len() <= a < r.len() ==> i <= #[trigger] r[a] < c.len()
            &&& forall|a: int, x: int|
                chosen.len() <= a < r.len() && i <= x <= #[trigger] r[a] ==> (#[trigger] c[x]).good
        }),
    decreases c.len() - i,
{
    if i >= c.len() || chosen.len() == k || !c[i].good {
    } else {
        let next = if admits(c, groups, similar, chosen, i) {
            chosen.push(i as usize)
        } else {
            chosen
        };
        lemma_choice_goes_on(c, groups, similar, k, i + 1, next);
        let r = choose_from(c, groups, similar, k, i, chosen);
        assert(r == choose_from(c, groups, similar, k, i + 1, next));
        if next.len() > chosen.len() {
            assert(r[chosen.len() as int] == next[chosen.len() as int]);
        }
        assert forall|a: int| 0 <= a < chosen.len() implies #[trigger] r[a] == chosen[a] by {
            assert(r[a] == next[a]);
        }
        assert forall|a: int, x: int|
            chosen.len() <= a < r.len() && i <= x <= #[trigger] r[a] implies (#[trigger] c[x]).good by {
            if x > i {
                assert(a >= next.len());
            }
        }
    }
}

proof fn lemma_choice_is_maximal(
    c: Seq<Candidate>,
    groups: Seq<Seq<char>>,
    similar: Seq<Vec<bool>>,
    k: nat,
    i: int,
    chosen: Seq<usize>,
    x: int,
)
    requires
        0 <= i <= x < c.len() <= usize::MAX,
        forall|j: int| i <= j <= x ==> (#[trigger] c[j]).good,
        forall|a: int| 0 <= a < chosen.len() ==> (#[trigger] chosen[a]) < i,
        forall|a: int, b: int| 0 <= a < b < chosen.len() ==> (#[trigger] chosen[a]) < (#[trigger] chosen[b]),
        ({
            let r = choose_from(c, groups, similar, k, i, chosen);
            !r.contains(x as usize) && (r.len() < k || (r.len() > 0 && x < r.last()))
        }),
    ensures
        is_refused(c, groups, similar, choose_from(c, groups, similar, k, i, chosen), x),
    decreases c.len() - i,
{
    let r = choose_from(c, groups, similar, k, i, chosen);
    lemma_choice_goes_on(c, groups, similar, k, i, chosen);
    if chosen.len() == k {
        assert(r == chosen);
        assert(false);
    }
    let admitted = admits(c, groups, similar, chosen, i);
    let next = if admitted {
        chosen.push(i as usize)
    } else {
        chosen
    };
    assert(r == choose_from(c, groups, similar, k, i + 1, next));
    if x > i {
        lemma_choice_is_maximal(c, groups, similar, k, i + 1, next, x);
    } else if admitted {
        lemma_choice_goes_on(c, groups, similar, k, i + 1, next);
        assert(r[chosen.len() as int] == next[chosen.len() as int]);
        assert(r.contains(x as usize));
    } else {
        assert forall|a: int| 0 <= a < chosen.len() implies r.contains(#[trigger] chosen[a]) by {
            assert(r[a] == chosen[a]);
        }
        if looks_alike(similar, chosen, i) {
            let a = choose|a: int| 0 <= a < chosen.len() && similar[i]@[(#[trigger] chosen[a]) as int];
            assert(r.contains(chosen[a]));
            assert(has_a_double(similar, r, x));
        } else if same_group(c, groups, chosen, i) >= 3 {
            let pos = find_in_group(c, groups, chosen, i, 3);
            let (p, q, s) = (chosen[pos[0]], chosen[pos[1]], chosen[pos[2]]);
            assert(pos[0] < pos[1] && pos[1] < pos[2]);
            assert(p < q && q < s && s < i);
            assert(r.contains(p) && r.contains(q) && r.contains(s));
            assert(group_is_full(c, groups, r, x));
        } else {
            let pos = find_black_and_white(c, chosen, 2);
            let (p, q) = (chosen[pos[0]], chosen[pos[1]]);
            assert(pos[0] < pos[1]);
            assert(p < q && q < i);
            assert(r.contains(p) && r.contains(q));
            assert(has_two_black_and_white(c, r, x));
        }
    }
}

/// The choice is maximal. A candidate that is left out, though it and all before it are good enough, is left
/// out for a reason: one chosen before it looks like it, or three chosen before it come from its group, or it
/// is black and white and so are two chosen before it. Only where `k` are chosen do those behind the last
/// of them need no reason.
pub proof fn law_choice_is_maximal(
    c: Seq<Candidate>,
    groups: Seq<Seq<char>>,
    similar: Seq<Vec<bool>>,
    k: nat,
    x: int,
)
    requires
        choosable(c, groups.len() as int, similar),
        0 <= x < c.len() <= usize::MAX,
        forall|j: int| 0 <= j <= x ==> (#[trigger] c[j]).good,
        ({
            let r = choose_from(c, groups, similar, k, 0, seq![]);
            !r.contains(x as usize) && (r.len() < k || (r.len() > 0 && x < r.last()))
        }),
    ensures
        is_refused(c, groups, similar, choose_from(c, groups, similar, k, 0, seq![]), x),
{
    lemma_choice_is_maximal(c, groups, similar, k, 0, seq![], x);
}

/// Nothing behind a candidate that is not good enough is chosen.
pub proof fn law_choice_ends_with_the_good(
    c: Seq<Candidate>,
    groups: Seq<Seq<char>>,
    similar: Seq<Vec<bool>>,
    k: nat,
    a: int,
    x: int,
)
    requires
        choosable(c, groups.len() as int, similar),
        c.len() <= usize::MAX,
        0 <= a < choose_from(c, groups, similar, k, 0, seq![]).len(),
        0 <= x <= choose_from(c, groups, similar, k, 0, seq![])[a],
    ensures
        c[x].good,
{
    lemma_choice_goes_on(c, groups, similar, k, 0, seq![]);
}

/// No chosen candidate is one that there is a reason to refuse.
pub proof fn law_chosen_are_not_refused(
    c: Seq<Candidate>,
    groups: Seq<Seq<char>>,
    similar: Seq<Vec<bool>>,
    k: nat,
    a: int,
)
    requires
        choosable(c, groups.len() as int, similar),
        c.len() <= usize::MAX,
        0 <= a < choose_from(c, groups, similar, k, 0, seq![]).len(),
    ensures
        ({
            let r = choose_from(c, groups, similar, k, 0, seq![]);
            !is_refused(c, groups, similar, r, r[a] as int)
        }),
{
    let r = choose_from(c, groups, similar, k, 0, seq![]);
    law_choice_is_fair(c, groups, similar, k);
    let x = r[a] as int;
    if has_a_double(similar, r, x) {
        let y = choose|y: usize| y < x && #[trigger] r.contains(y) && similar[x]@[y as int];
        let b = r.index_of(y);
        assert(b < a) by {
            if b > a {
                assert(r[a] < r[b]);
            }
        }
        assert(!similar[r[a] as int]@[r[b] as int]);
    }
    if group_is_full(c, groups, r, x) {
        let (p, q, s) = choose|p: usize, q: usize, s: usize|
            {
                &&& p < q < s < x
                &&& #[trigger] r.contains(p) && #[trigger] r.contains(q) && #[trigger] r.contains(s)
                &&& in_group(c, groups, p as int, x) && in_group(c, groups, q as int, x) && in_group(
                    c,
                    groups,
                    s as int,
                    x,
                )
            };
        let pos = seq![r.index_of(p), r.index_of(q), r.index_of(s), a];
        lemma_index_order(r, p, q);
        lemma_index_order(r, q, s);
        lemma_index_order(r, s, r[a]);
        assert(pos[3] == r.index_of(r[a])) by {
            lemma_index_order(r, r[a], r[a]);
        }
        lemma_group_counts(c, groups, r, x, pos);
        assert(same_group(c, groups, r, x) <= 3);
    }
    if c[x].black_and_white && has_two_black_and_white(c, r, x) {
        let (p, q) = choose|p: usize, q: usize|
            {
                &&& p < q < x
                &&& #[trigger] r.contains(p) && #[trigger] r.contains(q)
                &&& c[p as int].black_and_white && c[q as int].black_and_white
            };
        let pos = seq![r.index_of(p), r.index_of(q), a];
        lemma_index_order(r, p, q);
        lemma_index_order(r, q, r[a]);
        assert(pos[2] == r.index_of(r[a])) by {
            lemma_index_order(r, r[a], r[a]);
        }
        lemma_black_and_white_counts(c, r, pos);
    }
}

/// In a list in ascending order the smaller number stands first, and each in one place only.
proof fn lemma_index_order(r: Seq<usize>, p: usize, q: usize)
    requires
        forall|a: int, b: int| 0 <= a < b < r.len() ==> (#[trigger] r[a]) < (#[trigger] r[b]),
        r.contains(p),
        r.contains(q),
        p <= q,
    ensures
        0 <= r.index_of(p) < r.len(),
        r[r.index_of(p)] == p,
        p < q ==> r.index_of(p) < r.index_of(q),
        forall|a: int| 0 <= a < r.len() && #[trigger] r[a] == p ==> a == r.index_of(p),
{
    let (i, j) = (r.index_of(p), r.index_of(q));
    if p < q && i > j {
        assert(r[j] < r[i]);
    }
    assert forall|a: int| 0 <= a < r.len() && #[trigger] r[a] == p implies a == i by {
        if a < i {
            assert(r[a] < r[i]);
        } else if i < a {
            assert(r[i] < r[a]);
        }
    }
}

/// What was found says so.
pub open spec fn is_found(f: Findings, r: Reason) -> bool {
    match r {
        Reason::BlackAndWhite => f.gray,
        Reason::NaturalSkinTones => f.some_skin && f.much_skin && f.skin_kept && !f.gray,
        Reason::BrightensDarkPhoto => f.brightens,
        Reason::AddsDepth => f.adds_depth,
        Reason::LivensColours => f.livens,
        Reason::KeepsHighlights => f.keeps_highlights,
        Reason::KeepsShadows => f.keeps_shadows,
    }
}

/// How specific a reason is: what the look is comes before what it does for the photo, and that before what it
/// leaves alone.
pub open spec fn specific(r: Reason) -> int {
    match r {
        Reason::BlackAndWhite => 0,
        Reason::NaturalSkinTones => 1,
        Reason::BrightensDarkPhoto => 2,
        Reason::AddsDepth => 3,
        Reason::LivensColours => 4,
        Reason::KeepsHighlights => 5,
        Reason::KeepsShadows => 6,
    }
}

/// The reasons among a list from one on that were found, in order.
pub open spec fn found_from(f: Findings, n: int) -> Seq<Reason>
    decreases 7 - n,
{
    if n >= 7 {
        seq![]
    } else {
        given(is_found(f, reason_at(n)), reason_at(n)) + found_from(f, n + 1)
    }
}

/// The reasons in order, the most specific first.
pub open spec fn reason_at(n: int) -> Reason {
    if n <= 0 {
        Reason::BlackAndWhite
    } else if n == 1 {
        Reason::NaturalSkinTones
    } else if n == 2 {
        Reason::BrightensDarkPhoto
    } else if n == 3 {
        Reason::AddsDepth
    } else if n == 4 {
        Reason::LivensColours
    } else if n == 5 {
        Reason::KeepsHighlights
    } else {
        Reason::KeepsShadows
    }
}

proof fn lemma_found_from(f: Findings, n: int, x: Reason)
    requires
        0 <= n <= 7,
    ensures
        ({
            let s = found_from(f, n);
            &&& forall|i: int| 0 <= i < s.len() ==> is_found(f, #[trigger] s[i]) && n <= specific(s[i]) < 7
            &&& forall|i: int, j: int|
                0 <= i < j < s.len() ==> specific(#[trigger] s[i]) < specific(#[trigger] s[j])
            &&& is_found(f, x) && specific(x) >= n ==> s.contains(x)
        }),
    decreases 7 - n,
{
    if n < 7 {
        let r = reason_at(n);
        assert(specific(r) == n);
        let rest = found_from(f, n + 1);
        lemma_found_from(f, n + 1, x);
        let s = found_from(f, n);
        let k = given(is_found(f, r), r).len() as int;
        assert forall|i: int| 0 <= i < s.len() implies is_found(f, #[trigger] s[i]) && n <= specific(s[i]) < 7 by {
            if i >= k {
                assert(s[i] == rest[i - k]);
            }
        }
        assert forall|i: int, j: int| 0 <= i < j < s.len() implies specific(#[trigger] s[i]) < specific(
            #[trigger] s[j],
        ) by {
            assert(s[j] == rest[j - k]);
            if i >= k {
                assert(s[i] == rest[i - k]);
            }
        }
        if is_found(f, x) && specific(x) >= n {
            if specific(x) == n {
                assert(x == r);
                assert(s[0] == x);
            } else {
                let i = rest.index_of(x);
                assert(s[i + k] == x);
            }
        }
    }
}

proof fn lemma_joined(a: Seq<Reason>, b: Seq<Reason>, c: Seq<Reason>)
    ensures
        a + (b + c) == (a + b) + c,
{
    assert(a + (b + c) =~= (a + b) + c);
}

proof fn lemma_all_are_found(f: Findings)
    ensures
        all_reasons(f) == found_from(f, 0),
{
    let g0 = given(is_found(f, reason_at(0)), reason_at(0));
    let g1 = given(is_found(f, reason_at(1)), reason_at(1));
    let g2 = given(is_found(f, reason_at(2)), reason_at(2));
    let g3 = given(is_found(f, reason_at(3)), reason_at(3));
    let g4 = given(is_found(f, reason_at(4)), reason_at(4));
    let g5 = given(is_found(f, reason_at(5)), reason_at(5));
    let g6 = given(is_found(f, reason_at(6)), reason_at(6));
    let f6 = found_from(f, 6);
    let f5 = found_from(f, 5);
    let f4 = found_from(f, 4);
    let f3 = found_from(f, 3);
    let f2 = found_from(f, 2);
    let f1 = found_from(f, 1);
    assert(found_from(f, 7) == Seq::<Reason>::empty());
    assert(f6 =~= g6);
    assert(found_from(f, 0) == g0 + f1);
    lemma_joined(g0, g1, f2);
    let h1 = g0 + g1;
    lemma_joined(h1, g2, f3);
    let h2 = h1 + g2;
    lemma_joined(h2, g3, f4);
    let h3 = h2 + g3;
    lemma_joined(h3, g4, f5);
    let h4 = h3 + g4;
    lemma_joined(h4, g5, f6);
    let h5 = h4 + g5;
    assert(all_reasons(f) == h5 + g6);
}

/// The reasons that are given hold, none twice and no more than two, the more specific one first; and where a
/// reason holds but is not given, two are given that are more specific.
pub proof fn law_reasons_hold(f: Findings, x: Reason)
    ensures
        ({
            let r = first_two(all_reasons(f));
            &&& r.len() <= 2
            &&& forall|i: int| 0 <= i < r.len() ==> is_found(f, #[trigger] r[i])
            &&& r.len() == 2 ==> specific(r[0]) < specific(r[1])
            &&& is_found(f, x) ==> r.contains(x) || (r.len() == 2 && specific(r[1]) < specific(x))
        }),
{
    let all = all_reasons(f);
    lemma_all_are_found(f);
    lemma_found_from(f, 0, x);
    let r = first_two(all);
    if is_found(f, x) && !r.contains(x) {
        let i = all.index_of(x);
        if i < 2 {
            assert(r[i] == x);
        } else {
            assert(specific(all[1]) < specific(all[i]));
        }
    }
}

/// A picture is not apart from itself, and two pictures are as far apart either way. They are not apart at all
/// exactly where every red, green and blue is the same.
pub proof fn law_difference_is_a_distance(a: Seq<u8>, b: Seq<u8>, n: nat)
    ensures
        total_distance(a, b, n) == total_distance(b, a, n),
        total_distance(a, b, n) == 0 <==> (forall|k: int, c: int|
            0 <= k < n && 0 <= c < 3 ==> #[trigger] a[4 * k + c] == b[4 * k + c]),
    decreases n,
{
    if n > 0 {
        let m = (n - 1) as nat;
        law_difference_is_a_distance(a, b, m);
        let k = n - 1;
        if total_distance(a, b, n) == 0 {
            assert forall|j: int, c: int| 0 <= j < n && 0 <= c < 3 implies #[trigger] a[4 * j + c] == b[4 * j + c] by {
                if j == k {
                    assert(c == 0 || c == 1 || c == 2);
                }
            }
        }
        if forall|j: int, c: int| 0 <= j < n && 0 <= c < 3 ==> #[trigger] a[4 * j + c] == b[4 * j + c] {
            assert(a[4 * k + 0] == b[4 * k + 0] && a[4 * k + 1] == b[4 * k + 1] && a[4 * k + 2] == b[4 * k + 2]);
        }
    }
}

/// Changing one sample by some amount moves a picture by that amount from what it was.
pub proof fn law_difference_adds_up(a: Seq<u8>, n: nat, k: int, c: int, v: u8)
    requires
        0 <= k < n,
        4 * n <= a.len(),
        0 <= c < 3,
    ensures
        total_distance(a, a.update(4 * k + c, v), n) == distance(a[4 * k + c] as nat, v as nat),
    decreases n,
{
    let b = a.update(4 * k + c, v);
    let last = n - 1;
    if k < last {
        law_difference_adds_up(a, (n - 1) as nat, k, c, v);
    } else {
        lemma_no_distance(a, b, (n - 1) as nat);
        assert(c == 0 || c == 1 || c == 2);
    }
}

proof fn lemma_no_distance(a: Seq<u8>, b: Seq<u8>, n: nat)
    requires
        forall|j: int| 0 <= j < 4 * n ==> #[trigger] a[j] == b[j],
    ensures
        total_distance(a, b, n) == 0,
    decreases n,
{
    if n > 0 {
        lemma_no_distance(a, b, (n - 1) as nat);
    }
}

/// A pixel counts as clipped at the top where one of its channels is at 253 or above, and at the bottom where all
/// are at 5 or below; every pixel counts once at most.
pub proof fn law_clipping_counts_pixels(px: Seq<u8>, n: nat)
    ensures
        count_high(px, n + 1) == count_high(px, n) + if exists|c: int| 0 <= c < 3 && #[trigger] px[4 * n + c] >= 253 {
            1int
        } else {
            0
        },
        count_low(px, n + 1) == count_low(px, n) + if forall|c: int| 0 <= c < 3 ==> #[trigger] px[4 * n + c] <= 5 {
            1int
        } else {
            0
        },
        count_high(px, 0) == 0 && count_low(px, 0) == 0,
        count_high(px, n) + count_low(px, n) <= n,
    decreases n,
{
    let k = n as int;
    let (r, g, b) = (px[4 * k + 0], px[4 * k + 1], px[4 * k + 2]);
    if r >= 253 {
        assert(px[4 * k + 0] >= 253);
    } else if g >= 253 {
        assert(px[4 * k + 1] >= 253);
    } else if b >= 253 {
        assert(px[4 * k + 2] >= 253);
    }
    if brightest(px, k) <= 5 {
        assert forall|c: int| 0 <= c < 3 implies #[trigger] px[4 * n + c] <= 5 by {}
    } else if forall|c: int| 0 <= c < 3 ==> #[trigger] px[4 * n + c] <= 5 {
        assert(px[4 * k + 0] <= 5 && px[4 * k + 1] <= 5 && px[4 * k + 2] <= 5);
    }
    if n > 0 {
        law_clipping_counts_pixels(px, (n - 1) as nat);
    }
}

/// The measures that skin is told by are those of the usual colour transform, to a ten-thousandth.
pub proof fn law_skin_measures(r: nat, g: nat, b: nat)
    requires
        r <= 255,
        g <= 255,
        b <= 255,
    ensures
        -(UNIT as int) <= 10000 * luma(r, g, b) - 10 * (299 * r + 587 * g + 114 * b) * UNIT <= UNIT,
        -(UNIT as int) <= 10000 * redness(r, g, b) - (1280000 + 5000 * r) * UNIT + (418688 * g + 81312 * b) * UNIT / 100
            <= UNIT,
        -(UNIT as int) <= 10000 * blueness(r, g, b) - (1280000 + 5000 * b) * UNIT + (168736 * r + 331264 * g) * UNIT
            / 100 <= UNIT,
{
    lemma_rounded_bound(LUMA_R as nat * r);
    lemma_rounded_bound(LUMA_G as nat * g);
    lemma_rounded_bound(LUMA_B as nat * b);
    let y1 = rounded(LUMA_R as nat * r) + rounded(LUMA_G as nat * g);
    lemma_rounded_bound(y1);
    lemma_rounded_bound(rounded(y1) + rounded(LUMA_B as nat * b));
    lemma_rounded_bound(CB_R as nat * r);
    lemma_rounded_bound(CB_G as nat * g);
    lemma_rounded_bound(HALF as nat * b);
    let x1 = (128 * UNIT - rounded(CB_R as nat * r)) as nat;
    lemma_rounded_bound(x1);
    let x2 = (rounded(x1) - rounded(CB_G as nat * g)) as nat;
    lemma_rounded_bound(x2);
    lemma_rounded_bound(rounded(x2) + rounded(HALF as nat * b));
    lemma_rounded_bound(HALF as nat * r);
    lemma_rounded_bound(CR_G as nat * g);
    lemma_rounded_bound(CR_B as nat * b);
    let z1 = (128 * UNIT + rounded(HALF as nat * r)) as nat;
    lemma_rounded_bound(z1);
    let z2 = (rounded(z1) - rounded(CR_G as nat * g)) as nat;
    lemma_rounded_bound(z2);
    lemma_rounded_bound((rounded(z2) - rounded(CR_B as nat * b)) as nat);
}

/// Grey is not the colour of skin.
pub proof fn law_grey_is_no_skin(v: nat)
    requires
        v <= 255,
    ensures
        !skin_rule(v, v, v),
{
    law_skin_measures(v, v, v);
}

/// The pixels of a cell are those of the grid that lie where the cell lies: pixel (x, y) of cell `i` is the one `x` across
/// and `y` down from the cell's corner.
pub proof fn law_cell_shows_its_part_of_the_grid(
    rgba: Seq<u8>,
    width: int,
    cell: (int, int),
    cols: int,
    i: int,
    x: int,
    y: int,
    c: int,
)
    requires
        0 <= width,
        0 <= i,
        0 <= x < cell.0,
        0 <= y < cell.1,
        0 <= c < 4,
        cell_fits(rgba.len() as int, width, cell, cols, i),
    ensures
        cell_of(rgba, width, cell, cols, i)[(y * cell.0 + x) * 4 + c] == rgba[(((i / cols) * cell.1 + y) * width + (i
            % cols) * cell.0 + x) * 4 + c],
{
    lemma_cell_fits(rgba.len() as int, width, cell, cols, i);
    let start = cell_start(width, cell, cols, i);
    let (w, h) = cell;
    crate::pixels::law_rows_hold_their_bytes(rgba, start, width * 4, w * 4, h as nat, y, 4 * x + c);
    let (down, across) = (i / cols, i % cols);
    assert(y * (w * 4) + (4 * x + c) == (y * w + x) * 4 + c) by (nonlinear_arith);
    assert((down * h * width + across * w) * 4 + y * (width * 4) + (4 * x + c) == ((down * h + y) * width + across * w
        + x) * 4 + c) by (nonlinear_arith);
}

} // verus!
