//! The layout of what goes to the GPU and comes back: mip chains, padded rows and preset grids.

use crate::loader::{Decoded, Pixels};
use crate::pixels::{rows, take_rows};
use vstd::prelude::*;

verus! {

/// The number of binary digits of `n`.
pub open spec fn bit_count(n: nat) -> nat
    decreases n,
{
    if n == 0 {
        0
    } else {
        1 + bit_count(n / 2)
    }
}

/// Halving a size once for each level but the first leaves one pixel: the chain of mip levels is whole.
pub proof fn law_last_mip_is_one_pixel(n: nat)
    requires
        n > 0,
    ensures
        n / vstd::arithmetic::power2::pow2((bit_count(n) - 1) as nat) == 1,
    decreases n,
{
    let k = (bit_count(n) - 1) as nat;
    if n / 2 > 0 {
        law_last_mip_is_one_pixel(n / 2);
        let below = (k - 1) as nat;
        vstd::arithmetic::power2::lemma_pow2_pos(below);
        vstd::arithmetic::power2::lemma_pow2_unfold(k);
        vstd::arithmetic::div_mod::lemma_div_denominator(
            n as int,
            2,
            vstd::arithmetic::power2::pow2(below) as int,
        );
        let p = vstd::arithmetic::power2::pow2(below);
        assert(below == bit_count(n / 2) - 1);
        assert((n / 2) / p == 1);
        assert(vstd::arithmetic::power2::pow2(k) == 2 * p);
        assert((n as int / 2) / (p as int) == n as int / (2 * p as int));
        assert(n / (2 * p) == 1);
    } else {
        vstd::arithmetic::power2::lemma2_to64();
        assert(n == 1);
        assert(bit_count(0) == 0);
        assert(bit_count(1) == 1 + bit_count(0));
        assert(k == 0);
        assert(1nat / 1nat == 1);
    }
}

/// A number below a power of two has no more digits than its exponent.
proof fn lemma_bit_count(n: nat, k: nat)
    requires
        n < vstd::arithmetic::power2::pow2(k),
    ensures
        bit_count(n) <= k,
    decreases k,
{
    vstd::arithmetic::power2::lemma2_to64();
    if k > 0 {
        vstd::arithmetic::power2::lemma_pow2_unfold(k);
        lemma_bit_count(n / 2, (k - 1) as nat);
    }
}

/// The number of mip levels of a full chain: each level is half of the one before, down to a pixel.
pub fn mip_levels(width: u32, height: u32) -> (r: u32)
    ensures
        r == bit_count(
            if width >= height {
                width as nat
            } else {
                height as nat
            },
        ),
        r <= 32,
{
    let mut n: u32 = if width >= height {
        width
    } else {
        height
    };
    let ghost longer = n as nat;
    proof {
        vstd::arithmetic::power2::lemma2_to64();
        lemma_bit_count(longer, 32);
    }
    let mut levels: u32 = 0;
    while n > 0
        invariant
            levels + bit_count(n as nat) == bit_count(longer),
            bit_count(longer) <= 32,
        decreases n,
    {
        n = n / 2;
        levels = levels + 1;
    }
    levels
}

/// How the pixels of a photo are uploaded.
#[derive(Clone, Copy, PartialEq, Eq, Debug, Structural)]
pub struct Upload {
    /// The pixels are linear with 16 bits a channel, else sRGB with 8.
    pub half: bool,
    pub bytes_per_row: u32,
    pub mips: u32,
}

/// The bytes of a pixel.
pub open spec fn pixel_bytes(p: Pixels) -> int {
    match p {
        Pixels::Srgb8(_) => 4,
        Pixels::LinearF16(_) => 8,
    }
}

/// How the pixels of a photo are uploaded.
pub fn upload(img: &Decoded) -> (r: Upload)
    requires
        img.width * pixel_bytes(img.pixels) <= u32::MAX,
    ensures
        r.half == (img.pixels is LinearF16),
        r.bytes_per_row == img.width * pixel_bytes(img.pixels),
        r.mips == bit_count(
            if img.width >= img.height {
                img.width as nat
            } else {
                img.height as nat
            },
        ),
{
    let mips: u32 = mip_levels(img.width, img.height);
    match &img.pixels {
        Pixels::Srgb8(_) => Upload { half: false, bytes_per_row: img.width * 4, mips },
        Pixels::LinearF16(_) => Upload { half: true, bytes_per_row: img.width * 8, mips },
    }
}

/// The bytes of 16-bit numbers, low byte first.
pub open spec fn low_first(v: Seq<u16>) -> Seq<u8> {
    Seq::new(
        2 * v.len(),
        |i: int|
            if i % 2 == 0 {
                (v[i / 2] % 256) as u8
            } else {
                (v[i / 2] / 256) as u8
            },
    )
}

/// The bytes of 16-bit numbers, high byte first.
pub open spec fn high_first(v: Seq<u16>) -> Seq<u8> {
    Seq::new(
        2 * v.len(),
        |i: int|
            if i % 2 == 0 {
                (v[i / 2] / 256) as u8
            } else {
                (v[i / 2] % 256) as u8
            },
    )
}

/// `bytemuck::cast_slice` of 16-bit numbers: their bytes, in the order of the machine.
#[verifier::external_body]
fn bytes_of_halves(v: &[u16]) -> (r: Vec<u8>)
    ensures
        r@ == low_first(v@) || r@ == high_first(v@),
{
    bytemuck::cast_slice(v).to_vec()
}

/// The bytes to upload for the pixels of a photo.
pub fn upload_bytes(p: &Pixels) -> (r: Vec<u8>)
    ensures
        match p {
            Pixels::Srgb8(v) => r@ == v@,
            Pixels::LinearF16(v) => r@ == low_first(v@) || r@ == high_first(v@),
        },
{
    match p {
        Pixels::Srgb8(v) => {
            let mut out: Vec<u8> = Vec::new();
            out.extend_from_slice(v);
            assert(out@ =~= v@);
            out
        },
        Pixels::LinearF16(v) => bytes_of_halves(v),
    }
}

// ---------------------------------------------------------------------------------------------
// Reading back
// ---------------------------------------------------------------------------------------------

/// Rows of a copy from a texture begin at multiples of this many bytes.
pub const ROW_ALIGNMENT: u32 = 256;

/// The bytes of a row of `width` RGBA pixels, padded.
pub open spec fn padded_row_of(width: int) -> int {
    ((width * 4 + ROW_ALIGNMENT - 1) / ROW_ALIGNMENT as int) * ROW_ALIGNMENT
}

/// The bytes of a row of `width` RGBA pixels, padded.
pub fn padded_row(width: u32) -> (r: u32)
    requires
        padded_row_of(width as int) <= u32::MAX,
    ensures
        r == padded_row_of(width as int),
        r >= width * 4,
        r % ROW_ALIGNMENT == 0,
{
    let n: u64 = (width as u64 * 4 + 255) / 256 * 256;
    n as u32
}

/// RGBA as RGB: every fourth byte is left out.
pub open spec fn without_alpha(rgba: Seq<u8>) -> Seq<u8> {
    Seq::new(((rgba.len() / 4) * 3) as nat, |i: int| rgba[(i / 3) * 4 + i % 3])
}

/// RGBA as RGB: every fourth byte is left out.
pub fn drop_alpha(rgba: &[u8]) -> (r: Vec<u8>)
    ensures
        r@ == without_alpha(rgba@),
{
    let n: usize = rgba.len() / 4;
    let mut out: Vec<u8> = Vec::new();
    let mut k: usize = 0;
    while k < n
        invariant
            n == rgba@.len() / 4,
            n <= usize::MAX / 4,
            k <= n,
            out@.len() == 3 * k,
            forall|i: int| 0 <= i < 3 * k ==> (#[trigger] out@[i]) == rgba@[(i / 3) * 4 + i % 3],
        decreases n - k,
    {
        let ghost before = out@;
        out.push(rgba[4 * k]);
        out.push(rgba[4 * k + 1]);
        out.push(rgba[4 * k + 2]);
        assert forall|i: int| 0 <= i < 3 * (k + 1) implies (#[trigger] out@[i]) == rgba@[(i / 3) * 4 + i
            % 3] by {
            if i < 3 * k {
                assert(out@[i] == before[i]);
            } else {
                assert(i / 3 == k);
            }
        }
        k = k + 1;
    }
    assert(out@ =~= without_alpha(rgba@));
    out
}

/// The tightly packed RGBA pixels of a copy with padded rows: all whole rows that it has.
pub fn unpad(data: &[u8], padded: usize, width: u32) -> (r: Vec<u8>)
    requires
        padded > 0,
        width * 4 <= padded,
    ensures
        r@ == rows(data@, 0, padded as int, width * 4, (data@.len() / padded as nat) as nat),
{
    let n: usize = data.len() / padded;
    assert(n > 0 ==> (n - 1) * padded + width * 4 <= data@.len()) by (nonlinear_arith)
        requires
            n == data@.len() / padded as nat,
            width * 4 <= padded,
            padded > 0,
    ;
    take_rows(data, 0, padded, width as usize * 4, n)
}

/// The RGB pixels of a copy with padded rows.
pub fn unpad_rgb(data: &[u8], padded: usize, width: u32) -> (r: Vec<u8>)
    requires
        padded > 0,
        width * 4 <= padded,
    ensures
        r@ == without_alpha(
            rows(data@, 0, padded as int, width * 4, (data@.len() / padded as nat) as nat),
        ),
{
    let rgba = unpad(data, padded, width);
    drop_alpha(&rgba)
}

/// Adding an opaque alpha and leaving it out again gives back the pixels.
pub proof fn law_alpha_round_trip(rgb: Seq<u8>)
    requires
        rgb.len() % 3 == 0,
    ensures
        without_alpha(crate::loader::with_alpha(rgb)) == rgb,
{
    let rgba = crate::loader::with_alpha(rgb);
    assert(without_alpha(rgba).len() == rgb.len());
    assert forall|i: int| 0 <= i < rgb.len() implies without_alpha(rgba)[i] == rgb[i] by {
        let j = (i / 3) * 4 + i % 3;
        assert(j / 4 == i / 3 && j % 4 == i % 3);
    }
    assert(without_alpha(rgba) =~= rgb);
}

// ---------------------------------------------------------------------------------------------
// Grids
// ---------------------------------------------------------------------------------------------

/// The size of a grid of `count` cells, `cols` to a row.
pub open spec fn grid_size_of(cell: (int, int), cols: int, count: int) -> (int, int) {
    (cell.0 * cols, cell.1 * ((count + cols - 1) / cols))
}

/// The size in pixels of a grid of `count` cells, `cols` to a row.
pub fn grid_size(cell: (u32, u32), cols: u32, count: u32) -> (r: (u32, u32))
    requires
        cols > 0,
        grid_size_of((cell.0 as int, cell.1 as int), cols as int, count as int).0 <= u32::MAX,
        grid_size_of((cell.0 as int, cell.1 as int), cols as int, count as int).1 <= u32::MAX,
    ensures
        (r.0 as int, r.1 as int) == grid_size_of(
            (cell.0 as int, cell.1 as int),
            cols as int,
            count as int,
        ),
{
    let down: u64 = (count as u64 + cols as u64 - 1) / cols as u64;
    assert(down <= 0x1_ffff_ffff) by (nonlinear_arith)
        requires
            down == (count as u64 + cols as u64 - 1) / cols as int,
            cols > 0,
            count <= 0xffff_ffff,
            cols <= 0xffff_ffff,
    ;
    assert(0 <= cell.1 * down && cell.0 * cols >= 0) by (nonlinear_arith);
    let h: u128 = cell.1 as u128 * down as u128;
    (cell.0 * cols, h as u32)
}

/// Where cell `i` of a grid lies.
pub fn cell_position(cell: (u32, u32), cols: u32, i: u32) -> (r: (u32, u32))
    requires
        cols > 0,
        (i % cols) * cell.0 <= u32::MAX,
        (i / cols) * cell.1 <= u32::MAX,
    ensures
        r.0 == (i % cols) * cell.0,
        r.1 == (i / cols) * cell.1,
{
    assert(0 <= (i % cols) * cell.0 && 0 <= (i / cols) * cell.1) by (nonlinear_arith)
        requires
            cols > 0,
    ;
    ((i % cols) * cell.0, (i / cols) * cell.1)
}

/// Every cell of a grid lies within it, so that all of it can be rendered and read back.
pub proof fn law_cells_lie_in_grid(cell: (int, int), cols: int, count: int, i: int)
    requires
        cols > 0,
        0 <= cell.0,
        0 <= cell.1,
        0 <= i < count,
    ensures
        (i % cols) * cell.0 + cell.0 <= grid_size_of(cell, cols, count).0,
        (i / cols) * cell.1 + cell.1 <= grid_size_of(cell, cols, count).1,
{
    let (w, h) = cell;
    let down = i / cols;
    let across = i % cols;
    let n = (count + cols - 1) / cols;
    assert(down + 1 <= n) by (nonlinear_arith)
        requires
            cols > 0,
            down == i / cols,
            n == (count + cols - 1) / cols,
            i < count,
            0 <= i,
    ;
    assert(across + 1 <= cols) by (nonlinear_arith)
        requires
            cols > 0,
            across == i % cols,
    ;
    assert(across * w + w <= w * cols && down * h + h <= h * n) by (nonlinear_arith)
        requires
            across + 1 <= cols,
            down + 1 <= n,
            w >= 0,
            h >= 0,
    ;
}

/// A grid that has been read back in full has every cell that recommendations look at.
pub proof fn law_grid_holds_every_cell(cell: (int, int), cols: int, count: int, i: int)
    requires
        cols > 0,
        0 <= cell.0,
        0 < cell.1,
        0 <= i < count,
    ensures
        crate::recommend::cell_fits(
            grid_size_of(cell, cols, count).0 * grid_size_of(cell, cols, count).1 * 4,
            grid_size_of(cell, cols, count).0,
            cell,
            cols,
            i,
        ),
{
    law_cells_lie_in_grid(cell, cols, count, i);
    let (w, h) = grid_size_of(cell, cols, count);
    let bottom = (i / cols) * cell.1 + cell.1;
    assert(w >= 0) by (nonlinear_arith)
        requires
            w == cell.0 * cols,
            cell.0 >= 0,
            cols > 0,
    ;
    assert(bottom * w * 4 <= w * h * 4) by (nonlinear_arith)
        requires
            bottom <= h,
            w >= 0,
    ;
}

/// No two cells of a grid overlap: one lies left of the other, or above it.
pub proof fn law_cells_do_not_overlap(cell: (int, int), cols: int, i: int, j: int)
    requires
        cols > 0,
        0 <= cell.0,
        0 <= cell.1,
        0 <= i < j,
    ensures
        (i / cols) * cell.1 + cell.1 <= (j / cols) * cell.1 || ((i / cols) * cell.1 == (j / cols) * cell.1 && (i % cols)
            * cell.0 + cell.0 <= (j % cols) * cell.0),
{
    let (w, h) = cell;
    let (di, dj, ai, aj) = (i / cols, j / cols, i % cols, j % cols);
    assert(di < dj || (di == dj && ai < aj)) by (nonlinear_arith)
        requires
            cols > 0,
            0 <= i < j,
            di == i / cols,
            dj == j / cols,
            ai == i % cols,
            aj == j % cols,
    ;
    if di < dj {
        assert(di * h + h <= dj * h) by (nonlinear_arith)
            requires
                di + 1 <= dj,
                h >= 0,
        ;
    } else {
        assert(ai * w + w <= aj * w) by (nonlinear_arith)
            requires
                ai + 1 <= aj,
                w >= 0,
        ;
    }
}

/// A padded row is the shortest that holds its pixels and ends at a multiple of the alignment.
pub proof fn law_rows_are_padded_no_more_than_needed(width: int)
    requires
        width >= 0,
    ensures
        4 * width <= padded_row_of(width) < 4 * width + ROW_ALIGNMENT,
        padded_row_of(width) % ROW_ALIGNMENT as int == 0,
{
}

} // verus!
