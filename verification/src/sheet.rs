//! Contact sheets: photos of one size in a grid, with room for a label below each.

use crate::gpu::{cell_position, grid_size, grid_size_of};
use crate::single::{
    divide, multiply, product, ratio, round, rounded, sticky_quotient, truncate, whole_part,
    RATIO_ONE,
};
use image::RgbImage;
use vstd::prelude::*;

verus! {

/// The longer side of a photo on a contact sheet.
pub const PHOTO_PX: u32 = 360;

/// The columns of a sheet of presets.
pub const COLS: u32 = 6;

/// The height of a label.
pub const LABEL_H: u32 = 22;

/// The columns of a sheet of recommendations.
pub const RECOMMENDED_COLS: u32 = 4;

/// One side of a photo, scaled in single precision so that the longer side has [`PHOTO_PX`] pixels,
/// and cut down to whole pixels; at least one.
pub open spec fn photo_side(side: nat, longer: nat) -> nat {
    let n = whole_part(product(side, ratio(PHOTO_PX as nat, longer)));
    if n >= 1 {
        n
    } else {
        1
    }
}

fn side_of(side: u32, longer: u32) -> (r: u32)
    requires
        longer > 0,
    ensures
        r == photo_side(side as nat, longer as nat),
{
    let n: u32 = truncate(multiply(side, divide(PHOTO_PX, longer)));
    if n >= 1 {
        n
    } else {
        1
    }
}

/// The size of a photo of `px` pixels on a sheet of presets.
pub fn photo_size(px: (u32, u32)) -> (r: (u32, u32))
    requires
        px.0 > 0 || px.1 > 0,
    ensures
        ({
            let longer = if px.0 >= px.1 {
                px.0
            } else {
                px.1
            };
            r.0 == photo_side(px.0 as nat, longer as nat) && r.1 == photo_side(
                px.1 as nat,
                longer as nat,
            )
        }),
{
    let longer: u32 = if px.0 >= px.1 {
        px.0
    } else {
        px.1
    };
    (side_of(px.0, longer), side_of(px.1, longer))
}

/// The height of a photo of `px` pixels that is [`PHOTO_PX`] pixels wide, in single precision.
pub open spec fn height_at_width(px: (nat, nat)) -> nat {
    whole_part(
        rounded(
            sticky_quotient(
                (rounded((PHOTO_PX * rounded(px.1)) as nat) * (RATIO_ONE as nat / 2)) as nat,
                rounded(px.0),
            ),
        ),
    )
}

/// The size of a photo of `px` pixels on a sheet of recommendations: all are equally wide.
pub fn recommended_size(px: (u32, u32)) -> (r: (u32, u32))
    requires
        px.0 > 0,
    ensures
        r.0 == PHOTO_PX,
        r.1 == height_at_width((px.0 as nat, px.1 as nat)),
{
    let tall: u128 = round(px.1 as u128);
    let wide: u128 = PHOTO_PX as u128;
    assert(wide * tall <= 360 * 0x1_ffff_ffffu128 && wide * tall >= 0) by (nonlinear_arith)
        requires
            wide == 360,
            tall <= 0x1_ffff_ffff,
    ;
    let x: u128 = round(wide * tall);
    let y: u128 = round(px.0 as u128);
    proof {
        crate::single::lemma_rounded_positive(px.0 as nat);
    }
    assert(x * 0x200_0000_0000_0000u128 <= 0x3ff_ffff_ffffu128 * 0x200_0000_0000_0000u128)
        by (nonlinear_arith)
        requires
            x <= 0x3ff_ffff_ffff,
    ;
    let n: u128 = x * 0x200_0000_0000_0000u128;
    let q: u128 = n / y;
    let rest: u128 = n % y;
    assert(q <= n) by (nonlinear_arith)
        requires
            q == n as int / y as int,
            y >= 1,
    ;
    let sticky: u128 = 2 * q + if rest == 0 {
        0
    } else {
        1
    };
    (PHOTO_PX, truncate(round(sticky)))
}

/// The space that a photo takes on a sheet: a margin of four pixels round it, and its label.
pub open spec fn pitch(photo: (u32, u32), label: u32) -> (int, int) {
    (photo.0 + 8, photo.1 + 8 + label)
}

/// The size of a sheet of `count` photos.
pub open spec fn sheet_size(photo: (u32, u32), label: u32, cols: u32, count: u32) -> (int, int) {
    grid_size_of(pitch(photo, label), cols as int, count as int)
}

/// The left top corner of photo `i`.
pub open spec fn corner(photo: (u32, u32), label: u32, cols: u32, i: int) -> (int, int) {
    (
        (i % cols as int) * pitch(photo, label).0 + 4,
        (i / cols as int) * pitch(photo, label).1 + 4,
    )
}

/// A sheet of photos, as rows of RGB pixels.
pub struct Sheet {
    pub photo: (u32, u32),
    pub label: u32,
    pub cols: u32,
    pub count: u32,
    pub size: (u32, u32),
    pub pixels: Vec<u8>,
}

impl Sheet {
    /// The sheet has the size that its photos need, and all its pixels.
    pub open spec fn wf(&self) -> bool {
        &&& self.cols > 0
        &&& (self.size.0 as int, self.size.1 as int) == sheet_size(
            self.photo,
            self.label,
            self.cols,
            self.count,
        )
        &&& self.pixels@.len() == 3 * self.size.0 * self.size.1
    }

    /// Only the pixels differ.
    pub open spec fn same_layout(&self, other: &Sheet) -> bool {
        &&& self.photo == other.photo
        &&& self.label == other.label
        &&& self.cols == other.cols
        &&& self.count == other.count
        &&& self.size == other.size
    }
}

/// What the rows of RGB pixels `bottom`, `width` pixels wide, show once `top` of the size `size` is laid
/// over them with its left top corner at `at`. What reaches beyond is cut off.
pub open spec fn overlaid(
    bottom: Seq<u8>,
    width: int,
    top: Seq<u8>,
    size: (int, int),
    at: (int, int),
) -> Seq<u8> {
    Seq::new(
        bottom.len(),
        |j: int|
            {
                let x = (j / 3) % width - at.0;
                let y = (j / 3) / width - at.1;
                if 0 <= x < size.0 && 0 <= y < size.1 {
                    top[(y * size.0 + x) * 3 + j % 3]
                } else {
                    bottom[j]
                }
            },
    )
}

/// `image::imageops::overlay` on RGB images: each pixel of `top` that falls on `bottom` replaces the one
/// that was there, and the others stay.
#[verifier::external_body]
fn overlay(
    bottom: Vec<u8>,
    bottom_size: (u32, u32),
    top: Vec<u8>,
    top_size: (u32, u32),
    at: (u32, u32),
) -> (r: Vec<u8>)
    requires
        bottom@.len() == 3 * bottom_size.0 * bottom_size.1,
        top@.len() == 3 * top_size.0 * top_size.1,
    ensures
        r@ == overlaid(
            bottom@,
            bottom_size.0 as int,
            top@,
            (top_size.0 as int, top_size.1 as int),
            (at.0 as int, at.1 as int),
        ),
{
    let mut canvas = RgbImage::from_raw(bottom_size.0, bottom_size.1, bottom).unwrap();
    let photo = RgbImage::from_raw(top_size.0, top_size.1, top).unwrap();
    image::imageops::overlay(&mut canvas, &photo, at.0 as i64, at.1 as i64);
    canvas.into_raw()
}

/// A sheet in dark grey with room for `count` photos, `cols` to a row.
pub fn blank(photo: (u32, u32), label: u32, cols: u32, count: u32) -> (r: Sheet)
    requires
        cols > 0,
        pitch(photo, label).0 <= u32::MAX,
        pitch(photo, label).1 <= u32::MAX,
        sheet_size(photo, label, cols, count).0 <= u32::MAX,
        sheet_size(photo, label, cols, count).1 <= u32::MAX,
        3 * sheet_size(photo, label, cols, count).0 * sheet_size(photo, label, cols, count).1
            <= isize::MAX,
    ensures
        r.wf(),
        r.photo == photo,
        r.label == label,
        r.cols == cols,
        r.count == count,
        forall|j: int| 0 <= j < r.pixels@.len() ==> r.pixels@[j] == 30,
{
    let size = grid_size((photo.0 + 8, photo.1 + 8 + label), cols, count);
    assert(0 <= 3 * size.0 && 0 <= 3 * size.0 * size.1) by (nonlinear_arith);
    let n: u128 = 3 * size.0 as u128 * size.1 as u128;
    let pixels = vec![30u8; n as usize];
    Sheet { photo, label, cols, count, size, pixels }
}

/// The sheet with photo number `i` on it.
pub fn place(sheet: Sheet, i: u32, photo: Vec<u8>) -> (r: Sheet)
    requires
        sheet.wf(),
        i < sheet.count,
        photo@.len() == 3 * sheet.photo.0 * sheet.photo.1,
    ensures
        r.wf(),
        r.same_layout(&sheet),
        r.pixels@ == overlaid(
            sheet.pixels@,
            sheet.size.0 as int,
            photo@,
            (sheet.photo.0 as int, sheet.photo.1 as int),
            corner(sheet.photo, sheet.label, sheet.cols, i as int),
        ),
{
    let Sheet { photo: size, label, cols, count, size: whole, pixels } = sheet;
    let ghost room = pitch(size, label);
    proof {
        crate::gpu::law_cells_lie_in_grid(room, cols as int, count as int, i as int);
    }
    assert(0 <= (i % cols) * room.0 && 0 <= (i / cols) * room.1) by (nonlinear_arith)
        requires
            cols > 0,
            room.0 >= 0,
            room.1 >= 0,
    ;
    let (x, y) = cell_position((size.0 + 8, size.1 + 8 + label), cols, i);
    let pixels = overlay(pixels, whole, photo, size, (x + 4, y + 4));
    Sheet { photo: size, label, cols, count, size: whole, pixels }
}

// ---------------------------------------------------------------------------------------------
// Laws
// ---------------------------------------------------------------------------------------------

/// Where byte `c` of pixel `at` of photo `i` lies on a sheet.
pub open spec fn byte_of(sheet: &Sheet, i: int, at: (int, int), c: int) -> int {
    let left_top = corner(sheet.photo, sheet.label, sheet.cols, i);
    ((left_top.1 + at.1) * sheet.size.0 + left_top.0 + at.0) * 3 + c
}

proof fn lemma_byte_of(sheet: &Sheet, i: int, at: (int, int), c: int)
    requires
        sheet.wf(),
        0 <= i < sheet.count,
        0 <= at.0 < sheet.photo.0,
        0 <= at.1 < sheet.photo.1,
        0 <= c < 3,
    ensures
        0 <= byte_of(sheet, i, at, c) < sheet.pixels@.len(),
        byte_of(sheet, i, at, c) % 3 == c,
        (byte_of(sheet, i, at, c) / 3) % sheet.size.0 as int == corner(
            sheet.photo,
            sheet.label,
            sheet.cols,
            i,
        ).0 + at.0,
        (byte_of(sheet, i, at, c) / 3) / sheet.size.0 as int == corner(
            sheet.photo,
            sheet.label,
            sheet.cols,
            i,
        ).1 + at.1,
{
    let room = pitch(sheet.photo, sheet.label);
    let cols = sheet.cols as int;
    let w = sheet.size.0 as int;
    let h = sheet.size.1 as int;
    crate::gpu::law_cells_lie_in_grid(room, cols, sheet.count as int, i);
    assert(0 <= (i % cols) * room.0 && 0 <= (i / cols) * room.1) by (nonlinear_arith)
        requires
            cols > 0,
            i >= 0,
            room.0 >= 0,
            room.1 >= 0,
    ;
    let left_top = corner(sheet.photo, sheet.label, sheet.cols, i);
    let x = left_top.0 + at.0;
    let y = left_top.1 + at.1;
    assert(0 <= x < w && 0 <= y < h);
    let p = y * w + x;
    vstd::arithmetic::div_mod::lemma_fundamental_div_mod_converse(p, w, y, x);
    let j = byte_of(sheet, i, at, c);
    assert(p * 3 == (y * w + left_top.0 + at.0) * 3);
    assert(j == p * 3 + c);
    assert(0 <= p && 3 * p + 3 <= 3 * w * h) by (nonlinear_arith)
        requires
            p == y * w + x,
            0 <= x < w,
            0 <= y < h,
    ;
}

/// A sheet shows the photo that was placed on it, in its own cell and unchanged.
pub proof fn law_placed_photo_shows(
    sheet: &Sheet,
    photo: Seq<u8>,
    i: int,
    at: (int, int),
    c: int,
)
    requires
        sheet.wf(),
        0 <= i < sheet.count,
        0 <= at.0 < sheet.photo.0,
        0 <= at.1 < sheet.photo.1,
        0 <= c < 3,
    ensures
        overlaid(
            sheet.pixels@,
            sheet.size.0 as int,
            photo,
            (sheet.photo.0 as int, sheet.photo.1 as int),
            corner(sheet.photo, sheet.label, sheet.cols, i),
        )[byte_of(sheet, i, at, c)] == photo[(at.1 * sheet.photo.0 + at.0) * 3 + c],
{
    lemma_byte_of(sheet, i, at, c);
}

/// Placing photo `k` changes no other photo on the sheet.
pub proof fn law_placing_keeps_other_photos(
    sheet: &Sheet,
    photo: Seq<u8>,
    k: int,
    i: int,
    at: (int, int),
    c: int,
)
    requires
        sheet.wf(),
        0 <= i < sheet.count,
        0 <= k < sheet.count,
        i != k,
        0 <= at.0 < sheet.photo.0,
        0 <= at.1 < sheet.photo.1,
        0 <= c < 3,
    ensures
        overlaid(
            sheet.pixels@,
            sheet.size.0 as int,
            photo,
            (sheet.photo.0 as int, sheet.photo.1 as int),
            corner(sheet.photo, sheet.label, sheet.cols, k),
        )[byte_of(sheet, i, at, c)] == sheet.pixels@[byte_of(sheet, i, at, c)],
{
    lemma_byte_of(sheet, i, at, c);
    let cols = sheet.cols as int;
    let room = pitch(sheet.photo, sheet.label);
    vstd::arithmetic::div_mod::lemma_fundamental_div_mod(i, cols);
    vstd::arithmetic::div_mod::lemma_fundamental_div_mod(k, cols);
    let across = i % cols - k % cols;
    let down = i / cols - k / cols;
    assert(across != 0 || down != 0);
    assert(across >= 1 ==> (i % cols) * room.0 >= (k % cols) * room.0 + room.0) by (nonlinear_arith)
        requires
            across == i % cols - k % cols,
            room.0 >= 0,
    ;
    assert(across <= -1 ==> (k % cols) * room.0 >= (i % cols) * room.0 + room.0)
        by (nonlinear_arith)
        requires
            across == i % cols - k % cols,
            room.0 >= 0,
    ;
    assert(down >= 1 ==> (i / cols) * room.1 >= (k / cols) * room.1 + room.1) by (nonlinear_arith)
        requires
            down == i / cols - k / cols,
            room.1 >= 0,
    ;
    assert(down <= -1 ==> (k / cols) * room.1 >= (i / cols) * room.1 + room.1) by (nonlinear_arith)
        requires
            down == i / cols - k / cols,
            room.1 >= 0,
    ;
}

/// A photo on a sheet is at most [`PHOTO_PX`] pixels a side, and its longer side no more than a pixel shorter.
pub proof fn law_photos_fill_their_cell(px: (u32, u32))
    requires
        px.0 > 0 || px.1 > 0,
    ensures
        ({
            let longer = if px.0 >= px.1 {
                px.0 as nat
            } else {
                px.1 as nat
            };
            let (w, h) = (photo_side(px.0 as nat, longer), photo_side(px.1 as nat, longer));
            &&& 1 <= w <= PHOTO_PX && 1 <= h <= PHOTO_PX
            &&& px.0 >= px.1 ==> w >= PHOTO_PX - 1
            &&& px.1 >= px.0 ==> h >= PHOTO_PX - 1
        }),
{
    let longer = if px.0 >= px.1 {
        px.0 as nat
    } else {
        px.1 as nat
    };
    let s = ratio(PHOTO_PX as nat, longer);
    crate::single::lemma_scaled_to(360, longer);
    assert forall|side: nat| side <= longer implies #[trigger] product(side, s) <= product(longer, s) by {
        crate::single::lemma_rounded_monotone(side, longer);
        assert(rounded(side) * s <= rounded(longer) * s) by (nonlinear_arith)
            requires
                rounded(side) <= rounded(longer),
                s >= 0,
        ;
        crate::single::lemma_rounded_monotone((rounded(side) * s) as nat, (rounded(longer) * s) as nat);
    }
    assert(product(px.0 as nat, s) <= product(longer, s));
    assert(product(px.1 as nat, s) <= product(longer, s));
}

} // verus!
