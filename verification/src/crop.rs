//! Crop rectangles: what each handle moves, which handle the pointer is on, and which aspect ratio an
//! entry of the toolbar stands for.

use crate::numeral::decimal;
use crate::single::{round, rounded};
use vstd::prelude::*;

verus! {

/// Aspect ratio presets shown in the crop toolbar: (label, width, height). `0:0` = free, `1:0` =
/// original.
pub const RATIOS: [(&'static str, u32, u32); 6] = [
    ("Free", 0, 0),
    ("Original", 1, 0),
    ("1:1", 1, 1),
    ("4:5", 4, 5),
    ("2:3", 2, 3),
    ("16:9", 16, 9),
];

#[derive(Clone, Copy, PartialEq, Eq, Debug, Structural)]
pub enum Handle {
    Move,
    N,
    S,
    E,
    W,
    NE,
    NW,
    SE,
    SW,
}

/// Which edges a handle moves: -1 = left/top, 1 = right/bottom, 0 = neither.
pub open spec fn edges_of(h: Handle) -> (int, int) {
    (
        match h {
            Handle::W | Handle::NW | Handle::SW => -1,
            Handle::E | Handle::NE | Handle::SE => 1,
            _ => 0,
        },
        match h {
            Handle::N | Handle::NE | Handle::NW => -1,
            Handle::S | Handle::SE | Handle::SW => 1,
            _ => 0,
        },
    )
}

impl Handle {
    /// Which edges a handle moves: -1 = left/top, 1 = right/bottom, 0 = neither.
    pub fn edges(self) -> (r: (i8, i8))
        ensures
            (r.0 as int, r.1 as int) == edges_of(self),
    {
        match self {
            Handle::Move => (0, 0),
            Handle::N => (0, -1),
            Handle::S => (0, 1),
            Handle::E => (1, 0),
            Handle::W => (-1, 0),
            Handle::NE => (1, -1),
            Handle::NW => (-1, -1),
            Handle::SE => (1, 1),
            Handle::SW => (-1, 1),
        }
    }
}

/// Where the pointer is: near which edges of the crop, along their whole length, and whether inside.
#[derive(Clone, Copy, Debug)]
pub struct Pointer {
    pub left: bool,
    pub right: bool,
    pub top: bool,
    pub bottom: bool,
    pub inside: bool,
}

/// The handle that the pointer is on: a corner before an edge, left before right and top before
/// bottom; the crop itself inside.
pub open spec fn handle_at(p: Pointer) -> Option<Handle> {
    if p.left && p.top {
        Some(Handle::NW)
    } else if p.right && p.top {
        Some(Handle::NE)
    } else if p.left && p.bottom {
        Some(Handle::SW)
    } else if p.right && p.bottom {
        Some(Handle::SE)
    } else if p.left {
        Some(Handle::W)
    } else if p.right {
        Some(Handle::E)
    } else if p.top {
        Some(Handle::N)
    } else if p.bottom {
        Some(Handle::S)
    } else if p.inside {
        Some(Handle::Move)
    } else {
        None
    }
}

/// Which handle is under the pointer.
pub fn hit_test(p: Pointer) -> (r: Option<Handle>)
    ensures
        r == handle_at(p),
{
    match (p.left, p.right, p.top, p.bottom) {
        (true, _, true, _) => Some(Handle::NW),
        (_, true, true, _) => Some(Handle::NE),
        (true, _, _, true) => Some(Handle::SW),
        (_, true, _, true) => Some(Handle::SE),
        (true, _, _, _) => Some(Handle::W),
        (_, true, _, _) => Some(Handle::E),
        (_, _, true, _) => Some(Handle::N),
        (_, _, _, true) => Some(Handle::S),
        _ => if p.inside {
            Some(Handle::Move)
        } else {
            None
        },
    }
}

/// A handle that the pointer is on moves an edge only where the pointer is near it.
pub proof fn law_handle_moves_near_edges(p: Pointer)
    ensures
        handle_at(p) matches Some(h) ==> {
            &&& edges_of(h).0 == -1 ==> p.left
            &&& edges_of(h).0 == 1 ==> p.right
            &&& edges_of(h).1 == -1 ==> p.top
            &&& edges_of(h).1 == 1 ==> p.bottom
        },
{
}

/// Every edge that the pointer is near is taken along: near the left or the right edge the handle moves one of
/// them, near the top or the bottom edge one of those, so near a corner it moves both. Of two opposite edges
/// it is the left or the top one. Away from all edges the handle moves none, and the pointer is on one only
/// inside the crop.
pub proof fn law_near_edges_are_moved(p: Pointer)
    ensures
        handle_at(p) is Some <==> p.left || p.right || p.top || p.bottom || p.inside,
        handle_at(p) matches Some(h) ==> {
            &&& p.left ==> edges_of(h).0 == -1
            &&& p.right && !p.left ==> edges_of(h).0 == 1
            &&& !p.left && !p.right ==> edges_of(h).0 == 0
            &&& p.top ==> edges_of(h).1 == -1
            &&& p.bottom && !p.top ==> edges_of(h).1 == 1
            &&& !p.top && !p.bottom ==> edges_of(h).1 == 0
        },
{
}

/// The pointer that is where the mirror image of `p` is: left for right, or top for bottom.
pub open spec fn mirrored(p: Pointer, across: bool) -> Pointer {
    if across {
        Pointer { left: p.right, right: p.left, ..p }
    } else {
        Pointer { top: p.bottom, bottom: p.top, ..p }
    }
}

/// The handles lie symmetrically: the mirror image of the pointer is on the handle that moves the opposite
/// edge, and the same one of the other two. (Unless the crop is so small that the pointer is near two opposite
/// edges.)
pub proof fn law_handles_are_symmetric(p: Pointer, across: bool)
    requires
        across ==> !(p.left && p.right),
        !across ==> !(p.top && p.bottom),
    ensures
        match (handle_at(p), handle_at(mirrored(p, across))) {
            (Some(a), Some(b)) => if across {
                edges_of(b) == (-edges_of(a).0, edges_of(a).1)
            } else {
                edges_of(b) == (edges_of(a).0, -edges_of(a).1)
            },
            (a, b) => a is None && b is None,
        },
{
}

/// No two handles move the same edges.
pub proof fn law_handles_differ(a: Handle, b: Handle)
    requires
        edges_of(a) == edges_of(b),
    ensures
        a == b,
{
}

/// The aspect ratio of a crop.
#[derive(Clone, Copy, PartialEq, Eq, Debug, Structural)]
pub enum Ratio {
    /// Any ratio.
    Free,
    /// That of the image; the other way round with `flip`.
    Image { flip: bool },
    /// `width` to `height`; the other way round where `turned`, and once more with `flip`.
    Fixed { width: u32, height: u32, turned: bool, flip: bool },
}

/// The ratio that entry `index` of [`RATIOS`] stands for, for an image of this size: oriented like the
/// image, where 16:9 on a portrait photo means 9:16. Sides are compared in single precision.
pub open spec fn ratio_of(index: int, flip: bool, image: (u32, u32)) -> Ratio {
    let (_, a, b) = RATIOS@[index];
    if a == 0 && b == 0 {
        Ratio::Free
    } else if b == 0 {
        Ratio::Image { flip }
    } else {
        Ratio::Fixed {
            width: a,
            height: b,
            turned: a != b && ((rounded(image.0 as nat) >= rounded(image.1 as nat)) != (a >= b)),
            flip,
        }
    }
}

/// The aspect ratio for an entry of [`RATIOS`], oriented like the image unless `flip`.
pub fn pixel_ratio(index: usize, flip: bool, image: (u32, u32)) -> (r: Ratio)
    requires
        index < RATIOS@.len(),
    ensures
        r == ratio_of(index as int, flip, image),
{
    let (_, a, b) = RATIOS[index];
    if a == 0 && b == 0 {
        Ratio::Free
    } else if b == 0 {
        Ratio::Image { flip }
    } else {
        let landscape = round(image.0 as u128) >= round(image.1 as u128);
        Ratio::Fixed { width: a, height: b, turned: a != b && (landscape != (a >= b)), flip }
    }
}

/// Without `flip` a fixed ratio is wide for a photo that is not higher than wide, and high for one that is: its
/// longer side lies along the photo's longer side. It is always made of the two numbers of its entry.
pub proof fn law_ratio_lies_along_the_photo(index: int, flip: bool, image: (u32, u32))
    requires
        0 <= index < RATIOS@.len(),
    ensures
        match ratio_of(index, flip, image) {
            Ratio::Free => RATIOS@[index].1 == 0 && RATIOS@[index].2 == 0,
            Ratio::Image { flip: f } => RATIOS@[index].1 != 0 && RATIOS@[index].2 == 0 && f == flip,
            Ratio::Fixed { width, height, turned, flip: f } => {
                let (w, h) = if turned {
                    (height, width)
                } else {
                    (width, height)
                };
                &&& width == RATIOS@[index].1 && height == RATIOS@[index].2 && height > 0
                &&& f == flip
                &&& w > h ==> rounded(image.0 as nat) >= rounded(image.1 as nat)
                &&& w < h ==> rounded(image.0 as nat) < rounded(image.1 as nat)
            },
        },
{
}

/// Turning the photo on its side turns a fixed ratio that is not square, unless the photo is square.
pub proof fn law_ratio_follows_orientation(index: int, flip: bool, w: u32, h: u32)
    requires
        0 <= index < RATIOS@.len(),
        rounded(w as nat) != rounded(h as nat),
    ensures
        match (ratio_of(index, flip, (w, h)), ratio_of(index, flip, (h, w))) {
            (
                Ratio::Fixed { width: a, height: b, turned: s, flip: _ },
                Ratio::Fixed { width: c, height: d, turned: t, flip: _ },
            ) => a == c && b == d && (a != b ==> s != t),
            (x, y) => x == y,
        },
{
}

/// The label of a fixed ratio names its width and its height.
pub proof fn law_ratio_labels_name_the_ratio(i: int)
    requires
        0 <= i < RATIOS@.len(),
        RATIOS@[i].2 != 0,
    ensures
        RATIOS@[i].0@ == decimal(RATIOS@[i].1 as nat) + ":"@ + decimal(RATIOS@[i].2 as nat),
{
    reveal_strlit("1:1");
    reveal_strlit("4:5");
    reveal_strlit("2:3");
    reveal_strlit("16:9");
    reveal_strlit(":");
    reveal_with_fuel(decimal, 3);
    let (_, w, h) = RATIOS@[i];
    assert(RATIOS@[i].0@ =~= decimal(w as nat) + ":"@ + decimal(h as nat));
}

} // verus!
