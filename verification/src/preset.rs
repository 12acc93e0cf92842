//! What a preset sets: the sliders, in Lightroom's units, and colour tables.
//!
//! A value is kept as the numeral that the preset file gives for it. A slider that a preset does
//! not set is `None` and stands at zero.

use vstd::prelude::*;

verus! {

/// Lightroom's HSL / B&W mixer bands, in slider order.
pub const BANDS: [&'static str; 8] = [
    "Red",
    "Orange",
    "Yellow",
    "Green",
    "Aqua",
    "Blue",
    "Purple",
    "Magenta",
];

/// The view of a text that may be missing.
pub open spec fn opt_view(o: Option<String>) -> Option<Seq<char>> {
    match o {
        Some(s) => Some(s@),
        None => None,
    }
}

/// A point of a tone curve in Lightroom's 0..255 space.
pub struct CurvePoint {
    pub x: String,
    pub y: String,
}

/// The points of a curve as pairs of numerals.
pub open spec fn curve_view(c: Seq<CurvePoint>) -> Seq<(Seq<char>, Seq<char>)> {
    c.map_values(|p: CurvePoint| (p.x@, p.y@))
}

/// A colour wheel: hue in degrees, saturation 0..100.
pub struct Wheel {
    pub hue: Option<String>,
    pub saturation: Option<String>,
}

/// The sliders of one colour band.
pub struct Band {
    pub hue: Option<String>,
    pub saturation: Option<String>,
    pub luminance: Option<String>,
    pub gray: Option<String>,
}

/// Where a white balance slider takes its value from.
pub enum Balance {
    /// A relative slider: the numeral is the slider's value.
    Relative(String),
    /// An absolute reading, to be turned into a slider's value.
    Absolute(String),
    /// The camera's own white balance.
    AsShot,
}

/// The parametric curve (-100..100).
pub struct Parametric {
    pub shadows: Option<String>,
    pub darks: Option<String>,
    pub lights: Option<String>,
    pub highlights: Option<String>,
}

/// Slider values, using Lightroom's units (mostly -100..100, exposure in EV).
pub struct Adjustments {
    pub exposure: Option<String>,
    pub contrast: Option<String>,
    pub highlights: Option<String>,
    pub shadows: Option<String>,
    pub whites: Option<String>,
    pub blacks: Option<String>,
    pub clarity: Option<String>,
    pub dehaze: Option<String>,
    pub temperature: Balance,
    pub tint: Balance,
    pub vibrance: Option<String>,
    pub saturation: Option<String>,
    /// One entry for each of [`BANDS`].
    pub bands: Vec<Band>,
    pub grayscale: bool,
    pub shadow_tint: Wheel,
    pub highlight_tint: Wheel,
    pub midtone_tint: Wheel,
    pub global_tint: Wheel,
    pub tint_balance: Option<String>,
    pub vignette: Option<String>,
    pub grain: Option<String>,
    pub curve: Vec<CurvePoint>,
    pub curve_red: Vec<CurvePoint>,
    pub curve_green: Vec<CurvePoint>,
    pub curve_blue: Vec<CurvePoint>,
    pub parametric: Parametric,
}

/// Which wheel tints the midtones.
#[derive(Clone, Copy, PartialEq, Eq, Structural)]
pub enum MidtoneWheel {
    Midtone,
    Global,
}

/// There is one midtone wheel: the global wheel is folded in when the midtone wheel is unused.
/// Takes whether each wheel's saturation is zero.
pub fn midtone_wheel(midtone_is_zero: bool, global_is_zero: bool) -> (r: MidtoneWheel)
    ensures
        r == MidtoneWheel::Global <==> midtone_is_zero && !global_is_zero,
{
    if midtone_is_zero && !global_is_zero {
        MidtoneWheel::Global
    } else {
        MidtoneWheel::Midtone
    }
}

/// Three numerals: red, green and blue.
pub struct Triple {
    pub r: String,
    pub g: String,
    pub b: String,
}

impl View for Triple {
    type V = (Seq<char>, Seq<char>, Seq<char>);

    open spec fn view(&self) -> (Seq<char>, Seq<char>, Seq<char>) {
        (self.r@, self.g@, self.b@)
    }
}

/// The input range of a colour table.
pub struct Domain {
    pub min: Triple,
    pub max: Triple,
}

/// One entry of a colour table, and the number of the domain that it is relative to.
pub struct Entry {
    pub value: Triple,
    pub domain: usize,
}

/// An entry with its domain: the value, the least and the greatest input.
pub type EntryView = (
    (Seq<char>, Seq<char>, Seq<char>),
    (Seq<char>, Seq<char>, Seq<char>),
    (Seq<char>, Seq<char>, Seq<char>),
);

/// A 3D colour lookup table, red index varying fastest.
pub struct Lut3d {
    pub size: u32,
    pub domains: Vec<Domain>,
    pub data: Vec<Entry>,
}

/// The entries of a table with their domains.
pub open spec fn entries_view(data: Seq<Entry>, domains: Seq<Domain>) -> Seq<EntryView> {
    data.map_values(
        |e: Entry| (e.value@, domains[e.domain as int].min@, domains[e.domain as int].max@),
    )
}

impl Lut3d {
    /// The entries with their domains.
    pub open spec fn entries(self) -> Seq<EntryView> {
        entries_view(self.data@, self.domains@)
    }

    /// Every entry names a domain, and there is one entry for each point of the grid.
    pub open spec fn wf(self) -> bool {
        &&& self.size >= 2
        &&& self.data@.len() == self.size * self.size * self.size
        &&& forall|i: int|
            0 <= i < self.data@.len() ==> (#[trigger] self.data@[i]).domain < self.domains@.len()
    }
}

// ---------------------------------------------------------------------------------------------
// The shader's parameters
// ---------------------------------------------------------------------------------------------

/// Slider values as the shader takes them: the exposure in EV, hues in degrees, the rest as fractions.
pub struct Sliders<T> {
    pub exposure: T,
    pub contrast: T,
    pub highlights: T,
    pub shadows: T,
    pub whites: T,
    pub blacks: T,
    pub temperature: T,
    pub tint: T,
    pub vibrance: T,
    pub saturation: T,
    pub clarity: T,
    pub dehaze: T,
    pub vignette: T,
    pub grain: T,
    /// Hue and saturation.
    pub shadow_tint: [T; 2],
    pub highlight_tint: [T; 2],
    pub midtone_tint: [T; 2],
    pub tint_balance: T,
    /// Hue, saturation, luminance per band.
    pub hsl: [[T; 3]; 8],
    pub gray_mix: [T; 8],
    pub grayscale: bool,
    /// There is a colour table.
    pub lut: bool,
}

/// The number for a switch.
pub open spec fn switch<T>(on: bool, zero: T, one: T) -> T {
    if on {
        one
    } else {
        zero
    }
}

/// The parameters of the shader, four to a row, hold the sliders.
pub open spec fn packs<T>(u: Seq<[T; 4]>, s: Sliders<T>, zero: T, one: T) -> bool {
    &&& u.len() == 16
    &&& u[0]@ == seq![s.exposure, s.contrast, s.highlights, s.shadows]
    &&& u[1]@ == seq![s.whites, s.blacks, s.temperature, s.tint]
    &&& u[2]@ == seq![s.vibrance, s.saturation, s.clarity, s.dehaze]
    &&& u[3]@ == seq![
        s.vignette,
        s.grain,
        switch(s.grayscale, zero, one),
        switch(s.lut, zero, one),
    ]
    &&& u[4]@ == s.shadow_tint@ + s.highlight_tint@
    &&& u[5]@ == seq![s.tint_balance, s.midtone_tint@[0], s.midtone_tint@[1], zero]
    &&& forall|i: int| 0 <= i < 8 ==> (#[trigger] u[6 + i])@ == s.hsl@[i]@.push(zero)
    &&& forall|i: int| 0 <= i < 8 ==> u[14 + i / 4]@[i % 4] == #[trigger] s.gray_mix@[i]
}

fn band_row<T: Copy>(b: &[T; 3], zero: T) -> (r: [T; 4])
    ensures
        r@ == b@.push(zero),
{
    let r = [b[0], b[1], b[2], zero];
    assert(r@ =~= b@.push(zero));
    r
}

/// Packs the sliders into the layout of the shader's parameters.
pub fn uniforms<T: Copy>(s: &Sliders<T>, zero: T, one: T) -> (r: [[T; 4]; 16])
    ensures
        packs(r@, *s, zero, one),
{
    let gray = if s.grayscale {
        one
    } else {
        zero
    };
    let lut = if s.lut {
        one
    } else {
        zero
    };
    let h = &s.hsl;
    let g = &s.gray_mix;
    let r = [
        [s.exposure, s.contrast, s.highlights, s.shadows],
        [s.whites, s.blacks, s.temperature, s.tint],
        [s.vibrance, s.saturation, s.clarity, s.dehaze],
        [s.vignette, s.grain, gray, lut],
        [s.shadow_tint[0], s.shadow_tint[1], s.highlight_tint[0], s.highlight_tint[1]],
        [s.tint_balance, s.midtone_tint[0], s.midtone_tint[1], zero],
        band_row(&h[0], zero),
        band_row(&h[1], zero),
        band_row(&h[2], zero),
        band_row(&h[3], zero),
        band_row(&h[4], zero),
        band_row(&h[5], zero),
        band_row(&h[6], zero),
        band_row(&h[7], zero),
        [g[0], g[1], g[2], g[3]],
        [g[4], g[5], g[6], g[7]],
    ];
    assert(r@[0]@ =~= seq![s.exposure, s.contrast, s.highlights, s.shadows]);
    assert(r@[1]@ =~= seq![s.whites, s.blacks, s.temperature, s.tint]);
    assert(r@[2]@ =~= seq![s.vibrance, s.saturation, s.clarity, s.dehaze]);
    assert(r@[3]@ =~= seq![s.vignette, s.grain, gray, lut]);
    assert(r@[4]@ =~= s.shadow_tint@ + s.highlight_tint@);
    assert(r@[5]@ =~= seq![s.tint_balance, s.midtone_tint@[0], s.midtone_tint@[1], zero]);
    r
}

} // verus!
