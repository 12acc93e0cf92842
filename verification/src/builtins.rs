//! The presets that are part of the program, written with the settings of preset files.

use crate::import::{
    adjustments, follows, numbers, numbers_of, value_from_str, value_of, Content, Preset, Setting,
    SettingView, Settings,
};
use crate::text::{begins, begins_with, chars_of};
use vstd::prelude::*;

verus! {

/// The presets that are part of the program: name and group.
pub const NAMES: [(&'static str, &'static str); 29] = [
    ("Original", "Basic"),
    ("Auto Tone", "Basic"),
    ("Punchy", "Basic"),
    ("Soft & Airy", "Basic"),
    ("Clarity Pop", "Basic"),
    ("HDR Look", "Basic"),
    ("Warm Sunset", "Colour"),
    ("Cool Morning", "Colour"),
    ("Teal & Orange", "Colour"),
    ("Golden Hour", "Colour"),
    ("Lush Greens", "Colour"),
    ("Deep Blue Sky", "Colour"),
    ("Portrait Glow", "Colour"),
    ("Matte", "Film"),
    ("Faded Film", "Film"),
    ("Vintage", "Film"),
    ("Kodachrome-ish", "Film"),
    ("Portra-ish", "Film"),
    ("Cross Process", "Film"),
    ("Cinematic", "Moody"),
    ("Moody Dark", "Moody"),
    ("Dramatic", "Moody"),
    ("Pastel", "Moody"),
    ("Classic B&W", "Black & White"),
    ("High Contrast B&W", "Black & White"),
    ("Soft B&W", "Black & White"),
    ("Noir", "Black & White"),
    ("Sepia", "Black & White"),
    ("Selenium", "Black & White"),
];

/// What the built-in presets set: the place of the preset in [`NAMES`], the name of the setting and its value.
pub const LOOKS: [(usize, &'static str, &'static str); 218] = [
    (1, "Contrast2012", "12"),
    (1, "Highlights2012", "-25"),
    (1, "Shadows2012", "25"),
    (1, "Whites2012", "10"),
    (1, "Blacks2012", "-8"),
    (1, "Vibrance", "12"),
    (2, "Contrast2012", "30"),
    (2, "Clarity2012", "20"),
    (2, "Vibrance", "25"),
    (2, "Saturation", "5"),
    (2, "Blacks2012", "-10"),
    (3, "Exposure2012", "0.3"),
    (3, "Contrast2012", "-20"),
    (3, "Highlights2012", "-30"),
    (3, "Shadows2012", "40"),
    (3, "Saturation", "-10"),
    (3, "Clarity2012", "-10"),
    (3, "ToneCurvePV2012", "0, 20, 128, 136, 255, 250"),
    (4, "Clarity2012", "45"),
    (4, "Dehaze", "10"),
    (4, "Vibrance", "15"),
    (5, "Highlights2012", "-80"),
    (5, "Shadows2012", "70"),
    (5, "Clarity2012", "40"),
    (5, "Vibrance", "20"),
    (5, "Whites2012", "15"),
    (5, "Blacks2012", "-15"),
    (6, "IncrementalTemperature", "35"),
    (6, "IncrementalTint", "8"),
    (6, "Vibrance", "20"),
    (6, "SplitToningHighlightHue", "40"),
    (6, "SplitToningHighlightSaturation", "25"),
    (6, "SplitToningShadowHue", "15"),
    (6, "SplitToningShadowSaturation", "10"),
    (7, "IncrementalTemperature", "-30"),
    (7, "Exposure2012", "0.15"),
    (7, "Contrast2012", "-5"),
    (7, "SplitToningShadowHue", "210"),
    (7, "SplitToningShadowSaturation", "15"),
    (7, "Saturation", "-5"),
    (8, "Contrast2012", "20"),
    (8, "SplitToningShadowHue", "195"),
    (8, "SplitToningShadowSaturation", "35"),
    (8, "SplitToningHighlightHue", "35"),
    (8, "SplitToningHighlightSaturation", "30"),
    (8, "SaturationAdjustmentOrange", "15"),
    (8, "LuminanceAdjustmentOrange", "5"),
    (8, "HueAdjustmentAqua", "15"),
    (8, "SaturationAdjustmentAqua", "10"),
    (8, "HueAdjustmentBlue", "-15"),
    (8, "SaturationAdjustmentBlue", "10"),
    (8, "LuminanceAdjustmentBlue", "-10"),
    (8, "HueAdjustmentGreen", "40"),
    (8, "SaturationAdjustmentGreen", "-30"),
    (9, "IncrementalTemperature", "25"),
    (9, "Highlights2012", "-20"),
    (9, "Shadows2012", "15"),
    (9, "Vibrance", "15"),
    (9, "HueAdjustmentOrange", "5"),
    (9, "SaturationAdjustmentOrange", "10"),
    (9, "LuminanceAdjustmentOrange", "10"),
    (9, "HueAdjustmentYellow", "-10"),
    (9, "SaturationAdjustmentYellow", "15"),
    (9, "SplitToningHighlightHue", "45"),
    (9, "SplitToningHighlightSaturation", "20"),
    (10, "Vibrance", "15"),
    (10, "HueAdjustmentGreen", "15"),
    (10, "SaturationAdjustmentGreen", "25"),
    (10, "LuminanceAdjustmentGreen", "-10"),
    (10, "HueAdjustmentYellow", "15"),
    (10, "SaturationAdjustmentYellow", "10"),
    (10, "SaturationAdjustmentAqua", "10"),
    (11, "HueAdjustmentBlue", "-5"),
    (11, "SaturationAdjustmentBlue", "25"),
    (11, "LuminanceAdjustmentBlue", "-25"),
    (11, "SaturationAdjustmentAqua", "15"),
    (11, "LuminanceAdjustmentAqua", "-10"),
    (11, "Dehaze", "10"),
    (12, "Exposure2012", "0.1"),
    (12, "Clarity2012", "-15"),
    (12, "Highlights2012", "-15"),
    (12, "Shadows2012", "15"),
    (12, "SaturationAdjustmentOrange", "-8"),
    (12, "LuminanceAdjustmentOrange", "15"),
    (12, "SaturationAdjustmentRed", "-5"),
    (12, "LuminanceAdjustmentRed", "5"),
    (12, "SplitToningHighlightHue", "35"),
    (12, "SplitToningHighlightSaturation", "10"),
    (13, "Contrast2012", "-10"),
    (13, "ToneCurvePV2012", "0, 35, 70, 72, 190, 195, 255, 240"),
    (13, "Saturation", "-10"),
    (14, "Contrast2012", "-15"),
    (14, "ToneCurvePV2012", "0, 40, 128, 130, 255, 230"),
    (14, "Saturation", "-20"),
    (14, "SplitToningShadowHue", "200"),
    (14, "SplitToningShadowSaturation", "12"),
    (14, "SplitToningHighlightHue", "45"),
    (14, "SplitToningHighlightSaturation", "12"),
    (14, "GrainAmount", "25"),
    (15, "IncrementalTemperature", "15"),
    (15, "Contrast2012", "10"),
    (15, "Saturation", "-25"),
    (15, "ToneCurvePV2012", "0, 30, 128, 128, 255, 235"),
    (15, "ToneCurvePV2012Red", "0, 10, 255, 255"),
    (15, "ToneCurvePV2012Green", "0, 0, 255, 250"),
    (15, "ToneCurvePV2012Blue", "0, 25, 255, 220"),
    (15, "PostCropVignetteAmount", "-25"),
    (15, "GrainAmount", "30"),
    (16, "Contrast2012", "25"),
    (16, "Saturation", "10"),
    (16, "HueAdjustmentRed", "5"),
    (16, "SaturationAdjustmentRed", "15"),
    (16, "LuminanceAdjustmentRed", "-5"),
    (16, "HueAdjustmentBlue", "-10"),
    (16, "SaturationAdjustmentBlue", "10"),
    (16, "LuminanceAdjustmentBlue", "-15"),
    (16, "HueAdjustmentYellow", "-5"),
    (16, "SaturationAdjustmentYellow", "10"),
    (16, "IncrementalTemperature", "8"),
    (16, "GrainAmount", "12"),
    (17, "Contrast2012", "-5"),
    (17, "IncrementalTemperature", "10"),
    (17, "Saturation", "-10"),
    (17, "Highlights2012", "-20"),
    (17, "Shadows2012", "10"),
    (17, "SaturationAdjustmentOrange", "5"),
    (17, "LuminanceAdjustmentOrange", "10"),
    (17, "HueAdjustmentGreen", "25"),
    (17, "SaturationAdjustmentGreen", "-20"),
    (17, "HueAdjustmentBlue", "-5"),
    (17, "SaturationAdjustmentBlue", "-10"),
    (17, "ToneCurvePV2012", "0, 15, 255, 250"),
    (17, "GrainAmount", "15"),
    (18, "Contrast2012", "20"),
    (18, "ToneCurvePV2012Red", "0, 0, 64, 50, 192, 210, 255, 255"),
    (18, "ToneCurvePV2012Green", "0, 0, 64, 70, 192, 205, 255, 255"),
    (18, "ToneCurvePV2012Blue", "0, 40, 255, 200"),
    (19, "Contrast2012", "15"),
    (19, "Highlights2012", "-30"),
    (19, "Blacks2012", "-10"),
    (19, "Saturation", "-15"),
    (19, "SplitToningShadowHue", "190"),
    (19, "SplitToningShadowSaturation", "30"),
    (19, "SplitToningHighlightHue", "40"),
    (19, "SplitToningHighlightSaturation", "20"),
    (19, "ToneCurvePV2012", "0, 15, 64, 55, 192, 200, 255, 245"),
    (19, "PostCropVignetteAmount", "-20"),
    (20, "Exposure2012", "-0.3"),
    (20, "Contrast2012", "20"),
    (20, "Highlights2012", "-40"),
    (20, "Shadows2012", "-10"),
    (20, "Saturation", "-25"),
    (20, "Clarity2012", "15"),
    (20, "PostCropVignetteAmount", "-35"),
    (20, "SplitToningShadowHue", "210"),
    (20, "SplitToningShadowSaturation", "12"),
    (21, "Contrast2012", "40"),
    (21, "Clarity2012", "40"),
    (21, "Dehaze", "15"),
    (21, "Highlights2012", "-50"),
    (21, "Shadows2012", "20"),
    (21, "Saturation", "-20"),
    (21, "PostCropVignetteAmount", "-30"),
    (22, "Exposure2012", "0.25"),
    (22, "Contrast2012", "-30"),
    (22, "Saturation", "-20"),
    (22, "Vibrance", "10"),
    (22, "ToneCurvePV2012", "0, 45, 255, 245"),
    (22, "SplitToningHighlightHue", "320"),
    (22, "SplitToningHighlightSaturation", "10"),
    (22, "SplitToningShadowHue", "190"),
    (22, "SplitToningShadowSaturation", "10"),
    (23, "ConvertToGrayscale", "True"),
    (23, "Contrast2012", "15"),
    (24, "ConvertToGrayscale", "True"),
    (24, "GrayMixerRed", "10"),
    (24, "GrayMixerOrange", "15"),
    (24, "GrayMixerYellow", "10"),
    (24, "GrayMixerGreen", "-20"),
    (24, "GrayMixerAqua", "-20"),
    (24, "GrayMixerBlue", "-30"),
    (24, "Contrast2012", "45"),
    (24, "Clarity2012", "25"),
    (24, "Blacks2012", "-20"),
    (24, "Whites2012", "15"),
    (25, "ConvertToGrayscale", "True"),
    (25, "GrayMixerRed", "15"),
    (25, "GrayMixerOrange", "20"),
    (25, "GrayMixerYellow", "10"),
    (25, "GrayMixerBlue", "-10"),
    (25, "Contrast2012", "-15"),
    (25, "Highlights2012", "-20"),
    (25, "Shadows2012", "25"),
    (25, "ToneCurvePV2012", "0, 25, 255, 245"),
    (26, "ConvertToGrayscale", "True"),
    (26, "GrayMixerRed", "-10"),
    (26, "GrayMixerGreen", "-30"),
    (26, "GrayMixerAqua", "-30"),
    (26, "GrayMixerBlue", "-40"),
    (26, "Contrast2012", "55"),
    (26, "Exposure2012", "-0.2"),
    (26, "Blacks2012", "-30"),
    (26, "PostCropVignetteAmount", "-45"),
    (26, "GrainAmount", "35"),
    (27, "ConvertToGrayscale", "True"),
    (27, "GrayMixerRed", "10"),
    (27, "GrayMixerOrange", "10"),
    (27, "Contrast2012", "5"),
    (27, "SplitToningShadowHue", "35"),
    (27, "SplitToningShadowSaturation", "35"),
    (27, "SplitToningHighlightHue", "45"),
    (27, "SplitToningHighlightSaturation", "25"),
    (28, "ConvertToGrayscale", "True"),
    (28, "Contrast2012", "20"),
    (28, "SplitToningShadowHue", "250"),
    (28, "SplitToningShadowSaturation", "20"),
    (28, "SplitToningHighlightHue", "40"),
    (28, "SplitToningHighlightSaturation", "8"),
];

/// The value of a setting: curves are lists of numbers.
pub open spec fn look_value(key: Seq<char>, value: Seq<char>) -> SettingView {
    if begins(key, "ToneCurve"@) {
        SettingView::List(numbers_of(value))
    } else {
        value_of(value)
    }
}

/// What the first `n` of the settings amount to for preset `i`.
pub open spec fn look_of(rows: Seq<(usize, &'static str, &'static str)>, i: int, n: nat) -> Map<
    Seq<char>,
    SettingView,
>
    decreases n,
{
    if n == 0 {
        Map::empty()
    } else {
        let before = look_of(rows, i, (n - 1) as nat);
        let row = rows[n - 1];
        if row.0 == i {
            before.insert(row.1@, look_value(row.1@, row.2@))
        } else {
            before
        }
    }
}

/// Preset `i` of the built-in ones.
pub open spec fn is_builtin(p: Preset, i: int) -> bool {
    &&& p.name@ == NAMES@[i].0@
    &&& p.group@ == NAMES@[i].1@
    &&& match p.content {
        Content::Sliders(a) => follows(a, look_of(LOOKS@, i, LOOKS@.len())),
        Content::Table(_) => false,
    }
}

fn read_value(key: &str, value: &str) -> (r: Setting)
    ensures
        r@ == look_value(key@, value@),
{
    let k = chars_of(key);
    let v = chars_of(value);
    if begins_with(&k, "ToneCurve") {
        Setting::List(numbers(&v))
    } else {
        value_from_str(&v)
    }
}

fn look(rows: &[(usize, &'static str, &'static str)], i: usize) -> (r: Settings)
    ensures
        r@ == look_of(rows@, i as int, rows@.len()),
{
    let mut out = Settings::new();
    let mut n: usize = 0;
    while n < rows.len()
        invariant
            n <= rows@.len(),
            out@ == look_of(rows@, i as int, n as nat),
        decreases rows.len() - n,
    {
        let row = rows[n];
        if row.0 == i {
            out.insert(row.1.to_owned(), read_value(row.1, row.2));
        }
        n = n + 1;
    }
    out
}

/// The presets that are part of the program. The first of them changes nothing.
pub fn builtins() -> (r: Vec<Preset>)
    ensures
        r@.len() == NAMES@.len(),
        forall|i: int| 0 <= i < r@.len() ==> is_builtin(#[trigger] r@[i], i),
{
    let mut out: Vec<Preset> = Vec::new();
    let mut i: usize = 0;
    while i < NAMES.len()
        invariant
            i <= NAMES@.len(),
            out@.len() == i,
            forall|k: int| 0 <= k < i ==> is_builtin(#[trigger] out@[k], k),
        decreases NAMES@.len() - i,
    {
        let settings = look(&LOOKS, i);
        let p = Preset {
            name: NAMES[i].0.to_owned(),
            group: NAMES[i].1.to_owned(),
            content: Content::Sliders(adjustments(&settings)),
        };
        assert(is_builtin(p, i as int));
        out.push(p);
        i = i + 1;
    }
    out
}

} // verus!
