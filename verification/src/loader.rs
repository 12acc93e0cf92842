//! Photo decoding (JPEG/PNG/TIFF/WebP via `image`; HEIC/HEIF and camera RAW are decoded by the
//! caller): which decoder a file takes, turning and fitting the picture, and the layout of the
//! pixels for the GPU.

use crate::import::{extension, is_preset_name};
use crate::metadata::{
    container_data, exif_fields, fields_view, read_container, FieldView, TagView, ValueView,
    ORIENTATION, THUMBNAIL_LENGTH, THUMBNAIL_OFFSET,
};
use crate::names::extension_of;
use crate::pixels::{rows, rows_fit, take_rows, MAX_SIDE};
use crate::text::contains_text;
use image::imageops::FilterType;
use image::metadata::Orientation;
use image::{DynamicImage, GenericImageView, ImageDecoder, ImageFormat, ImageReader, RgbaImage};
use std::io::Cursor;
use vstd::prelude::*;
use vstd::slice::slice_subrange;
use zune_core::bytestream::ZCursor;
use zune_core::colorspace::ColorSpace;
use zune_core::options::DecoderOptions;
use zune_jpeg::JpegDecoder;

verus! {

pub const RAW_EXTENSIONS: [&'static str; 17] = [
    "cr2",
    "cr3",
    "crw",
    "nef",
    "nrw",
    "arw",
    "srf",
    "sr2",
    "raf",
    "orf",
    "rw2",
    "pef",
    "dng",
    "srw",
    "3fr",
    "iiq",
    "erf",
];

pub const IMAGE_EXTENSIONS: [&'static str; 6] = ["jpg", "jpeg", "png", "tif", "tiff", "webp"];

pub const HEIF_EXTENSIONS: [&'static str; 4] = ["heic", "heif", "hif", "avif"];

// ---------------------------------------------------------------------------------------------
// Which decoder
// ---------------------------------------------------------------------------------------------

/// `e` is one of the extensions in `list`.
pub open spec fn listed(list: Seq<&'static str>, e: Seq<char>) -> bool {
    exists|i: int| 0 <= i < list.len() && (#[trigger] list[i])@ == e
}

/// A file name with the extension of a photo.
pub open spec fn is_photo_name(name: Seq<char>) -> bool {
    match extension_of(name) {
        Some(e) => listed(RAW_EXTENSIONS@, e) || listed(IMAGE_EXTENSIONS@, e) || listed(
            HEIF_EXTENSIONS@,
            e,
        ),
        None => false,
    }
}

/// No file is both a photo and a preset.
pub proof fn law_no_photo_is_a_preset(name: Seq<char>)
    ensures
        !(is_photo_name(name) && is_preset_name(name)),
{
    reveal_strlit("cr2");
    reveal_strlit("cr3");
    reveal_strlit("crw");
    reveal_strlit("nef");
    reveal_strlit("nrw");
    reveal_strlit("arw");
    reveal_strlit("srf");
    reveal_strlit("sr2");
    reveal_strlit("raf");
    reveal_strlit("orf");
    reveal_strlit("rw2");
    reveal_strlit("pef");
    reveal_strlit("dng");
    reveal_strlit("srw");
    reveal_strlit("3fr");
    reveal_strlit("iiq");
    reveal_strlit("erf");
    reveal_strlit("jpg");
    reveal_strlit("jpeg");
    reveal_strlit("png");
    reveal_strlit("tif");
    reveal_strlit("tiff");
    reveal_strlit("webp");
    reveal_strlit("heic");
    reveal_strlit("heif");
    reveal_strlit("hif");
    reveal_strlit("avif");
    reveal_strlit("xmp");
    reveal_strlit("lrtemplate");
    reveal_strlit("cube");
    if is_photo_name(name) && is_preset_name(name) {
        let e = extension_of(name)->0;
        if listed(RAW_EXTENSIONS@, e) {
            let i = choose|i: int| 0 <= i < RAW_EXTENSIONS@.len() && (#[trigger] RAW_EXTENSIONS@[i])@ == e;
            assert(e.len() == 3 && !(e[0] == 'x' && e[1] == 'm'));
        } else if listed(IMAGE_EXTENSIONS@, e) {
            let i = choose|i: int|
                0 <= i < IMAGE_EXTENSIONS@.len() && (#[trigger] IMAGE_EXTENSIONS@[i])@ == e;
            assert(e[0] == 'j' || e[0] == 'p' || e[0] == 't' || e[0] == 'w');
        } else {
            let i = choose|i: int| 0 <= i < HEIF_EXTENSIONS@.len() && (#[trigger] HEIF_EXTENSIONS@[i])@ == e;
            assert(e[0] == 'h' || e[0] == 'a');
        }
    }
}

/// Whether a file of this name is a photo.
pub fn is_photo(name: &str) -> (r: bool)
    ensures
        r == is_photo_name(name@),
{
    match extension(name) {
        Some(e) => contains_text(&RAW_EXTENSIONS, e.as_str()) || contains_text(
            &IMAGE_EXTENSIONS,
            e.as_str(),
        ) || contains_text(&HEIF_EXTENSIONS, e.as_str()),
        None => false,
    }
}

/// What decodes a file.
#[derive(Clone, Copy, PartialEq, Eq, Debug, Structural)]
pub enum Decoder {
    Raw,
    Jpeg,
    Heif,
    Image,
}

/// What decodes a file of this name: everything that is not known otherwise is left to the general
/// decoder.
pub open spec fn decoder_of(name: Seq<char>) -> Decoder {
    match extension_of(name) {
        Some(e) => if listed(RAW_EXTENSIONS@, e) {
            Decoder::Raw
        } else if e == "jpg"@ || e == "jpeg"@ {
            Decoder::Jpeg
        } else if listed(HEIF_EXTENSIONS@, e) {
            Decoder::Heif
        } else {
            Decoder::Image
        },
        None => Decoder::Image,
    }
}

/// What decodes a file of this name.
pub fn decoder_for(name: &str) -> (r: Decoder)
    ensures
        r == decoder_of(name@),
{
    match extension(name) {
        Some(e) => {
            if contains_text(&RAW_EXTENSIONS, e.as_str()) {
                Decoder::Raw
            } else if crate::text::text_eq(e.as_str(), "jpg") || crate::text::text_eq(
                e.as_str(),
                "jpeg",
            ) {
                Decoder::Jpeg
            } else if contains_text(&HEIF_EXTENSIONS, e.as_str()) {
                Decoder::Heif
            } else {
                Decoder::Image
            }
        },
        None => Decoder::Image,
    }
}

/// The images that a RAW file carries beside its sensor data.
#[derive(Clone, Copy, PartialEq, Eq, Debug, Structural)]
pub enum Embedded {
    Thumbnail,
    Preview,
    Full,
}

/// The order in which embedded images are tried: the smallest usable one (`small`, for thumbnails)
/// or the largest.
pub fn embedded_order(small: bool) -> (r: [Embedded; 3])
    ensures
        small ==> r@ == seq![Embedded::Thumbnail, Embedded::Preview, Embedded::Full],
        !small ==> r@ == seq![Embedded::Preview, Embedded::Full, Embedded::Thumbnail],
{
    if small {
        [Embedded::Thumbnail, Embedded::Preview, Embedded::Full]
    } else {
        [Embedded::Preview, Embedded::Full, Embedded::Thumbnail]
    }
}

/// Where a first look at a photo comes from.
#[derive(Clone, Copy, PartialEq, Eq, Debug, Structural)]
pub enum QuickLook {
    /// The thumbnail in a HEIF file.
    HeifThumbnail,
    /// The preview in a RAW file.
    RawPreview,
}

/// Where a fast, low-resolution first look comes from: the preview embedded in HEIC and RAW files.
/// None where the file has none, or is fast anyway.
pub fn load_quick(name: &str) -> (r: Option<QuickLook>)
    ensures
        r == match decoder_of(name@) {
            Decoder::Heif => Some(QuickLook::HeifThumbnail),
            Decoder::Raw => Some(QuickLook::RawPreview),
            _ => None,
        },
{
    match decoder_for(name) {
        Decoder::Heif => Some(QuickLook::HeifThumbnail),
        Decoder::Raw => Some(QuickLook::RawPreview),
        _ => None,
    }
}

// ---------------------------------------------------------------------------------------------
// Pixels
// ---------------------------------------------------------------------------------------------

pub enum Pixels {
    /// sRGB-encoded RGBA8, uploaded as `Rgba8UnormSrgb`.
    Srgb8(Vec<u8>),
    /// Linear-light RGBA as f16 bits, uploaded as `Rgba16Float`.
    LinearF16(Vec<u16>),
}

pub struct Decoded {
    pub width: u32,
    pub height: u32,
    pub pixels: Pixels,
    /// 8-bit Display P3 data, converted to sRGB on the GPU.
    pub p3: bool,
}

/// The bytes that the pixels of a photo take.
pub open spec fn bytes_of(p: Pixels) -> nat {
    match p {
        Pixels::Srgb8(v) => v@.len(),
        Pixels::LinearF16(v) => 2 * v@.len(),
    }
}

/// RGB as RGBA: an opaque alpha behind every three bytes.
pub open spec fn with_alpha(rgb: Seq<u8>) -> Seq<u8> {
    Seq::new(
        ((rgb.len() / 3) * 4) as nat,
        |i: int|
            if i % 4 == 3 {
                255u8
            } else {
                rgb[(i / 4) * 3 + i % 4]
            },
    )
}

/// RGB as RGBA: an opaque alpha behind every three bytes.
pub fn add_alpha(rgb: &[u8]) -> (r: Vec<u8>)
    ensures
        r@ == with_alpha(rgb@),
{
    let n: usize = rgb.len() / 3;
    let mut out: Vec<u8> = Vec::new();
    let mut k: usize = 0;
    while k < n
        invariant
            n == rgb@.len() / 3,
            n <= usize::MAX / 3,
            k <= n,
            out@.len() == 4 * k,
            forall|i: int|
                0 <= i < 4 * k ==> (#[trigger] out@[i]) == if i % 4 == 3 {
                    255u8
                } else {
                    rgb@[(i / 4) * 3 + i % 4]
                },
        decreases n - k,
    {
        let ghost before = out@;
        out.push(rgb[3 * k]);
        out.push(rgb[3 * k + 1]);
        out.push(rgb[3 * k + 2]);
        out.push(255);
        assert forall|i: int| 0 <= i < 4 * (k + 1) implies (#[trigger] out@[i]) == if i % 4 == 3 {
            255u8
        } else {
            rgb@[(i / 4) * 3 + i % 4]
        } by {
            if i < 4 * k {
                assert(out@[i] == before[i]);
            } else {
                assert(i / 4 == k);
            }
        }
        k = k + 1;
    }
    assert(out@ =~= with_alpha(rgb@));
    out
}

/// Every sample three times: gray as red, green and blue.
pub fn tripled<T: Copy>(gray: &[T]) -> (r: Vec<T>)
    ensures
        r@ == Seq::new((3 * gray@.len()) as nat, |i: int| gray@[i / 3]),
{
    let mut out: Vec<T> = Vec::new();
    let mut k: usize = 0;
    while k < gray.len()
        invariant
            k <= gray@.len(),
            out@ == Seq::new((3 * k) as nat, |i: int| gray@[i / 3]),
        decreases gray.len() - k,
    {
        let ghost before = out@;
        out.push(gray[k]);
        out.push(gray[k]);
        out.push(gray[k]);
        assert forall|i: int| 0 <= i < 3 * (k + 1) implies (#[trigger] out@[i]) == gray@[i / 3] by {
            if i < 3 * k {
                assert(out@[i] == before[i]);
            } else {
                assert(i / 3 == k);
            }
        }
        assert(out@ =~= Seq::new((3 * (k + 1)) as nat, |i: int| gray@[i / 3]));
        k = k + 1;
    }
    out
}

// ---------------------------------------------------------------------------------------------
// HEIF planes
// ---------------------------------------------------------------------------------------------

/// The largest value of a sample of `bits` bits.
pub open spec fn deep_max(bits: u8) -> nat {
    let b = if bits < 1 {
        1u8
    } else if bits > 16 {
        16u8
    } else {
        bits
    };
    (vstd::arithmetic::power2::pow2(b as nat) - 1) as nat
}

/// A sample of `bits` bits, low byte first, spread over 16 bits.
pub open spec fn deep_sample(low: u8, high: u8, bits: u8) -> u16 {
    let v = ((low + 256 * high) * 65535) / deep_max(bits) as int;
    (if v > 65535 {
        65535
    } else {
        v
    }) as u16
}

/// The 8-bit RGBA pixels of a plane of `width` by `height` pixels whose rows lie `stride` bytes
/// apart.
pub fn plane_pixels(data: &[u8], stride: usize, width: u32, height: u32) -> (r: Vec<u8>)
    requires
        rows_fit(data@.len() as int, 0, stride as int, width * 4, height as nat),
        width * 4 <= usize::MAX,
    ensures
        r@ == rows(data@, 0, stride as int, width * 4, height as nat),
{
    take_rows(data, 0, stride, width as usize * 4, height as usize)
}

fn deep_limit(bits: u8) -> (r: u32)
    ensures
        r == deep_max(bits),
        1 <= r <= 65535,
{
    proof {
        vstd::arithmetic::power2::lemma2_to64();
    }
    match bits {
        0 | 1 => 1,
        2 => 3,
        3 => 7,
        4 => 15,
        5 => 31,
        6 => 63,
        7 => 127,
        8 => 255,
        9 => 511,
        10 => 1023,
        11 => 2047,
        12 => 4095,
        13 => 8191,
        14 => 16383,
        15 => 32767,
        _ => 65535,
    }
}

/// The samples of `bits` bits in `bytes`, two bytes each, low byte first, spread over 16 bits.
pub fn deep_samples(bytes: &[u8], bits: u8) -> (r: Vec<u16>)
    ensures
        r@ == Seq::new(
            (bytes@.len() / 2) as nat,
            |i: int| deep_sample(bytes@[2 * i], bytes@[2 * i + 1], bits),
        ),
{
    let max: u32 = deep_limit(bits);
    let n: usize = bytes.len() / 2;
    let mut out: Vec<u16> = Vec::new();
    let mut k: usize = 0;
    while k < n
        invariant
            n == bytes@.len() / 2,
            n <= usize::MAX / 2,
            max == deep_max(bits),
            1 <= max <= 65535,
            k <= n,
            out@.len() == k,
            forall|i: int|
                0 <= i < k ==> (#[trigger] out@[i]) == deep_sample(
                    bytes@[2 * i],
                    bytes@[2 * i + 1],
                    bits,
                ),
        decreases n - k,
    {
        let v: u32 = bytes[2 * k] as u32 + 256 * bytes[2 * k + 1] as u32;
        let spread: u32 = v * 65535 / max;
        out.push(
            (if spread > 65535 {
                65535
            } else {
                spread
            }) as u16,
        );
        k = k + 1;
    }
    assert(out@ =~= Seq::new(
        (bytes@.len() / 2) as nat,
        |i: int| deep_sample(bytes@[2 * i], bytes@[2 * i + 1], bits),
    ));
    out
}

/// `p` stands somewhere in `s`.
pub open spec fn holds_bytes(s: Seq<u8>, p: Seq<u8>) -> bool {
    exists|i: int| 0 <= i && i + p.len() <= s.len() && #[trigger] s.subrange(i, i + p.len()) == p
}

/// "Display P3" in ASCII.
pub open spec fn p3_ascii() -> Seq<u8> {
    seq![68u8, 105u8, 115u8, 112u8, 108u8, 97u8, 121u8, 32u8, 80u8, 51u8]
}

/// "Display P3" in UTF-16, high byte first.
pub open spec fn p3_utf16() -> Seq<u8> {
    Seq::new(
        20,
        |i: int|
            if i % 2 == 0 {
                0u8
            } else {
                p3_ascii()[i / 2]
            },
    )
}

/// A colour profile that is called "Display P3": ICC descriptions are ASCII (v2) or UTF-16BE (v4
/// `mluc`).
pub open spec fn names_p3(icc: Seq<u8>) -> bool {
    holds_bytes(icc, p3_ascii()) || holds_bytes(icc, p3_utf16())
}

fn find_bytes(s: &[u8], p: &[u8]) -> (r: bool)
    ensures
        r == holds_bytes(s@, p@),
{
    if p.len() > s.len() {
        return false;
    }
    let size: usize = s.len();
    let last: usize = size - p.len();
    let mut i: usize = 0;
    loop
        invariant
            size == s@.len(),
            i <= last,
            last + p@.len() == s@.len(),
            forall|k: int| 0 <= k < i ==> #[trigger] s@.subrange(k, k + p@.len()) != p@,
        decreases last - i,
    {
        let ghost window = s@.subrange(i as int, i + p@.len());
        let mut j: usize = 0;
        while j < p.len() && s[i + j] == p[j]
            invariant
                i <= last,
                last + p@.len() == s@.len(),
                size == s@.len(),
                j <= p@.len(),
                window == s@.subrange(i as int, i + p@.len()),
                forall|k: int| 0 <= k < j ==> window[k] == p@[k],
            decreases p.len() - j,
        {
            j = j + 1;
        }
        if j == p.len() {
            assert(window =~= p@);
            return true;
        }
        assert(window[j as int] != p@[j as int]);
        if i == last {
            return false;
        }
        i = i + 1;
    }
}

/// Whether a colour profile is called "Display P3".
pub fn icc_is_display_p3(icc: &[u8]) -> (r: bool)
    ensures
        r == names_p3(icc@),
{
    let ascii: [u8; 10] = [68, 105, 115, 112, 108, 97, 121, 32, 80, 51];
    let utf16: [u8; 20] = [
        0,
        68,
        0,
        105,
        0,
        115,
        0,
        112,
        0,
        108,
        0,
        97,
        0,
        121,
        0,
        32,
        0,
        80,
        0,
        51,
    ];
    assert(ascii@ =~= p3_ascii());
    assert(utf16@ =~= p3_utf16());
    find_bytes(icc, &ascii) || find_bytes(icc, &utf16)
}

/// Whether a photo uses Display P3 primaries: its colour description says so, or its colour profile
/// is called so.
pub fn is_p3(primaries_are_p3: bool, icc: Option<&[u8]>) -> (r: bool)
    ensures
        r == (primaries_are_p3 || (icc matches Some(p) && names_p3(p@))),
{
    primaries_are_p3 || match icc {
        Some(p) => icc_is_display_p3(p),
        None => false,
    }
}

// ---------------------------------------------------------------------------------------------
// Pictures
// ---------------------------------------------------------------------------------------------

#[verifier::external_type_specification]
#[verifier::external_body]
pub struct ExDynamicImage(image::DynamicImage);

/// How a picture holds its pixels.
#[derive(Clone, Copy, PartialEq, Eq, Debug, Structural)]
pub enum Layout {
    /// Grey of 8 bits, and with alpha.
    Gray8,
    GrayAlpha8,
    /// Red, green and blue of 8 bits, and with alpha.
    Rgb8,
    Rgba8,
    /// Grey of 16 bits, and with alpha.
    Gray16,
    GrayAlpha16,
    /// Red, green and blue of 16 bits, and with alpha.
    Rgb16,
    Rgba16,
    /// Red, green and blue as fractions, and with alpha.
    RgbFloat,
    RgbaFloat,
}

/// The samples of one pixel.
pub open spec fn channels(l: Layout) -> nat {
    match l {
        Layout::Gray8 | Layout::Gray16 => 1,
        Layout::GrayAlpha8 | Layout::GrayAlpha16 => 2,
        Layout::Rgb8 | Layout::Rgb16 | Layout::RgbFloat => 3,
        Layout::Rgba8 | Layout::Rgba16 | Layout::RgbaFloat => 4,
    }
}

/// What a picture holds: its width and height, its layout, its samples pixel by pixel (those that are
/// fractions by their bits, everything that is no number by the same ones), and the colour space they are in (0 is sRGB).
pub struct Picture {
    pub size: (nat, nat),
    pub layout: Layout,
    pub samples: Seq<u32>,
    pub space: nat,
}

impl Picture {
    /// There are exactly the samples that the size needs.
    pub open spec fn is_whole(self) -> bool {
        self.samples.len() == self.size.0 * self.size.1 * channels(self.layout)
    }
}

/// What a picture holds.
pub uninterp spec fn picture(img: DynamicImage) -> Picture;

/// Bytes as samples.
pub open spec fn widened(b: Seq<u8>) -> Seq<u32> {
    b.map_values(|x: u8| x as u32)
}

/// Samples of 8 bits as bytes.
pub open spec fn narrowed(s: Seq<u32>) -> Seq<u8> {
    s.map_values(|x: u32| x as u8)
}

/// `GenericImageView::dimensions` of a picture.
#[verifier::external_body]
fn dimensions(img: &DynamicImage) -> (r: (u32, u32))
    ensures
        picture(*img).size == (r.0 as nat, r.1 as nat),
{
    GenericImageView::dimensions(img)
}

/// The variant of a [`DynamicImage`], which has no others than these.
#[verifier::external_body]
fn layout(img: &DynamicImage) -> (r: Layout)
    ensures
        r == picture(*img).layout,
{
    match img {
        DynamicImage::ImageLuma8(_) => Layout::Gray8,
        DynamicImage::ImageLumaA8(_) => Layout::GrayAlpha8,
        DynamicImage::ImageRgb8(_) => Layout::Rgb8,
        DynamicImage::ImageRgba8(_) => Layout::Rgba8,
        DynamicImage::ImageLuma16(_) => Layout::Gray16,
        DynamicImage::ImageLumaA16(_) => Layout::GrayAlpha16,
        DynamicImage::ImageRgb16(_) => Layout::Rgb16,
        DynamicImage::ImageRgba16(_) => Layout::Rgba16,
        DynamicImage::ImageRgb32F(_) => Layout::RgbFloat,
        _ => Layout::RgbaFloat,
    }
}

/// `RgbaImage::from_raw`, as a picture: there is one exactly where the samples are enough for its
/// size, and it holds them as they are.
#[verifier::external_body]
fn rgba_image(width: u32, height: u32, samples: Vec<u8>) -> (r: Option<DynamicImage>)
    ensures
        r is Some <==> 4 * width * height <= samples@.len(),
        r matches Some(img) ==> picture(img) == rgba_picture(width as nat, height as nat, samples@),
{
    RgbaImage::from_raw(width, height, samples).map(DynamicImage::ImageRgba8)
}

/// The picture of RGBA pixels in sRGB.
pub open spec fn rgba_picture(width: nat, height: nat, samples: Seq<u8>) -> Picture {
    Picture { size: (width, height), layout: Layout::Rgba8, samples: widened(samples), space: 0 }
}

/// The size of a picture once it is turned as the EXIF orientation `code` says: the codes from 5 on
/// lay it on its side.
pub open spec fn turned_size(size: (nat, nat), code: u8) -> (nat, nat) {
    if code >= 5 {
        (size.1, size.0)
    } else {
        size
    }
}

/// The pixel of a picture of this size that the EXIF orientation `code` brings to `at`.
pub open spec fn turned_from(size: (nat, nat), code: u8, at: (int, int)) -> (int, int) {
    let (w, h) = (size.0 as int, size.1 as int);
    let (x, y) = at;
    if code == 1 {
        (x, y)
    } else if code == 2 {
        (w - 1 - x, y)
    } else if code == 3 {
        (w - 1 - x, h - 1 - y)
    } else if code == 4 {
        (x, h - 1 - y)
    } else if code == 5 {
        (y, x)
    } else if code == 6 {
        (y, h - 1 - x)
    } else if code == 7 {
        (w - 1 - y, h - 1 - x)
    } else {
        (w - 1 - y, x)
    }
}

/// The picture turned as the EXIF orientation `code` says.
pub open spec fn turned(p: Picture, code: u8) -> Picture {
    let size = turned_size(p.size, code);
    let n = channels(p.layout) as int;
    Picture {
        size,
        samples: Seq::new(
            p.samples.len(),
            |j: int|
                {
                    let at = turned_from(
                        p.size,
                        code,
                        ((j / n) % size.0 as int, (j / n) / size.0 as int),
                    );
                    p.samples[(at.1 * p.size.0 + at.0) * n + j % n]
                },
        ),
        ..p
    }
}

/// The EXIF orientation that undoes another one.
pub open spec fn turned_back(code: u8) -> u8 {
    if code == 6 {
        8
    } else if code == 8 {
        6
    } else {
        code
    }
}

/// Turning a picture there and back brings every pixel to its place.
pub proof fn law_turning_back_restores(size: (nat, nat), code: u8, at: (int, int))
    requires
        1 <= code <= 8,
    ensures
        turned_size(turned_size(size, code), turned_back(code)) == size,
        turned_from(size, code, turned_from(turned_size(size, code), turned_back(code), at)) == at,
{
}

/// Every pixel of a turned picture comes from a pixel of the picture.
pub proof fn law_turned_pixels_come_from_the_picture(size: (nat, nat), code: u8, at: (int, int))
    requires
        1 <= code <= 8,
        0 <= at.0 < turned_size(size, code).0,
        0 <= at.1 < turned_size(size, code).1,
    ensures
        ({
            let from = turned_from(size, code, at);
            0 <= from.0 < size.0 && 0 <= from.1 < size.1
        }),
{
}

/// `after` is the picture `before`, turned as the EXIF orientation `code` says. (Where a picture holds
/// more samples than it needs, the spare ones are not spoken of.)
pub open spec fn is_turned(after: Picture, before: Picture, code: u8) -> bool {
    &&& after.size == turned_size(before.size, code)
    &&& after.layout == before.layout
    &&& before.is_whole() ==> after == turned(before, code)
    &&& code == 1 ==> after == before
}

/// A turned picture has exactly the samples that it needs, where the picture has.
proof fn lemma_turned_is_whole(after: Picture, before: Picture, code: u8)
    requires
        is_turned(after, before, code),
        before.is_whole(),
    ensures
        after.is_whole(),
{
    let (w, h, n) = (before.size.0, before.size.1, channels(before.layout));
    assert(w * h * n == h * w * n) by (nonlinear_arith);
}

/// `DynamicImage::apply_orientation` with the orientation of the EXIF code. Flips and quarter turns move
/// the pixels and change nothing else.
#[verifier::external_body]
fn turn(img: &mut DynamicImage, code: u8)
    requires
        1 <= code <= 8,
    ensures
        is_turned(picture(*final(img)), picture(*old(img)), code),
{
    img.apply_orientation(Orientation::from_exif(code).unwrap());
}

/// A picture resized, with the triangle filter, into a square of side `max`.
pub uninterp spec fn shrunk(p: Picture, max: u32) -> Picture;

/// A size that fits a square, with at least a pixel.
pub open spec fn fits_well(size: (nat, nat), max: u32) -> bool {
    0 < size.0 <= max && 0 < size.1 <= max
}

/// A picture that fits a square of side `max`.
pub open spec fn fits(size: (nat, nat), max: u32) -> bool {
    size.0 <= max && size.1 <= max
}

/// A picture of this size can be resized into a square of side `max`: the square is not too large to place
/// pixels in it, and what the result is made through fits into memory.
pub open spec fn is_shrinkable(size: (nat, nat), max: u32) -> bool {
    max <= MAX_SIDE && 16 * size.0 * max <= isize::MAX && 16 * size.0 <= isize::MAX
}

/// `DynamicImage::resize` with the triangle filter, into a square of side `max`: a function of the
/// picture. It keeps the layout, the result fits the square, and has exactly the samples that it needs;
/// a picture that fills the square is copied.
#[verifier::external_body]
fn shrink(img: &DynamicImage, max: u32) -> (r: DynamicImage)
    requires
        is_shrinkable(picture(*img).size, max),
    ensures
        picture(r) == shrunk(picture(*img), max),
        picture(r).layout == picture(*img).layout,
        max > 0 ==> fits(picture(r).size, max),
        max > 0 && picture(*img).size.0 > 0 && picture(*img).size.1 > 0 ==> fits_well(
            picture(r).size,
            max,
        ),
        if picture(*img).size == (max as nat, max as nat) {
            picture(r) == picture(*img)
        } else {
            picture(r).is_whole()
        },
{
    img.resize(max, max, FilterType::Triangle)
}

/// A small copy of a picture, in a square of side `max`.
pub uninterp spec fn reduced(p: Picture, max: u32) -> Picture;

/// A side of a picture, scaled as the longer one is to become `max`; rounded down, but at least a pixel.
pub open spec fn scaled_side(side: nat, size: (nat, nat), max: u32) -> nat {
    let long = if size.0 >= size.1 {
        size.0
    } else {
        size.1
    };
    let scaled = side * max / long as int;
    if long == 0 || scaled == 0 {
        1
    } else {
        scaled as nat
    }
}

/// The most pixels of a side that become one pixel of a small copy. (Single precision places the blocks of
/// long sides with an error.)
pub open spec fn block(side: nat, size: (nat, nat), max: u32) -> nat {
    let n = scaled_side(side, size, max);
    ((side + n - 1) / n as int + side as int / 0x20_0000) as nat
}

/// The largest sample; 0 where samples are fractions, which do not overflow.
pub open spec fn largest_sample(l: Layout) -> nat {
    match l {
        Layout::Gray8 | Layout::GrayAlpha8 | Layout::Rgb8 | Layout::Rgba8 => 255,
        Layout::Gray16 | Layout::GrayAlpha16 | Layout::Rgb16 | Layout::Rgba16 => 65535,
        Layout::RgbFloat | Layout::RgbaFloat => 0,
    }
}

/// `n` pixels can be averaged: they are counted within 32 bits, and their samples, and half of `n` for the
/// rounding, add up within 32 bits.
pub open spec fn can_average(n: nat, l: Layout) -> bool {
    n <= u32::MAX && n * largest_sample(l) + n / 2 <= u32::MAX
}

/// A small copy of a picture can be made: the pixels that become one can be averaged, and the copy fits
/// into memory.
pub open spec fn is_reducible(p: Picture, max: u32) -> bool {
    &&& can_average(block(p.size.0, p.size, max) * block(p.size.1, p.size, max), p.layout)
    &&& 16 * max * max <= isize::MAX
}

/// `DynamicImage::thumbnail` into a square of side `max`: a function of the picture. It keeps the layout,
/// the result fits the square, and has exactly the samples that it needs.
#[verifier::external_body]
fn small_copy(img: &DynamicImage, max: u32) -> (r: DynamicImage)
    requires
        is_reducible(picture(*img), max),
    ensures
        picture(r) == reduced(picture(*img), max),
        picture(r).layout == picture(*img).layout,
        max > 0 ==> fits(picture(r).size, max),
        max > 0 && picture(*img).size.0 > 0 && picture(*img).size.1 > 0 ==> fits_well(
            picture(r).size,
            max,
        ),
        picture(r).is_whole(),
{
    img.thumbnail(max, max)
}

/// `DynamicImage::into_bytes`: the samples of a picture of 8 bits a sample.
#[verifier::external_body]
fn into_samples(img: DynamicImage) -> (r: Vec<u8>)
    requires
        picture(img).layout == Layout::Rgb8 || picture(img).layout == Layout::Rgba8,
    ensures
        r@ == narrowed(picture(img).samples),
{
    img.into_bytes()
}

/// The pixels of a picture as red, green, blue and alpha of 8 bits.
pub uninterp spec fn rgba_of(p: Picture) -> Seq<u8>;

/// `DynamicImage::into_rgba8`: a function of the picture, four samples for each pixel; those of an RGBA
/// picture are its own, spare ones among them.
#[verifier::external_body]
fn into_rgba(img: DynamicImage) -> (r: Vec<u8>)
    ensures
        r@ == rgba_of(picture(img)),
        r@.len() >= 4 * picture(img).size.0 * picture(img).size.1,
        picture(img).is_whole() || picture(img).layout != Layout::Rgba8 ==> r@.len() == 4 * picture(
            img,
        ).size.0 * picture(img).size.1,
        picture(img).layout == Layout::Rgba8 ==> r@ == narrowed(picture(img).samples),
{
    img.into_rgba8().into_raw()
}

/// The pixels of a picture as red, green, blue and alpha of 16 bits.
pub uninterp spec fn deep_of(p: Picture) -> Seq<u16>;

/// `DynamicImage::into_rgba16`: a function of the picture, four samples for each pixel; those of an RGBA
/// picture of 16 bits are its own, spare ones among them.
#[verifier::external_body]
fn into_deep(img: DynamicImage) -> (r: Vec<u16>)
    ensures
        r@ == deep_of(picture(img)),
        r@.len() >= 4 * picture(img).size.0 * picture(img).size.1,
        picture(img).is_whole() || picture(img).layout != Layout::Rgba16 ==> r@.len() == 4 * picture(
            img,
        ).size.0 * picture(img).size.1,
{
    img.into_rgba16().into_raw()
}

/// The EXIF orientation code in a chunk of EXIF data.
pub uninterp spec fn chunk_orientation(chunk: Seq<u8>) -> Option<u8>;

/// `Orientation::from_exif_chunk` as the EXIF code: a function of the bytes, from 1 to 8.
#[verifier::external_body]
fn orientation_in(chunk: &[u8]) -> (r: Option<u8>)
    ensures
        r == chunk_orientation(chunk@),
        r matches Some(code) ==> 1 <= code <= 8,
{
    Orientation::from_exif_chunk(chunk).map(|o| o.to_exif())
}

/// What the JPEG decoder gives: the pixels, whether they are RGBA, the size, and the EXIF data.
pub struct Jpeg {
    pub pixels: Vec<u8>,
    pub rgba: bool,
    pub size: Option<(u16, u16)>,
    pub exif: Option<Vec<u8>>,
}

/// What a [`Jpeg`] holds.
pub struct JpegView {
    pub pixels: Seq<u8>,
    pub rgba: bool,
    pub size: Option<(u16, u16)>,
    pub exif: Option<Seq<u8>>,
}

impl View for Jpeg {
    type V = JpegView;

    open spec fn view(&self) -> JpegView {
        JpegView {
            pixels: self.pixels@,
            rgba: self.rgba,
            size: self.size,
            exif: match self.exif {
                Some(e) => Some(e@),
                None => None,
            },
        }
    }
}

/// RGBA pixels come with a size, and are exactly as many.
pub open spec fn is_exact(j: JpegView) -> bool {
    j.rgba ==> match j.size {
        Some((w, h)) => w > 0 && h > 0 && j.pixels.len() == 4 * w * h,
        None => true,
    }
}

/// What the JPEG decoder makes of some bytes.
pub uninterp spec fn decoded_jpeg(bytes: Seq<u8>) -> Option<JpegView>;

/// `zune_jpeg::JpegDecoder`, asked for RGBA with sides of up to 65536: a function of the bytes. (It
/// computes with integers, and its variants for different processors compute the same.) RGBA pixels
/// are exactly as many as the size needs, and neither side is empty. Data that it cannot decode is
/// reported as an error; nothing is claimed of bytes on which the decoder would not return.
#[verifier::external_body]
fn decode_jpeg(bytes: &[u8]) -> (r: Option<Jpeg>)
    ensures
        match r {
            Some(j) => decoded_jpeg(bytes@) == Some(j@) && is_exact(j@),
            None => decoded_jpeg(bytes@) is None,
        },
{
    let options = DecoderOptions::default()
        .jpeg_set_out_colorspace(ColorSpace::RGBA)
        .set_max_width(1 << 16)
        .set_max_height(1 << 16);
    let mut decoder = JpegDecoder::new_with_options(ZCursor::new(bytes), options);
    let pixels = decoder.decode().ok()?;
    let rgba = decoder.output_colorspace() == Some(ColorSpace::RGBA);
    let size = decoder.info().map(|i| (i.width, i.height));
    Some(Jpeg { pixels, rgba, size, exif: decoder.exif().cloned() })
}

/// What the general decoder makes of a file with these bytes and this extension: the picture and the EXIF
/// code of its orientation, or a message.
pub uninterp spec fn decoded_image(bytes: Seq<u8>, extension: Seq<char>) -> Result<
    (Picture, u8),
    Seq<char>,
>;

/// `image::ImageReader` on the bytes of a file with this extension: the format is guessed from the
/// bytes, and where that fails, from the extension. Gives the picture, with all its samples, and the EXIF
/// code of its orientation (1 where the file has none), or the decoder's message: a function of both. Data
/// that they cannot decode the decoders report as errors; nothing is claimed of bytes on which one would
/// not return.
#[verifier::external_body]
fn decode_image(bytes: &[u8], extension: &str) -> (r: Result<(DynamicImage, u8), String>)
    ensures
        match r {
            Ok((img, code)) => {
                &&& decoded_image(bytes@, extension@) == Ok::<(Picture, u8), Seq<char>>(
                    (picture(img), code),
                )
                &&& picture(img).is_whole()
                &&& 1 <= code <= 8
            },
            Err(e) => decoded_image(bytes@, extension@) == Err::<(Picture, u8), Seq<char>>(e@),
        },
{
    let mut reader = ImageReader::new(Cursor::new(bytes));
    if let Some(format) = ImageFormat::from_extension(extension) {
        reader.set_format(format);
    }
    let guessed = reader.with_guessed_format().map_err(|e| e.to_string())?;
    let mut decoder = guessed.into_decoder().map_err(|e| e.to_string())?;
    let turned = decoder.orientation().unwrap_or(Orientation::NoTransforms).to_exif();
    let img = DynamicImage::from_decoder(decoder).map_err(|e| e.to_string())?;
    Ok((img, turned))
}

/// The picture of a JPEG in memory.
pub uninterp spec fn decoded_small_jpeg(bytes: Seq<u8>) -> Option<Picture>;

/// `image::load_from_memory_with_format` for a JPEG: a function of the bytes. The picture has all its
/// samples. Data that it cannot decode is reported as an error; nothing is claimed of bytes on which the
/// decoder would not return.
#[verifier::external_body]
fn decode_small_jpeg(bytes: &[u8]) -> (r: Option<DynamicImage>)
    ensures
        match r {
            Some(img) => decoded_small_jpeg(bytes@) == Some(picture(img)) && picture(img).is_whole(),
            None => decoded_small_jpeg(bytes@) is None,
        },
{
    image::load_from_memory_with_format(bytes, ImageFormat::Jpeg).ok()
}

/// The EXIF code that a field's number stands for: its lowest byte, where that is a code; else 1, the
/// picture as it is.
pub open spec fn code_of(n: Option<u32>) -> u8 {
    match n {
        Some(x) => if 1 <= x % 256 <= 8 {
            (x % 256) as u8
        } else {
            1
        },
        None => 1,
    }
}

/// The EXIF code that a field's number stands for.
pub fn orientation_code(n: Option<u32>) -> (r: u8)
    ensures
        r == code_of(n),
        1 <= r <= 8,
{
    match n {
        Some(x) => {
            let low: u32 = x % 256;
            if 1 <= low && low <= 8 {
                low as u8
            } else {
                1
            }
        },
        None => 1,
    }
}

/// A picture, turned upright.
pub fn upright(img: DynamicImage, code: u8) -> (r: DynamicImage)
    requires
        1 <= code <= 8,
    ensures
        is_turned(picture(r), picture(img), code),
{
    let mut turned = img;
    turn(&mut turned, code);
    turned
}

/// The orientation of a JPEG: that of its EXIF data, or 1.
pub open spec fn jpeg_code(exif: Option<Seq<u8>>) -> u8 {
    match exif {
        Some(chunk) => match chunk_orientation(chunk) {
            Some(code) => code,
            None => 1,
        },
        None => 1,
    }
}

/// A JPEG can be used as it was decoded: its pixels are RGBA, and enough for its size.
pub open spec fn usable(j: JpegView) -> bool {
    j.rgba && match j.size {
        Some((w, h)) => 4 * w * h <= j.pixels.len(),
        None => false,
    }
}

/// The picture of a decoded JPEG, upright. None for anything unusual (e.g. CMYK), so that the general
/// decoder handles it.
pub open spec fn pictures(r: Option<DynamicImage>, j: JpegView) -> bool {
    match r {
        Some(img) => {
            &&& usable(j)
            &&& j.size matches Some((w, h)) && is_turned(
                picture(img),
                rgba_picture(w as nat, h as nat, j.pixels),
                jpeg_code(j.exif),
            )
        },
        None => !usable(j),
    }
}

/// The picture of a decoded JPEG, upright. None for anything unusual (e.g. CMYK), so that the general
/// decoder handles it.
pub fn jpeg_picture(j: Jpeg) -> (r: Option<DynamicImage>)
    ensures
        pictures(r, j@),
        is_exact(j@) ==> (r matches Some(img) ==> picture(img).is_whole()),
{
    if !j.rgba {
        return None;
    }
    let (w, h) = match j.size {
        Some(size) => size,
        None => {
            return None;
        },
    };
    let code: u8 = match &j.exif {
        Some(chunk) => match orientation_in(chunk) {
            Some(code) => code,
            None => 1,
        },
        None => 1,
    };
    match rgba_image(w as u32, h as u32, j.pixels) {
        Some(img) => {
            let up = upright(img, code);
            proof {
                if is_exact(j@) {
                    assert(4 * w * h == w * h * 4) by (nonlinear_arith);
                    lemma_turned_is_whole(picture(up), picture(img), code);
                }
            }
            Some(up)
        },
        None => None,
    }
}

/// Decodes a JPEG straight to RGBA (what the GPU wants), skipping an RGB to RGBA pass.
pub fn load_jpeg(bytes: &[u8]) -> (r: Option<DynamicImage>)
    ensures
        match decoded_jpeg(bytes@) {
            Some(j) => pictures(r, j),
            None => r is None,
        },
        r matches Some(img) ==> picture(img).is_whole(),
{
    match decode_jpeg(bytes) {
        Some(j) => jpeg_picture(j),
        None => None,
    }
}

/// The extension of a name; empty where it has none.
pub open spec fn extension_or_empty(name: Seq<char>) -> Seq<char> {
    match extension_of(name) {
        Some(e) => e,
        None => seq![],
    }
}

/// What decoding gave, upright; or the decoder's message.
pub open spec fn is_opened(
    r: Result<DynamicImage, String>,
    found: Result<(Picture, u8), Seq<char>>,
) -> bool {
    match found {
        Ok((p, code)) => r matches Ok(img) && is_turned(picture(img), p, code) && p.is_whole(),
        Err(message) => r matches Err(e) && e@ == message,
    }
}

/// Decodes a file of this name by its content, upright.
pub fn load_image(bytes: &[u8], name: &str) -> (r: Result<DynamicImage, String>)
    ensures
        is_opened(r, decoded_image(bytes@, extension_or_empty(name@))),
        r matches Ok(img) ==> picture(img).is_whole(),
{
    let e = match extension(name) {
        Some(e) => e,
        None => String::new(),
    };
    assert(e@ =~= extension_or_empty(name@));
    match decode_image(bytes, e.as_str()) {
        Ok((img, code)) => {
            let up = upright(img, code);
            proof {
                lemma_turned_is_whole(picture(up), picture(img), code);
            }
            Ok(up)
        },
        Err(message) => Err(message),
    }
}

/// The JPEG decoder's picture of a file can be used.
pub open spec fn is_plain_jpeg(bytes: Seq<u8>) -> bool {
    match decoded_jpeg(bytes) {
        Some(j) => usable(j),
        None => false,
    }
}

/// What decoding a file that is neither camera RAW nor HEIF gives: a JPEG by its own decoder where that
/// can, every other file and the unusual JPEGs by the general one.
pub open spec fn opens(r: Result<DynamicImage, String>, bytes: Seq<u8>, name: Seq<char>) -> bool {
    if decoder_of(name) == Decoder::Jpeg && is_plain_jpeg(bytes) {
        r matches Ok(img) && pictures(Some(img), decoded_jpeg(bytes)->0)
    } else {
        is_opened(r, decoded_image(bytes, extension_or_empty(name)))
    }
}

/// Decodes a file that is neither camera RAW nor HEIF: a JPEG by its own decoder where that can, every
/// other file and the unusual JPEGs by the general one.
pub fn open(bytes: &[u8], name: &str) -> (r: Result<DynamicImage, String>)
    ensures
        opens(r, bytes@, name@),
        r matches Ok(img) ==> picture(img).is_whole(),
{
    if decoder_for(name) == Decoder::Jpeg {
        if let Some(img) = load_jpeg(bytes) {
            return Ok(img);
        }
    }
    load_image(bytes, name)
}

/// A picture of this size can be made to fit a square of side `max`: it fits already, or can be resized.
pub open spec fn can_fit(size: (nat, nat), max: u32) -> bool {
    fits(size, max) || is_shrinkable(size, max)
}

/// A picture made to fit a square of side `max`: shrunk, unless it fits already.
pub open spec fn is_fitted(r: DynamicImage, img: DynamicImage, max: u32) -> bool {
    let (before, after) = (picture(img), picture(r));
    &&& if fits(before.size, max) {
        r == img
    } else {
        after == shrunk(before, max) && after.layout == before.layout && after.is_whole()
    }
    &&& max > 0 ==> fits(after.size, max)
    &&& max > 0 && before.size.0 > 0 && before.size.1 > 0 ==> fits_well(after.size, max)
}

/// Whether [`fit_within`] can make a picture fit a square of side `max`.
pub fn is_fittable(img: &DynamicImage, max: u32) -> (r: bool)
    ensures
        r == can_fit(picture(*img).size, max),
{
    let (w, h) = dimensions(img);
    if w <= max && h <= max {
        return true;
    }
    if max > MAX_SIDE {
        return false;
    }
    assert(0 <= w * max <= 0xffff_ffff * 2097152) by (nonlinear_arith)
        requires
            0 <= w <= 0xffff_ffff,
            0 <= max <= 2097152,
    ;
    assert(16 * w * max == 16 * (w * max)) by (nonlinear_arith);
    16 * (w as u64 * max as u64) <= isize::MAX as u64 && 16 * w as u64 <= isize::MAX as u64
}

/// A picture made to fit a square of side `max_dim`; one that fits already is left as it is.
pub fn fit_within(img: DynamicImage, max_dim: u32) -> (r: DynamicImage)
    requires
        can_fit(picture(img).size, max_dim),
    ensures
        is_fitted(r, img, max_dim),
{
    let (w, h) = dimensions(&img);
    if w > max_dim || h > max_dim {
        shrink(&img, max_dim)
    } else {
        img
    }
}

/// A picture on its way to the GPU.
pub enum Arranged {
    /// 8 bits: ready as it is; a P3 to sRGB matrix is applied on the GPU.
    Ready(Decoded),
    /// High bit depth: RGBA samples to be linearised on the CPU to keep the precision (and converted
    /// from P3 there).
    Deep { width: u32, height: u32, samples: Vec<u16> },
    /// Linear fractions, to be stored with half the precision.
    Float { width: u32, height: u32, image: DynamicImage },
}

impl Arranged {
    /// The width and height.
    pub open spec fn size(self) -> (nat, nat) {
        match self {
            Arranged::Ready(d) => (d.width as nat, d.height as nat),
            Arranged::Deep { width, height, samples } => (width as nat, height as nat),
            Arranged::Float { width, height, image } => (width as nat, height as nat),
        }
    }

    /// There are exactly the samples that the size needs.
    pub open spec fn is_full(self) -> bool {
        match self {
            Arranged::Ready(d) => match d.pixels {
                Pixels::Srgb8(px) => px@.len() == 4 * d.width * d.height,
                Pixels::LinearF16(px) => px@.len() == 4 * d.width * d.height,
            },
            Arranged::Deep { width, height, samples } => samples@.len() == 4 * width * height,
            Arranged::Float { width, height, image } => picture(image).is_whole(),
        }
    }
}

/// The picture `img` arranged for the GPU.
pub open spec fn arranges(a: Arranged, img: DynamicImage, p3: bool) -> bool {
    let p = picture(img);
    match p.layout {
        Layout::Rgb16 | Layout::Rgba16 => match a {
            Arranged::Deep { width, height, samples } => {
                &&& (width as nat, height as nat) == p.size
                &&& samples@ == deep_of(p)
                &&& samples@.len() >= 4 * width * height
            },
            _ => false,
        },
        Layout::RgbFloat => match a {
            Arranged::Float { width, height, image } => (width as nat, height as nat) == p.size && image
                == img,
            _ => false,
        },
        other => match a {
            Arranged::Ready(d) => {
                &&& (d.width as nat, d.height as nat) == p.size
                &&& d.p3 == p3
                &&& match d.pixels {
                    Pixels::Srgb8(px) => match other {
                        Layout::Rgba8 => px@ == narrowed(p.samples),
                        Layout::Rgb8 => px@ == with_alpha(narrowed(p.samples)),
                        _ => px@ == rgba_of(p) && px@.len() == 4 * d.width * d.height,
                    },
                    _ => false,
                }
            },
            _ => false,
        },
    }
}

/// Arranges a picture for the GPU.
pub fn arrange(img: DynamicImage, p3: bool) -> (r: Arranged)
    ensures
        arranges(r, img, p3),
        r.size() == picture(img).size,
        picture(img).is_whole() ==> r.is_full(),
{
    let (width, height) = dimensions(&img);
    proof {
        assert(width * height * 4 == 4 * width * height) by (nonlinear_arith);
    }
    match layout(&img) {
        Layout::Rgb16 | Layout::Rgba16 => Arranged::Deep { width, height, samples: into_deep(img) },
        Layout::RgbFloat => Arranged::Float { width, height, image: img },
        Layout::Rgba8 => Arranged::Ready(
            Decoded { width, height, pixels: Pixels::Srgb8(into_samples(img)), p3 },
        ),
        Layout::Rgb8 => {
            let rgb = into_samples(img);
            assert(picture(img).is_whole() ==> rgb@.len() / 3 == width * height) by {
                assert(width * height * 3 == 3 * (width * height)) by (nonlinear_arith);
            }
            assert(4 * width * height == (width * height) * 4) by (nonlinear_arith);
            Arranged::Ready(Decoded { width, height, pixels: Pixels::Srgb8(add_alpha(&rgb)), p3 })
        },
        _ => Arranged::Ready(
            Decoded { width, height, pixels: Pixels::Srgb8(into_rgba(img)), p3 },
        ),
    }
}

/// What loading a photo gives: the decoded picture, made to fit `max_dim` and arranged for the GPU; or the
/// decoder's message. Nothing for a picture that cannot be made to fit.
pub open spec fn loads(
    r: Option<Result<Arranged, String>>,
    opened: Result<DynamicImage, String>,
    max_dim: u32,
) -> bool {
    match opened {
        Ok(img) => if can_fit(picture(img).size, max_dim) {
            exists|fitted: DynamicImage|
                #[trigger] is_fitted(fitted, img, max_dim) && (r matches Some(Ok(a)) && arranges(
                    a,
                    fitted,
                    false,
                ) && a.size() == picture(fitted).size)
        } else {
            r is None
        },
        Err(e) => r matches Some(Err(x)) && x@ == e@,
    }
}

/// Decodes a photo that is neither camera RAW nor HEIF, applying its orientation, fitting it within
/// `max_dim` and arranging it for the GPU. Nothing for a picture that cannot be made to fit.
pub fn load(bytes: &[u8], name: &str, max_dim: u32) -> (r: Option<Result<Arranged, String>>)
    ensures
        exists|opened: Result<DynamicImage, String>|
            #[trigger] opens(opened, bytes@, name@) && loads(r, opened, max_dim),
        r matches Some(Ok(a)) ==> a.is_full() && (max_dim > 0 ==> fits(a.size(), max_dim)),
{
    let opened = open(bytes, name);
    let ghost was = opened;
    match opened {
        Ok(img) => {
            if !is_fittable(&img, max_dim) {
                let r: Option<Result<Arranged, String>> = None;
                assert(loads(r, was, max_dim));
                return r;
            }
            let fitted = fit_within(img, max_dim);
            let ghost kept = fitted;
            assert(is_fitted(kept, img, max_dim));
            let a = arrange(fitted, false);
            let r: Option<Result<Arranged, String>> = Some(Ok(a));
            assert(arranges(a, kept, false));
            assert(loads(r, was, max_dim));
            r
        },
        Err(e) => {
            let r: Option<Result<Arranged, String>> = Some(Err(e));
            assert(loads(r, was, max_dim));
            r
        },
    }
}

/// A quick preview on its way to the GPU: RGBA pixels of 8 bits.
pub fn arrange_quick(img: DynamicImage, p3: bool) -> (r: Decoded)
    ensures
        (r.width as nat, r.height as nat) == picture(img).size,
        r.p3 == p3,
        r.pixels matches Pixels::Srgb8(px) && px@ == rgba_of(picture(img)) && px@.len() >= 4 * r.width
            * r.height,
        picture(img).is_whole() || picture(img).layout != Layout::Rgba8 ==> (r.pixels matches Pixels::Srgb8(
            px,
        ) && px@.len() == 4 * r.width * r.height),
{
    let (width, height) = dimensions(&img);
    Decoded { width, height, pixels: Pixels::Srgb8(into_rgba(img)), p3 }
}

/// A small copy of a picture: its size and its RGBA pixels.
pub open spec fn is_thumbnail(t: (u32, u32, Vec<u8>), p: Picture, max: u32) -> bool {
    let small = reduced(p, max);
    let size = (t.0 as nat, t.1 as nat);
    &&& size == small.size
    &&& t.2@ == rgba_of(small)
    &&& t.2@.len() == 4 * t.0 * t.1
    &&& max > 0 ==> fits(size, max)
    &&& max > 0 && p.size.0 > 0 && p.size.1 > 0 ==> fits_well(size, max)
}

fn block_of_side(side: u32, long: u32, max: u32) -> (r: u64)
    requires
        side <= long,
    ensures
        forall|size: (nat, nat)|
            (size.0 == long && size.1 <= long || size.1 == long && size.0 <= long) ==> r == #[trigger] block(
                side as nat,
                size,
                max,
            ),
        r <= 0x1_0000_0000 + 0x800,
{
    let n: u64 = if long == 0 {
        1
    } else {
        assert(0 <= side * max <= 0xffff_ffff * 0xffff_ffff) by (nonlinear_arith)
            requires
                0 <= side <= 0xffff_ffff,
                0 <= max <= 0xffff_ffff,
        ;
        let scaled: u64 = side as u64 * max as u64 / long as u64;
        assert(scaled <= max) by (nonlinear_arith)
            requires
                scaled == side * max / long as int,
                side <= long,
                long > 0,
        ;
        if scaled == 0 {
            1
        } else {
            scaled
        }
    };
    assert((side + n - 1) / n as int <= side) by (nonlinear_arith)
        requires
            n >= 1,
            side >= 0,
    ;
    (side as u64 + n - 1) / n + side as u64 / 0x20_0000
}

/// Whether [`thumbnail_of`] can make a small copy of a picture.
pub fn can_be_reduced(img: &DynamicImage, max: u32) -> (r: bool)
    ensures
        r == is_reducible(picture(*img), max),
{
    let (w, h) = dimensions(img);
    let long: u32 = if w >= h {
        w
    } else {
        h
    };
    let largest: u128 = match layout(img) {
        Layout::Gray8 | Layout::GrayAlpha8 | Layout::Rgb8 | Layout::Rgba8 => 255,
        Layout::Gray16 | Layout::GrayAlpha16 | Layout::Rgb16 | Layout::Rgba16 => 65535,
        Layout::RgbFloat | Layout::RgbaFloat => 0,
    };
    let across: u64 = block_of_side(w, long, max);
    let down: u64 = block_of_side(h, long, max);
    assert(across == block(w as nat, (w as nat, h as nat), max));
    assert(down == block(h as nat, (w as nat, h as nat), max));
    assert(0 <= across * down <= 0x1_0000_0800 * 0x1_0000_0800) by (nonlinear_arith)
        requires
            0 <= across <= 0x1_0000_0800,
            0 <= down <= 0x1_0000_0800,
    ;
    let area: u128 = across as u128 * down as u128;
    assert(0 <= area * largest <= 0x1_0000_0800 * 0x1_0000_0800 * 65536) by (nonlinear_arith)
        requires
            0 <= area <= 0x1_0000_0800 * 0x1_0000_0800,
            0 <= largest <= 65536,
    ;
    assert(0 <= max * max <= 0xffff_ffff * 0xffff_ffff) by (nonlinear_arith)
        requires
            0 <= max <= 0xffff_ffff,
    ;
    assert(16 * max * max == 16 * (max * max)) by (nonlinear_arith);
    area <= u32::MAX as u128 && area * largest + area / 2 <= u32::MAX as u128 && 16 * (max as u128
        * max as u128) <= isize::MAX as u128
}

/// A small copy for the filmstrip: its size and its RGBA pixels.
pub fn thumbnail_of(img: &DynamicImage, max: u32) -> (r: (u32, u32, Vec<u8>))
    requires
        is_reducible(picture(*img), max),
    ensures
        is_thumbnail(r, picture(*img), max),
{
    let small = small_copy(img, max);
    let (w, h) = dimensions(&small);
    let px = into_rgba(small);
    (w, h, px)
}

// ---------------------------------------------------------------------------------------------
// Thumbnails in EXIF data
// ---------------------------------------------------------------------------------------------

/// The first number of a value of whole numbers.
pub open spec fn first_uint(v: ValueView) -> Option<u32> {
    match v {
        ValueView::Byte(b) => if b.len() > 0 {
            Some(b[0] as u32)
        } else {
            None
        },
        ValueView::Short(n) => if n.len() > 0 {
            Some(n[0] as u32)
        } else {
            None
        },
        ValueView::Long(n) => if n.len() > 0 {
            Some(n[0])
        } else {
            None
        },
        _ => None,
    }
}

/// The number of the last field with this tag in this directory.
pub open spec fn last_uint(f: Seq<FieldView>, t: TagView, ifd: u16) -> Option<u32>
    decreases f.len(),
{
    if f.len() == 0 {
        None
    } else if f.last().tag == t && f.last().ifd == ifd {
        first_uint(f.last().value)
    } else {
        last_uint(f.drop_last(), t, ifd)
    }
}

/// The thumbnail in EXIF data: the part of the data that its offset and its length name, and the
/// orientation of the photo.
pub open spec fn thumbnail_in(f: Seq<FieldView>, data: Seq<u8>) -> Option<(Seq<u8>, u8)> {
    match (last_uint(f, THUMBNAIL_OFFSET, 1), last_uint(f, THUMBNAIL_LENGTH, 1)) {
        (Some(at), Some(len)) => if at + len <= data.len() {
            Some((data.subrange(at as int, at + len), code_of(last_uint(f, ORIENTATION, 0))))
        } else {
            None
        },
        _ => None,
    }
}

fn uint(v: &exif::Value) -> (r: Option<u32>)
    ensures
        r == first_uint(crate::metadata::value_view(*v)),
{
    match v {
        exif::Value::Byte(b) => {
            if b.len() > 0 {
                Some(b[0] as u32)
            } else {
                None
            }
        },
        exif::Value::Short(n) => {
            if n.len() > 0 {
                Some(n[0] as u32)
            } else {
                None
            }
        },
        exif::Value::Long(n) => {
            if n.len() > 0 {
                Some(n[0])
            } else {
                None
            }
        },
        _ => None,
    }
}

fn find_uint(fields: &[exif::Field], t: TagView, ifd: u16) -> (r: Option<u32>)
    ensures
        r == last_uint(fields_view(fields@), t, ifd),
{
    let ghost all = fields_view(fields@);
    let mut n: usize = fields.len();
    assert(all.take(n as int) == all);
    while n > 0
        invariant
            n <= fields@.len(),
            all == fields_view(fields@),
            last_uint(all, t, ifd) == last_uint(all.take(n as int), t, ifd),
        decreases n,
    {
        assert(all.take(n as int).last() == crate::metadata::field_view(fields@[n - 1]));
        assert(all.take(n as int).drop_last() == all.take(n - 1));
        let tag = crate::metadata::tag_of(&fields[n - 1]);
        if tag.0 == t.0 && tag.1 == t.1 && fields[n - 1].ifd_num.0 == ifd {
            return uint(&fields[n - 1].value);
        }
        n = n - 1;
    }
    None
}

/// The thumbnail in EXIF data, and the orientation of the photo.
pub fn find_thumbnail(fields: &[exif::Field], data: &[u8]) -> (r: Option<(Vec<u8>, u8)>)
    ensures
        match r {
            Some((bytes, code)) => thumbnail_in(fields_view(fields@), data@) == Some((bytes@, code))
                && 1 <= code <= 8,
            None => thumbnail_in(fields_view(fields@), data@) is None,
        },
{
    let at: u32 = match find_uint(fields, THUMBNAIL_OFFSET, 1) {
        Some(n) => n,
        None => {
            return None;
        },
    };
    let len: u32 = match find_uint(fields, THUMBNAIL_LENGTH, 1) {
        Some(n) => n,
        None => {
            return None;
        },
    };
    if at as u64 + len as u64 > data.len() as u64 {
        return None;
    }
    let inner = slice_subrange(data, at as usize, at as usize + len as usize);
    let mut bytes: Vec<u8> = Vec::new();
    bytes.extend_from_slice(inner);
    assert(bytes@ =~= data@.subrange(at as int, at + len));
    Some((bytes, orientation_code(find_uint(fields, ORIENTATION, 0))))
}

/// The thumbnail stored in the EXIF data of a file, and the orientation of the photo.
pub open spec fn stored_thumbnail(bytes: Seq<u8>) -> Option<(Seq<u8>, u8)> {
    match container_data(bytes) {
        Some(data) => match exif_fields(data) {
            Some(f) => thumbnail_in(f, data),
            None => None,
        },
        None => None,
    }
}

/// The JPEG thumbnail stored in EXIF (usually 160x120), rotated like the photo. None where the file
/// has none, or it cannot be decoded.
pub fn exif_thumbnail(bytes: &[u8]) -> (r: Option<DynamicImage>)
    ensures
        match stored_thumbnail(bytes@) {
            Some((jpeg, code)) => match decoded_small_jpeg(jpeg) {
                Some(p) => r matches Some(img) && is_turned(picture(img), p, code) && p.is_whole(),
                None => r is None,
            },
            None => r is None,
        },
{
    match read_container(bytes) {
        Some((fields, data)) => match find_thumbnail(&fields, &data) {
            Some((jpeg, code)) => match decode_small_jpeg(&jpeg) {
                Some(img) => Some(upright(img, code)),
                None => None,
            },
            None => None,
        },
        None => None,
    }
}

/// The picture that a thumbnail of a file is made from: the thumbnail stored in a JPEG where there is one
/// that can be decoded, else the photo itself.
pub open spec fn gives_source(r: Result<DynamicImage, String>, bytes: Seq<u8>, name: Seq<char>) -> bool {
    let stored = match stored_thumbnail(bytes) {
        Some((jpeg, code)) => match decoded_small_jpeg(jpeg) {
            Some(p) => Some((p, code)),
            None => None,
        },
        None => None,
    };
    match stored {
        Some((p, code)) => if decoder_of(name) == Decoder::Jpeg {
            r matches Ok(img) && is_turned(picture(img), p, code)
        } else {
            opens(r, bytes, name)
        },
        None => opens(r, bytes, name),
    }
}

fn thumbnail_source(bytes: &[u8], name: &str) -> (r: Result<DynamicImage, String>)
    ensures
        gives_source(r, bytes@, name@),
{
    if decoder_for(name) == Decoder::Jpeg {
        if let Some(img) = exif_thumbnail(bytes) {
            return Ok(img);
        }
    }
    open(bytes, name)
}

/// A small, upright thumbnail (longest edge about `max`) of a photo that is neither camera RAW nor HEIF,
/// taken from the file's embedded preview when it has one, so it's much faster than a full decode. Nothing for
/// a picture of which no small copy can be made.
pub fn load_thumbnail(bytes: &[u8], name: &str, max: u32) -> (r: Option<
    Result<(u32, u32, Vec<u8>), String>,
>)
    ensures
        exists|source: Result<DynamicImage, String>|
            #[trigger] gives_source(source, bytes@, name@) && match source {
                Ok(img) => if is_reducible(picture(img), max) {
                    r matches Some(Ok(t)) && is_thumbnail(t, picture(img), max)
                } else {
                    r is None
                },
                Err(e) => r matches Some(Err(x)) && x@ == e@,
            },
        r matches Some(Ok(t)) ==> t.2@.len() == 4 * t.0 * t.1 && (max > 0 ==> fits(
            (t.0 as nat, t.1 as nat),
            max,
        )),
{
    let source = thumbnail_source(bytes, name);
    assert(gives_source(source, bytes@, name@));
    match source {
        Ok(img) => {
            if can_be_reduced(&img, max) {
                Some(Ok(thumbnail_of(&img, max)))
            } else {
                None
            }
        },
        Err(e) => Some(Err(e)),
    }
}

/// Which side of the upright picture the first row of the stored one is, as EXIF defines its orientations: 0 the top,
/// 1 the right, 2 the bottom, 3 the left.
pub open spec fn first_row_is(code: u8) -> int {
    if code <= 2 {
        0
    } else if code <= 4 {
        2
    } else if code == 5 || code == 8 {
        3
    } else {
        1
    }
}

/// Which side of the upright picture the first column of the stored one is.
pub open spec fn first_column_is(code: u8) -> int {
    if code == 1 || code == 4 {
        3
    } else if code == 2 || code == 3 {
        1
    } else if code == 5 || code == 6 {
        0
    } else {
        2
    }
}

/// A pixel lies on this side of a picture.
pub open spec fn is_on_side(at: (int, int), size: (nat, nat), side: int) -> bool {
    if side == 0 {
        at.1 == 0
    } else if side == 1 {
        at.0 == size.0 - 1
    } else if side == 2 {
        at.1 == size.1 - 1
    } else {
        at.0 == 0
    }
}

/// Pictures are turned as EXIF defines it: the first row and the first column of the stored picture come to the sides
/// of the upright one that the orientation names, and nothing else comes there; rows and columns stay rows
/// and columns, next to each other as they were.
pub proof fn law_turned_as_exif_says(size: (nat, nat), code: u8, at: (int, int), next: (int, int))
    requires
        1 <= code <= 8,
    ensures
        turned_from(size, code, at).1 == 0 <==> is_on_side(at, turned_size(size, code), first_row_is(code)),
        turned_from(size, code, at).0 == 0 <==> is_on_side(at, turned_size(size, code), first_column_is(code)),
        ({
            let (a, b) = (turned_from(size, code, at), turned_from(size, code, next));
            let (dx, dy) = (a.0 - b.0, a.1 - b.1);
            let (ex, ey) = (at.0 - next.0, at.1 - next.1);
            (dx == ex || dx == -ex) && (dy == ey || dy == -ey) || (dx == ey || dx == -ey) && (dy == ex || dy == -ex)
        }),
{
}

/// The samples of a turned picture are those of the picture, pixel by pixel: every pixel keeps all its channels.
pub proof fn law_turned_pixels_keep_their_samples(p: Picture, code: u8, at: (int, int), c: int)
    requires
        1 <= code <= 8,
        p.is_whole(),
        0 <= at.0 < turned_size(p.size, code).0,
        0 <= at.1 < turned_size(p.size, code).1,
        0 <= c < channels(p.layout),
    ensures
        ({
            let q = turned(p, code);
            let from = turned_from(p.size, code, at);
            let n = channels(p.layout) as int;
            q.samples[(at.1 * q.size.0 + at.0) * n + c] == p.samples[(from.1 * p.size.0 + from.0) * n + c]
        }),
{
    let q = turned(p, code);
    let n = channels(p.layout) as int;
    let (w, h) = (q.size.0 as int, q.size.1 as int);
    let k = at.1 * w + at.0;
    let j = k * n + c;
    assert(j / n == k && j % n == c) by (nonlinear_arith)
        requires
            j == k * n + c,
            0 <= c < n,
    ;
    assert(k % w == at.0 && k / w == at.1) by (nonlinear_arith)
        requires
            k == at.1 * w + at.0,
            0 <= at.0 < w,
    ;
    assert(0 <= j < w * h * n) by (nonlinear_arith)
        requires
            j == k * n + c,
            k == at.1 * w + at.0,
            0 <= at.0 < w,
            0 <= at.1 < h,
            0 <= c < n,
    ;
    assert(p.size.0 * p.size.1 * n == w * h * n) by (nonlinear_arith)
        requires
            (w == p.size.0 && h == p.size.1) || (w == p.size.1 && h == p.size.0),
    ;
}

/// Every pixel keeps its red, green and blue, and is opaque.
pub proof fn law_alpha_is_opaque(rgb: Seq<u8>, k: int, c: int)
    requires
        0 <= k < rgb.len() / 3,
        0 <= c < 3,
    ensures
        with_alpha(rgb).len() == rgb.len() / 3 * 4,
        with_alpha(rgb)[4 * k + c] == rgb[3 * k + c],
        with_alpha(rgb)[4 * k + 3] == 255,
{
}

/// Samples are spread over all of 16 bits: none is none, the largest is the largest, and a larger one never comes out
/// smaller.
pub proof fn law_samples_are_spread(low: u8, high: u8, low2: u8, high2: u8, bits: u8)
    requires
        1 <= bits <= 16,
    ensures
        deep_sample(0, 0, bits) == 0,
        low + 256 * high == deep_max(bits) ==> deep_sample(low, high, bits) == 65535,
        low + 256 * high <= low2 + 256 * high2 ==> deep_sample(low, high, bits) <= deep_sample(low2, high2, bits),
{
    vstd::arithmetic::power2::lemma2_to64();
    let m = deep_max(bits) as int;
    assert(m >= 1);
    let (v, w) = ((low + 256 * high) as int, (low2 + 256 * high2) as int);
    assert((0int * 65535) / m == 0) by (nonlinear_arith)
        requires
            m >= 1,
    ;
    if v == m {
        assert((m * 65535) / m == 65535) by (nonlinear_arith)
            requires
                m >= 1,
        ;
    }
    if v <= w {
        assert((v * 65535) / m <= (w * 65535) / m && 0 <= (v * 65535) / m) by (nonlinear_arith)
            requires
                0 <= v <= w,
                m >= 1,
        ;
    }
}

} // verus!
