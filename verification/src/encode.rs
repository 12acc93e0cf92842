//! Image files: resizing RGB pixels and writing them as JPEG, PNG or TIFF.

use crate::names::{extension, extension_of};
use crate::pixels::MAX_SIDE;
use crate::text::text_eq;
use image::codecs::jpeg::JpegEncoder;
use image::codecs::png::PngEncoder;
use image::imageops::FilterType;
use image::{ExtendedColorType, ImageEncoder, ImageFormat, RgbImage};
use std::io::Cursor;
use vstd::prelude::*;

verus! {

/// The pixels of an image of this size, three bytes each.
pub open spec fn is_rgb(pixels: Seq<u8>, size: (u32, u32)) -> bool {
    &&& size.0 > 0
    &&& size.1 > 0
    &&& pixels.len() == 3 * size.0 * size.1
}

/// An image of size `size` can be resampled to `to`: the sides are not too long to place their pixels, and
/// the image and what it is made through fit into memory.
pub open spec fn is_resizable(size: (u32, u32), to: (u32, u32)) -> bool {
    &&& size.0 <= MAX_SIDE && size.1 <= MAX_SIDE && to.0 <= MAX_SIDE && to.1 <= MAX_SIDE
    &&& 16 * size.0 * to.1 <= isize::MAX
    &&& 3 * to.0 * to.1 <= isize::MAX
}

/// Sides of ordinary length, and no more than 512 pixels of either become one.
pub open spec fn is_moderate(size: (u32, u32), to: (u32, u32)) -> bool {
    &&& size.0 <= 65536 && size.1 <= 65536 && to.0 <= 65536 && to.1 <= 65536
    &&& size.0 <= 512 * to.0 && size.1 <= 512 * to.1
}

/// Along a side of `from` pixels that is resampled to `to`, pixel `i` lies near the place of the new pixel
/// `x`: within three new or old pixels, whichever are larger, and two old ones more.
pub open spec fn is_near(i: int, x: int, from: int, to: int) -> bool {
    let larger = if from >= to {
        from
    } else {
        to
    };
    let reach = 6 * larger + 4 * to;
    -reach <= (2 * i + 1) * to - (2 * x + 1) * from <= reach
}

/// A sample of an image.
pub open spec fn sample(pixels: Seq<u8>, size: (u32, u32), x: int, y: int, k: int) -> u8 {
    pixels[3 * (y * size.0 + x) + k]
}

/// Every pixel near the place of the new pixel has the value `c` in channel `k`.
pub open spec fn is_even_near(
    pixels: Seq<u8>,
    size: (u32, u32),
    to: (u32, u32),
    at: (int, int),
    k: int,
    c: u8,
) -> bool {
    forall|i: int, j: int|
        0 <= i < size.0 && 0 <= j < size.1 && is_near(i, at.0, size.0 as int, to.0 as int) && is_near(
            j,
            at.1,
            size.1 as int,
            to.1 as int,
        ) ==> #[trigger] sample(pixels, size, i, j, k) == c
}

/// The image `r` shows what the image `pixels` shows: where the pixels near a place all have one value in a
/// channel, the new pixel at that place has it too.
pub open spec fn shows_picture(
    r: Seq<u8>,
    pixels: Seq<u8>,
    size: (u32, u32),
    to: (u32, u32),
) -> bool {
    forall|x: int, y: int, k: int, c: u8|
        0 <= x < to.0 && 0 <= y < to.1 && 0 <= k < 3 && #[trigger] is_even_near(
            pixels,
            size,
            to,
            (x, y),
            k,
            c,
        ) ==> sample(r, to, x, y, k) == c
}

/// `image::imageops::resize` with the Lanczos filter: an image of the size asked for. Each pixel of it is
/// the sum of the pixels near its place times weights that add up to 1, but for rounding; within moderate
/// sizes the rounding is too small to show where those pixels are alike. The weights themselves rest on
/// the machine's sine and are not stated.
#[verifier::external_body]
fn resample(pixels: Vec<u8>, size: (u32, u32), to: (u32, u32)) -> (r: Vec<u8>)
    requires
        is_rgb(pixels@, size),
        to.0 > 0,
        to.1 > 0,
        is_resizable(size, to),
    ensures
        is_rgb(r@, to),
        size == to ==> r@ == pixels@,
        is_moderate(size, to) ==> shows_picture(r@, pixels@, size, to),
{
    let img = RgbImage::from_raw(size.0, size.1, pixels).unwrap();
    image::imageops::resize(&img, to.0, to.1, FilterType::Lanczos3).into_raw()
}

/// An image shows what it shows.
proof fn lemma_shows_itself(pixels: Seq<u8>, size: (u32, u32))
    ensures
        shows_picture(pixels, pixels, size, size),
{
    assert forall|x: int, y: int, k: int, c: u8|
        0 <= x < size.0 && 0 <= y < size.1 && 0 <= k < 3 && #[trigger] is_even_near(
            pixels,
            size,
            size,
            (x, y),
            k,
            c,
        ) implies sample(pixels, size, x, y, k) == c by {
        assert(is_near(x, x, size.0 as int, size.0 as int));
        assert(is_near(y, y, size.1 as int, size.1 as int));
    }
}

/// Downsizes (sharp, no aliasing) if `to` differs from the size of the image. The result shows what the
/// image shows, place by place.
pub fn resize(pixels: Vec<u8>, size: (u32, u32), to: (u32, u32)) -> (r: Vec<u8>)
    requires
        is_rgb(pixels@, size),
        to.0 > 0,
        to.1 > 0,
        size == to || is_resizable(size, to),
    ensures
        is_rgb(r@, to),
        size == to ==> r@ == pixels@,
        is_moderate(size, to) ==> shows_picture(r@, pixels@, size, to),
{
    if size.0 == to.0 && size.1 == to.1 {
        proof {
            lemma_shows_itself(pixels@, size);
        }
        pixels
    } else {
        resample(pixels, size, to)
    }
}

/// An image of one colour stays of that colour when it is resized.
pub proof fn law_one_colour_stays(
    r: Seq<u8>,
    pixels: Seq<u8>,
    size: (u32, u32),
    to: (u32, u32),
    colour: Seq<u8>,
    j: int,
)
    requires
        is_rgb(r, to),
        is_rgb(pixels, size),
        shows_picture(r, pixels, size, to),
        colour.len() == 3,
        forall|i: int| 0 <= i < pixels.len() ==> #[trigger] pixels[i] == colour[i % 3],
        0 <= j < r.len(),
    ensures
        r[j] == colour[j % 3],
{
    let k = j % 3;
    let (x, y) = ((j / 3) % to.0 as int, (j / 3) / to.0 as int);
    let w = to.0 as int;
    let h = to.1 as int;
    assert(0 <= x < w && 0 <= y < h && y * w + x == j / 3) by (nonlinear_arith)
        requires
            0 <= j < 3 * w * h,
            w > 0,
            h > 0,
            x == (j / 3) % w,
            y == (j / 3) / w,
    ;
    assert forall|a: int, b: int| 0 <= a < size.0 && 0 <= b < size.1 implies #[trigger] sample(
        pixels,
        size,
        a,
        b,
        k,
    ) == colour[k] by {
        let (fw, fh) = (size.0 as int, size.1 as int);
        let at = 3 * (b * fw + a) + k;
        assert(0 <= at < 3 * fw * fh && at % 3 == k) by (nonlinear_arith)
            requires
                0 <= a < fw,
                0 <= b < fh,
                0 <= k < 3,
                at == 3 * (b * fw + a) + k,
        ;
    }
    assert(is_even_near(pixels, size, to, (x, y), k, colour[k]));
    assert(r[j] == sample(r, to, x, y, k));
}

// ---------------------------------------------------------------------------------------------
// Files
// ---------------------------------------------------------------------------------------------

/// What became of writing a file: its bytes, or a message.
pub open spec fn outcome(r: Result<Vec<u8>, String>) -> Result<Seq<u8>, Seq<char>> {
    match r {
        Ok(b) => Ok(b@),
        Err(e) => Err(e@),
    }
}

/// The longest EXIF data that a JPEG file can hold in its one segment.
pub const MAX_JPEG_EXIF: usize = 65527;

/// A JPEG file with this EXIF data: the segment behind the file's header holds it.
pub open spec fn jpeg_carries(file: Seq<u8>, exif: Seq<u8>) -> bool {
    &&& file.len() >= 30 + exif.len()
    &&& file.subrange(0, 6) == seq![0xffu8, 0xd8, 0xff, 0xe0, 0, 16]
    &&& file.subrange(20, 22) == seq![0xffu8, 0xe1]
    &&& file[22] * 256 + file[23] == exif.len() + 8
    &&& file.subrange(24, 30) == seq![0x45u8, 0x78, 0x69, 0x66, 0, 0]
    &&& file.subrange(30, (30 + exif.len()) as int) == exif
}

/// A PNG file with this EXIF data: the chunk behind the file's header holds it.
pub open spec fn png_carries(file: Seq<u8>, exif: Seq<u8>) -> bool {
    &&& file.len() >= 41 + exif.len()
    &&& file.subrange(0, 8) == seq![0x89u8, 0x50, 0x4e, 0x47, 0x0d, 0x0a, 0x1a, 0x0a]
    &&& file.subrange(8, 16) == seq![0u8, 0, 0, 13, 0x49, 0x48, 0x44, 0x52]
    &&& file[33] * 0x100_0000 + file[34] * 0x1_0000 + file[35] * 0x100 + file[36] == exif.len()
    &&& file.subrange(37, 41) == seq![0x65u8, 0x58, 0x49, 0x66]
    &&& file.subrange(41, (41 + exif.len()) as int) == exif
}

/// The JPEG file of some pixels, with EXIF data unless that is empty; or the message why there is none.
pub uninterp spec fn jpeg_file(pixels: Seq<u8>, size: (u32, u32), quality: u8, exif: Seq<u8>) -> Result<
    Seq<u8>,
    Seq<char>,
>;

/// `JpegEncoder::encode_image` with a quality and, by `set_exif_metadata`, EXIF data: a function of its
/// arguments. There is a file exactly where neither side is longer than the format can say. It holds the
/// EXIF data, unless that is empty, behind its header.
#[verifier::external_body]
fn write_jpeg(pixels: Vec<u8>, size: (u32, u32), quality: u8, exif: Vec<u8>) -> (r: Result<
    Vec<u8>,
    String,
>)
    requires
        is_rgb(pixels@, size),
        exif@.len() <= MAX_JPEG_EXIF,
    ensures
        outcome(r) == jpeg_file(pixels@, size, quality, exif@),
        r.is_ok() == (size.0 <= 65535 && size.1 <= 65535),
        r matches Ok(b) ==> (exif@.len() == 0 || jpeg_carries(b@, exif@)),
{
    let img = RgbImage::from_raw(size.0, size.1, pixels).unwrap();
    let mut out: Vec<u8> = Vec::new();
    let mut encoder = JpegEncoder::new_with_quality(&mut out, quality);
    _ = encoder.set_exif_metadata(exif);
    encoder.encode_image(&img).map_err(|e| e.to_string())?;
    Ok(out)
}

/// The PNG file of some pixels, with EXIF data unless that is empty; or the message why there is none.
pub uninterp spec fn png_file(pixels: Seq<u8>, size: (u32, u32), exif: Seq<u8>) -> Result<
    Seq<u8>,
    Seq<char>,
>;

/// `PngEncoder::write_image` with, by `set_exif_metadata`, EXIF data: a function of its arguments. There is
/// a file exactly where the EXIF data is not longer than a chunk can be. It holds the EXIF data, unless
/// that is empty, behind its header.
#[verifier::external_body]
fn write_png(pixels: &[u8], size: (u32, u32), exif: Vec<u8>) -> (r: Result<Vec<u8>, String>)
    requires
        is_rgb(pixels@, size),
    ensures
        outcome(r) == png_file(pixels@, size, exif@),
        r.is_ok() == (exif@.len() <= i32::MAX),
        r matches Ok(b) ==> (exif@.len() == 0 || png_carries(b@, exif@)),
{
    let mut out: Vec<u8> = Vec::new();
    let mut encoder = PngEncoder::new(&mut out);
    _ = encoder.set_exif_metadata(exif);
    encoder.write_image(pixels, size.0, size.1, ExtendedColorType::Rgb8).map_err(|e| e.to_string())?;
    Ok(out)
}

/// The file of some pixels in the format that the extension of a name stands for; or the message why there
/// is none.
pub uninterp spec fn other_file(pixels: Seq<u8>, size: (u32, u32), name: Seq<char>) -> Result<
    Seq<u8>,
    Seq<char>,
>;

/// What `ImageBuffer::save` writes: `ImageBuffer::write_to` in the format that `ImageFormat::from_path`
/// finds for the name. A function of its arguments; which names and sizes have a file is not stated.
#[verifier::external_body]
fn write_other(pixels: Vec<u8>, size: (u32, u32), name: &str) -> (r: Result<Vec<u8>, String>)
    requires
        is_rgb(pixels@, size),
    ensures
        outcome(r) == other_file(pixels@, size, name@),
{
    let format = ImageFormat::from_path(name).map_err(|e| e.to_string())?;
    let img = RgbImage::from_raw(size.0, size.1, pixels).unwrap();
    let mut out = Cursor::new(Vec::new());
    img.write_to(&mut out, format).map_err(|e| e.to_string())?;
    Ok(out.into_inner())
}

/// How an image is written under a name.
#[derive(Clone, Copy, PartialEq, Eq, Debug, Structural)]
pub enum Format {
    Jpeg,
    Png,
    Other,
}

/// The format that a name asks for: by its extension, and JPEG where it has none.
pub open spec fn format_of(name: Seq<char>) -> Format {
    match extension_of(name) {
        None => Format::Jpeg,
        Some(e) => if e == "jpg"@ || e == "jpeg"@ {
            Format::Jpeg
        } else if e == "png"@ {
            Format::Png
        } else {
            Format::Other
        },
    }
}

/// The format that a name asks for.
pub fn format_for(name: &str) -> (r: Format)
    ensures
        r == format_of(name@),
{
    match extension(name) {
        None => Format::Jpeg,
        Some(e) => {
            if text_eq(e.as_str(), "jpg") || text_eq(e.as_str(), "jpeg") {
                Format::Jpeg
            } else if text_eq(e.as_str(), "png") {
                Format::Png
            } else {
                Format::Other
            }
        },
    }
}

/// The EXIF data, or none.
pub open spec fn exif_view(exif: Option<Vec<u8>>) -> Seq<u8> {
    match exif {
        Some(e) => e@,
        None => seq![],
    }
}

/// The file of an image in a format, under a name; or the message why there is none.
pub open spec fn file_of(
    format: Format,
    pixels: Seq<u8>,
    size: (u32, u32),
    name: Seq<char>,
    quality: u8,
    exif: Seq<u8>,
) -> Result<Seq<u8>, Seq<char>> {
    match format {
        Format::Jpeg => jpeg_file(pixels, size, quality, exif),
        Format::Png => png_file(pixels, size, exif),
        Format::Other => other_file(pixels, size, name),
    }
}

/// The file holds the EXIF data, where the format allows (JPEG and PNG).
pub open spec fn carries(format: Format, file: Seq<u8>, exif: Seq<u8>) -> bool {
    exif.len() > 0 ==> match format {
        Format::Jpeg => jpeg_carries(file, exif),
        Format::Png => png_carries(file, exif),
        Format::Other => true,
    }
}

/// Writes an image as JPEG, PNG or TIFF (by the extension of `name`), with `exif` embedded where the format
/// allows (JPEG and PNG).
pub fn encode(
    pixels: Vec<u8>,
    size: (u32, u32),
    name: &str,
    jpeg_quality: u8,
    exif: Option<Vec<u8>>,
) -> (r: Result<Vec<u8>, String>)
    requires
        is_rgb(pixels@, size),
        format_of(name@) == Format::Jpeg ==> exif_view(exif).len() <= MAX_JPEG_EXIF,
    ensures
        outcome(r) == file_of(
            format_of(name@),
            pixels@,
            size,
            name@,
            jpeg_quality,
            exif_view(exif),
        ),
        format_of(name@) == Format::Jpeg ==> (r is Ok <==> size.0 <= 65535 && size.1 <= 65535),
        format_of(name@) == Format::Png ==> (r is Ok <==> exif_view(exif).len() <= i32::MAX),
        match r {
            Ok(b) => carries(format_of(name@), b@, exif_view(exif)),
            Err(_) => true,
        },
{
    let data: Vec<u8> = match exif {
        Some(e) => e,
        None => Vec::new(),
    };
    assert(data@ =~= exif_view(exif));
    match format_for(name) {
        Format::Jpeg => write_jpeg(pixels, size, jpeg_quality, data),
        Format::Png => write_png(pixels.as_slice(), size, data),
        Format::Other => write_other(pixels, size, name),
    }
}

/// The file to save an image as (see [`encode`]). None where it is a JPEG file and the EXIF data is longer
/// than such a file can hold.
pub fn save_image(
    pixels: Vec<u8>,
    size: (u32, u32),
    name: &str,
    jpeg_quality: u8,
    exif: Option<Vec<u8>>,
) -> (r: Option<Result<Vec<u8>, String>>)
    requires
        is_rgb(pixels@, size),
    ensures
        r is None <==> format_of(name@) == Format::Jpeg && exif_view(exif).len() > MAX_JPEG_EXIF,
        match r {
            Some(done) => {
                &&& outcome(done) == file_of(
                    format_of(name@),
                    pixels@,
                    size,
                    name@,
                    jpeg_quality,
                    exif_view(exif),
                )
                &&& format_of(name@) == Format::Jpeg ==> (done is Ok <==> size.0 <= 65535 && size.1
                    <= 65535)
                &&& format_of(name@) == Format::Png ==> (done is Ok <==> exif_view(exif).len()
                    <= i32::MAX)
                &&& match done {
                    Ok(b) => carries(format_of(name@), b@, exif_view(exif)),
                    Err(_) => true,
                }
            },
            None => true,
        },
{
    let len: usize = match &exif {
        Some(e) => e.len(),
        None => 0,
    };
    let jpeg = match format_for(name) {
        Format::Jpeg => true,
        _ => false,
    };
    if jpeg && len > MAX_JPEG_EXIF {
        return None;
    }
    Some(encode(pixels, size, name, jpeg_quality, exif))
}

} // verus!
