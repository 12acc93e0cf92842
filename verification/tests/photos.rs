//! Decoding photos.

use bp_photos::gpu::{
    cell_position, drop_alpha, grid_size, mip_levels, padded_row, unpad, unpad_rgb, upload, upload_bytes,
};
use bp_photos::loader::{
    add_alpha, arrange, arrange_quick, can_be_reduced, decoder_for, deep_samples, embedded_order, exif_thumbnail,
    find_thumbnail, fit_within, icc_is_display_p3, is_fittable, is_p3, is_photo, jpeg_picture, load_image, load_jpeg,
    load, load_quick, load_thumbnail, open, orientation_code, plane_pixels, thumbnail_of, tripled, upright, Arranged, Decoded,
    Decoder, Embedded, Jpeg, Pixels, QuickLook,
};
use image::{DynamicImage, GenericImageView};
use std::io::Cursor;

fn rgb(w: u32, h: u32) -> image::RgbImage {
    image::RgbImage::from_fn(w, h, |x, y| image::Rgb([x as u8 * 10, y as u8 * 10, 7]))
}

fn bytes(img: &DynamicImage, format: image::ImageFormat) -> Vec<u8> {
    let mut out = Cursor::new(Vec::new());
    img.write_to(&mut out, format).unwrap();
    out.into_inner()
}

#[test]
fn photos_are_known_by_their_extension() {
    for name in ["a.jpg", "a.JPEG", "a.png", "a.TIF", "a.webp", "a.heic", "a.avif", "a.CR3", "a.dng"] {
        assert!(is_photo(name), "{name}");
    }
    assert!(!is_photo("a.txt") && !is_photo("jpg") && !is_photo(""));
}

#[test]
fn extensions_choose_the_decoder() {
    assert!(decoder_for("a.NEF") == Decoder::Raw);
    assert!(decoder_for("a.jpeg") == Decoder::Jpeg);
    assert!(decoder_for("a.heif") == Decoder::Heif);
    assert!(decoder_for("a.png") == Decoder::Image);
    assert!(decoder_for("a") == Decoder::Image);
    assert!(matches!(load_quick("a.hif"), Some(QuickLook::HeifThumbnail)));
    assert!(matches!(load_quick("a.raf"), Some(QuickLook::RawPreview)));
    assert!(load_quick("a.jpg").is_none());
    assert!(matches!(embedded_order(true), [Embedded::Thumbnail, Embedded::Preview, Embedded::Full]));
    assert!(matches!(embedded_order(false), [Embedded::Preview, Embedded::Full, Embedded::Thumbnail]));
}

#[test]
fn pixels_get_an_alpha_and_lose_it() {
    assert_eq!(add_alpha(&[1, 2, 3, 4, 5, 6]), [1, 2, 3, 255, 4, 5, 6, 255]);
    assert_eq!(drop_alpha(&[1, 2, 3, 255, 4, 5, 6, 9]), [1, 2, 3, 4, 5, 6]);
    assert_eq!(tripled(&[0.5f32, 1.0]), [0.5, 0.5, 0.5, 1.0, 1.0, 1.0]);
}

#[test]
fn planes_lose_their_padding() {
    let data: Vec<u8> = (0..24).collect();
    assert_eq!(plane_pixels(&data, 12, 2, 2), [0, 1, 2, 3, 4, 5, 6, 7, 12, 13, 14, 15, 16, 17, 18, 19]);
    // Ten bits are stretched to sixteen, and what is too large is capped.
    assert_eq!(deep_samples(&[0xff, 0x03, 0x00, 0x02, 0xff, 0xff], 10), [65535, (512u32 * 65535 / 1023) as u16, 65535]);
}

#[test]
fn display_p3_is_found_in_a_profile() {
    assert!(icc_is_display_p3(b"xx Display P3 yy"));
    let wide: Vec<u8> = "Display P3".bytes().flat_map(|c| [0, c]).collect();
    assert!(icc_is_display_p3(&wide));
    assert!(!icc_is_display_p3(b"sRGB"));
    assert!(is_p3(true, None) && is_p3(false, Some(b"Display P3")) && !is_p3(false, None));
}

#[test]
fn orientations_turn_the_picture() {
    let img = DynamicImage::ImageRgb8(rgb(3, 2));
    let at = |code: u8, x: u32, y: u32| upright(img.clone(), code).get_pixel(x, y).0;
    let pixel = |x: u32, y: u32| img.get_pixel(x, y).0;
    // Where the pixel in the right top corner comes from.
    assert_eq!(at(1, 2, 0), pixel(2, 0));
    assert_eq!(at(2, 2, 0), pixel(0, 0));
    assert_eq!(at(3, 2, 0), pixel(0, 1));
    assert_eq!(at(4, 2, 0), pixel(2, 1));
    assert_eq!(upright(img.clone(), 5).dimensions(), (2, 3));
    assert_eq!(at(5, 1, 0), pixel(0, 1));
    assert_eq!(at(6, 1, 0), pixel(0, 0));
    assert_eq!(at(7, 1, 0), pixel(2, 0));
    assert_eq!(at(8, 1, 0), pixel(2, 1));
}

#[test]
fn orientation_codes_are_the_lowest_byte() {
    assert_eq!(orientation_code(Some(6)), 6);
    assert_eq!(orientation_code(Some(0)), 1);
    assert_eq!(orientation_code(Some(9)), 1);
    assert_eq!(orientation_code(Some(256 + 3)), 3);
    assert_eq!(orientation_code(None), 1);
}

#[test]
fn jpegs_are_decoded_to_rgba() {
    let file = bytes(&DynamicImage::ImageRgb8(rgb(16, 8)), image::ImageFormat::Jpeg);
    let img = load_jpeg(&file).unwrap();
    assert_eq!(img.dimensions(), (16, 8));
    assert!(matches!(img, DynamicImage::ImageRgba8(_)));
    assert!(load_jpeg(b"no jpeg").is_none());
    // Through the general decoder as well, by content.
    assert_eq!(load_image(&file, "a.png").unwrap().dimensions(), (16, 8));
}

#[test]
fn unusual_jpegs_are_left_to_the_general_decoder() {
    let jpeg = |rgba: bool, size: Option<(u16, u16)>| Jpeg { pixels: vec![9; 16], rgba, size, exif: None };
    let img = jpeg_picture(jpeg(true, Some((2, 2)))).unwrap();
    assert_eq!(img.into_rgba8().into_raw(), vec![9; 16]);
    assert!(jpeg_picture(jpeg(false, Some((2, 2)))).is_none());
    assert!(jpeg_picture(jpeg(true, None)).is_none());
    assert!(jpeg_picture(jpeg(true, Some((3, 2)))).is_none());
}

#[test]
fn jpegs_are_turned_by_their_exif_data() {
    // Big-endian TIFF with one field: orientation 6.
    let exif = b"MM\x00\x2a\x00\x00\x00\x08\x00\x01\x01\x12\x00\x03\x00\x00\x00\x01\x00\x06\x00\x00\x00\x00\x00\x00".to_vec();
    let j = Jpeg { pixels: vec![1, 1, 1, 1, 2, 2, 2, 2], rgba: true, size: Some((2, 1)), exif: Some(exif) };
    let img = jpeg_picture(j).unwrap();
    assert_eq!(img.dimensions(), (1, 2));
    assert_eq!(img.into_rgba8().into_raw(), [1, 1, 1, 1, 2, 2, 2, 2]);
}

#[test]
fn files_are_opened_by_content() {
    let png = bytes(&DynamicImage::ImageRgb8(rgb(5, 4)), image::ImageFormat::Png);
    let img = open(&png, "a.png").unwrap();
    assert_eq!(img.into_rgb8(), rgb(5, 4));
    // A PNG file with the name of a JPEG.
    assert_eq!(open(&png, "a.jpg").unwrap().dimensions(), (5, 4));
    assert!(open(b"garbage", "a.png").is_err());
    assert!(open(b"garbage", "a").is_err());
}

#[test]
fn large_pictures_are_made_to_fit() {
    let img = DynamicImage::ImageRgb8(rgb(20, 10));
    assert_eq!(fit_within(img.clone(), 20), img);
    assert_eq!(fit_within(img, 10).dimensions(), (10, 5));
}

#[test]
fn pictures_are_arranged_for_the_gpu() {
    match arrange(DynamicImage::ImageRgb8(rgb(2, 1)), true) {
        Arranged::Ready(d) => {
            assert_eq!((d.width, d.height, d.p3), (2, 1, true));
            assert!(matches!(d.pixels, Pixels::Srgb8(px) if px == [0, 0, 7, 255, 10, 0, 7, 255]));
        }
        _ => panic!("8-bit pixels are ready"),
    }
    match arrange(DynamicImage::ImageRgba16(image::ImageBuffer::from_raw(1, 1, vec![1u16, 2, 3, 4]).unwrap()), false) {
        Arranged::Deep { width, height, samples } => assert_eq!((width, height, samples), (1, 1, vec![1, 2, 3, 4])),
        _ => panic!("16-bit pixels are deep"),
    }
    let float = DynamicImage::ImageRgb32F(image::ImageBuffer::from_raw(1, 1, vec![0.5f32, 0.25, 1.0]).unwrap());
    assert!(matches!(arrange(float, false), Arranged::Float { width: 1, height: 1, .. }));
    // Grey becomes red, green and blue.
    match arrange(DynamicImage::ImageLuma8(image::ImageBuffer::from_raw(1, 1, vec![9u8]).unwrap()), false) {
        Arranged::Ready(d) => assert!(matches!(d.pixels, Pixels::Srgb8(px) if px == [9, 9, 9, 255])),
        _ => panic!("8-bit pixels are ready"),
    }
    let quick = arrange_quick(DynamicImage::ImageRgb8(rgb(1, 1)), true);
    assert!(quick.p3 && matches!(quick.pixels, Pixels::Srgb8(px) if px == [0, 0, 7, 255]));
}

#[test]
fn thumbnails_fit_their_square() {
    let (w, h, px) = thumbnail_of(&DynamicImage::ImageRgb8(rgb(20, 10)), 10);
    assert_eq!((w, h, px.len()), (10, 5, 200));
}

fn thumbnail_fields(offset: u32, length: u32) -> Vec<exif::Field> {
    let field = |tag, ifd_num, value| exif::Field { tag, ifd_num, value };
    vec![
        field(exif::Tag::JPEGInterchangeFormat, exif::In::THUMBNAIL, exif::Value::Long(vec![offset])),
        field(exif::Tag::JPEGInterchangeFormatLength, exif::In::THUMBNAIL, exif::Value::Long(vec![length])),
        field(exif::Tag::Orientation, exif::In::PRIMARY, exif::Value::Short(vec![6])),
    ]
}

#[test]
fn thumbnails_are_cut_out_of_exif_data() {
    let data: Vec<u8> = (0..10).collect();
    assert_eq!(find_thumbnail(&thumbnail_fields(2, 3), &data), Some((vec![2, 3, 4], 6)));
    assert_eq!(find_thumbnail(&thumbnail_fields(8, 3), &data), None);
    assert_eq!(find_thumbnail(&thumbnail_fields(u32::MAX, u32::MAX), &data), None);
    assert_eq!(find_thumbnail(&[], &data), None);
    assert!(exif_thumbnail(b"no image").is_none());
}

#[test]
fn stored_thumbnails_are_decoded_and_turned() {
    let small = bytes(&DynamicImage::ImageRgb8(rgb(16, 8)), image::ImageFormat::Jpeg);
    let mut w = exif::experimental::Writer::new();
    let orientation = exif::Field { tag: exif::Tag::Orientation, ifd_num: exif::In::PRIMARY, value: exif::Value::Short(vec![6]) };
    w.push_field(&orientation);
    w.set_jpeg(&small, exif::In::THUMBNAIL);
    let mut tiff = Cursor::new(Vec::new());
    w.write(&mut tiff, false).unwrap();
    let mut jpeg = Vec::new();
    let mut enc = image::codecs::jpeg::JpegEncoder::new(&mut jpeg);
    image::ImageEncoder::set_exif_metadata(&mut enc, tiff.into_inner()).unwrap();
    enc.encode_image(&image::RgbImage::new(32, 16)).unwrap();
    assert_eq!(exif_thumbnail(&jpeg).unwrap().dimensions(), (8, 16));
    // The photo itself is turned, too.
    assert_eq!(open(&jpeg, "a.jpg").unwrap().dimensions(), (16, 32));
    assert_eq!(load_image(&jpeg, "a.jpg").unwrap().dimensions(), (16, 32));
}

#[test]
fn uploads_are_planned() {
    assert_eq!(mip_levels(1, 1), 1);
    assert_eq!(mip_levels(6000, 4000), 13);
    let d = Decoded { width: 4, height: 2, pixels: Pixels::Srgb8(vec![1; 32]), p3: false };
    let u = upload(&d);
    assert_eq!((u.half, u.bytes_per_row, u.mips), (false, 16, 3));
    assert_eq!(upload_bytes(&d.pixels), vec![1; 32]);
    let deep = Decoded { width: 1, height: 1, pixels: Pixels::LinearF16(vec![0x3c00, 1, 2, 3]), p3: false };
    let u = upload(&deep);
    assert_eq!((u.half, u.bytes_per_row), (true, 8));
    let native: Vec<u8> = [0x3c00u16, 1, 2, 3].iter().flat_map(|v| v.to_ne_bytes()).collect();
    assert_eq!(upload_bytes(&deep.pixels), native);
}

#[test]
fn copies_lose_their_padding() {
    assert_eq!(padded_row(1), 256);
    assert_eq!(padded_row(64), 256);
    assert_eq!(padded_row(65), 512);
    let data: Vec<u8> = (0..16).collect();
    assert_eq!(unpad(&data, 8, 1), [0, 1, 2, 3, 8, 9, 10, 11]);
    assert_eq!(unpad_rgb(&data, 8, 1), [0, 1, 2, 8, 9, 10]);
}

#[test]
fn grids_hold_their_cells() {
    assert_eq!(grid_size((96, 64), 32, 29), (3072, 64));
    assert_eq!(grid_size((96, 64), 32, 33), (3072, 128));
    assert_eq!(cell_position((96, 64), 32, 33), (96, 64));
}

#[test]
fn photos_are_loaded_for_the_gpu() {
    let png = bytes(&DynamicImage::ImageRgb8(rgb(20, 10)), image::ImageFormat::Png);
    match load(&png, "a.png", 10).unwrap() {
        Ok(Arranged::Ready(d)) => {
            assert_eq!((d.width, d.height, d.p3), (10, 5, false));
            assert!(matches!(d.pixels, Pixels::Srgb8(px) if px.len() == 200));
        }
        _ => panic!("8-bit pixels are ready"),
    }
    let e = load(b"garbage", "a.png", 10).unwrap().err().unwrap();
    assert_eq!(Some(e), open(b"garbage", "a.png").err());
    let (w, h, px) = load_thumbnail(&png, "a.png", 5).unwrap().unwrap();
    assert_eq!((w, h, px.len()), (5, 3, 60));
    assert!(load_thumbnail(b"garbage", "a.jpg", 5).unwrap().is_err());
}

/// What a loaded photo holds: its size, and how many samples.
fn loaded(file: &[u8], name: &str, max: u32) -> (u32, u32, usize) {
    match load(file, name, max).unwrap().unwrap() {
        Arranged::Ready(Decoded { width, height, pixels: Pixels::Srgb8(px), .. }) => (width, height, px.len()),
        Arranged::Deep { width, height, samples } => (width, height, samples.len()),
        _ => panic!("8 or 16 bits"),
    }
}

#[test]
fn loaded_photos_fit_and_have_four_samples_a_pixel() {
    let deep = DynamicImage::ImageRgb16(image::ImageBuffer::from_pixel(12, 6, image::Rgb([9u16, 8, 7])));
    let grey = DynamicImage::ImageLuma8(image::ImageBuffer::from_pixel(12, 6, image::Luma([9u8])));
    for img in [DynamicImage::ImageRgb8(rgb(12, 6)), deep, grey] {
        let png = bytes(&img, image::ImageFormat::Png);
        assert_eq!(loaded(&png, "a.png", 20), (12, 6, 4 * 12 * 6));
        assert_eq!(loaded(&png, "a.png", 12), (12, 6, 4 * 12 * 6));
        assert_eq!(loaded(&png, "a.png", 4), (4, 2, 4 * 4 * 2));
        assert_eq!(loaded(&png, "a.png", 1), (1, 1, 4));
    }
    let jpeg = bytes(&DynamicImage::ImageRgb8(rgb(12, 6)), image::ImageFormat::Jpeg);
    assert_eq!(loaded(&jpeg, "a.jpg", 20), (12, 6, 4 * 12 * 6));
    assert_eq!(loaded(&jpeg, "a.jpg", 3), (3, 2, 4 * 3 * 2));
}

#[test]
fn pictures_beyond_resampling_are_left_out() {
    let long = DynamicImage::ImageLuma8(image::ImageBuffer::from_pixel(2097154, 1, image::Luma([9u8])));
    assert!(is_fittable(&long, 2097154) && !is_fittable(&long, 2097153));
    assert!(is_fittable(&long, 2097152) && is_fittable(&long, 10));
    let png = bytes(&long, image::ImageFormat::Png);
    assert!(load(&png, "a.png", 2097153).is_none());
    assert_eq!(loaded(&png, "a.png", 3000000), (2097154, 1, 4 * 2097154));
    assert_eq!(loaded(&png, "a.png", 10), (10, 1, 40));
    // As long as can be.
    assert_eq!(fit_within(long, 2097152).into_luma8().into_raw(), vec![9; 2097152]);
    // Longer than single precision counts.
    let longest = DynamicImage::ImageLuma8(image::ImageBuffer::from_pixel(17000003, 1, image::Luma([9u8])));
    assert_eq!(fit_within(longest, 2097152).into_luma8().into_raw(), vec![9; 2097152]);
}

#[test]
fn small_copies_average_what_can_be_added_up() {
    let white = |side| DynamicImage::ImageLuma16(image::ImageBuffer::from_pixel(side, side, image::Luma([65535u16])));
    assert!(can_be_reduced(&white(256), 1) && !can_be_reduced(&white(257), 1) && !can_be_reduced(&white(300), 1) && can_be_reduced(&white(300), 2));
    assert_eq!(thumbnail_of(&white(256), 1), (1, 1, vec![255; 4]));
    assert_eq!(thumbnail_of(&white(300), 2), (2, 2, vec![255; 16]));
    let png = bytes(&white(300), image::ImageFormat::Png);
    assert!(load_thumbnail(&png, "a.png", 1).is_none());
    assert_eq!(load_thumbnail(&png, "a.png", 2), Some(Ok((2, 2, vec![255; 16]))));
    let large = DynamicImage::ImageLuma8(image::ImageBuffer::from_pixel(4095, 4095, image::Luma([255u8])));
    assert_eq!(thumbnail_of(&large, 1), (1, 1, vec![255; 4]));
    assert!(!can_be_reduced(&DynamicImage::ImageLuma8(image::ImageBuffer::new(5000, 5000)), 1));
}
