//! Export sizes, names, files and metadata.

use bp_photos::dialog::{note, suggested_name, ExportSettings, FORMATS};
use bp_photos::encode::{encode, format_for, resize, save_image, Format, MAX_JPEG_EXIF};
use bp_photos::export::{edited_path, eq_ignore_case, find, fit, plan, scaled, sizes, Plan, Size, CUSTOM};
use bp_photos::single::{divide, RATIO_ONE};

const FULL: [f32; 4] = [0.0, 0.0, 1.0, 1.0];

fn pixel_size(crop: [f32; 4], image: (u32, u32)) -> (u32, u32) {
    let w = ((crop[2] - crop[0]) * image.0 as f32).round() as u32;
    let h = ((crop[3] - crop[1]) * image.1 as f32).round() as u32;
    (w.max(1), h.max(1))
}

/// Largest crop with normalised ratio `r` (w/h) inside `crop`, centred.
fn trimmed(crop: [f32; 4], r: f32) -> [f32; 4] {
    let (cw, ch) = (crop[2] - crop[0], crop[3] - crop[1]);
    let (w, h) = if cw / ch > r { (ch * r, ch) } else { (cw, cw / r) };
    let (cx, cy) = ((crop[0] + crop[2]) / 2.0, (crop[1] + crop[3]) / 2.0);
    [cx - w / 2.0, cy - h / 2.0, cx + w / 2.0, cy + h / 2.0]
}

/// The plan for a crop of a photo, and the crop that is left.
fn plan_crop(size: Size, crop: [f32; 4], image: (u32, u32), fill: bool) -> (Plan, [f32; 4]) {
    let inner = match size {
        Size::Exact(w, h) => trimmed(crop, w as f32 / h as f32 * image.1 as f32 / image.0 as f32),
        _ => crop,
    };
    let p = plan(size, pixel_size(crop, image), pixel_size(inner, image), fill);
    (p, if p.trimmed { inner } else { crop })
}

#[test]
fn instagram_portrait_fill_crops_landscape_photo() {
    let (p, crop) = plan_crop(Size::Exact(1080, 1350), FULL, (6000, 4000), true);
    assert_eq!(p.output, (1080, 1350));
    assert_eq!(p.render, (3200, 4000));
    assert!((crop[0] - (1.0 - 3200.0 / 6000.0) / 2.0).abs() < 1e-4);
}

#[test]
fn fit_keeps_whole_photo_inside_box() {
    let (p, crop) = plan_crop(Size::Exact(1080, 1350), FULL, (6000, 4000), false);
    assert_eq!(p.output, (1080, 720));
    assert_eq!(crop, FULL);
}

#[test]
fn long_edge_never_enlarges() {
    assert_eq!(plan_crop(Size::LongEdge(2048), FULL, (4000, 3000), false).0.output, (2048, 1536));
    assert_eq!(plan_crop(Size::LongEdge(2048), FULL, (1200, 800), false).0.output, (1200, 800));
}

#[test]
fn small_photo_fill_keeps_native_size() {
    let (p, _) = plan_crop(Size::Exact(1080, 1080), FULL, (900, 600), true);
    assert_eq!(p.output, (600, 600));
}

#[test]
fn edited_path_keeps_format_and_never_overwrites() {
    assert_eq!(edited_path(Some("IMG_1.JPG"), &[]), ("IMG_1-edited.JPG".to_string(), None));
    assert_eq!(edited_path(Some("a.heic"), &[]), ("a-edited.jpg".to_string(), Some("HEIC".to_string())));
    assert_eq!(edited_path(Some("b.png"), &["b-edited.png".to_string()]).0, "b-edited-2.png");
}

#[test]
fn edited_names_count_on() {
    let taken: Vec<String> = ["x-edited.jpg", "x-edited-2.jpg", "x-edited-3.jpg"].iter().map(|s| s.to_string()).collect();
    assert_eq!(edited_path(Some("x.jpg"), &taken).0, "x-edited-4.jpg");
    assert_eq!(edited_path(None, &[]).0, "photo-edited.jpg");
    assert_eq!(edited_path(Some("plain"), &[]), ("plain-edited.jpg".to_string(), Some(String::new())));
    assert_eq!(edited_path(Some("é.ÄÖ"), &[]).1.as_deref(), Some("ÄÖ"));
}

#[test]
fn original_and_zero_keep_the_size() {
    for size in [Size::Original, Size::LongEdge(0)] {
        let p = plan(size, (33, 44), (1, 1), true);
        assert_eq!((p.trimmed, p.render, p.output), (false, (33, 44), (33, 44)));
    }
}

#[test]
fn scaling_agrees_with_single_precision() {
    for size in [(6000u32, 4000u32), (3, 2), (4961, 3508), (1, 9000), (8191, 8190), (123, 45678)] {
        for max in [1u32, 7, 280, 1080, 2048, 3072, 4096, 60000] {
            let scale = (max as f32 / size.0.max(size.1) as f32).min(1.0);
            let want = (((size.0 as f32 * scale).round() as u32).max(1), ((size.1 as f32 * scale).round() as u32).max(1));
            assert_eq!(fit(size, max), want, "{size:?} {max}");
            assert_eq!(scaled(size, divide(max, size.0.max(size.1))), want);
        }
    }
    assert_eq!(scaled((5, 6), 3 * RATIO_ONE), (5, 6));
}

#[test]
fn sizes_are_found_by_slug() {
    assert_eq!(find("Instagram-Portrait"), Some(Size::Exact(1080, 1350)));
    assert_eq!(find("web"), Some(Size::LongEdge(1920)));
    assert_eq!(find("custom"), None);
    assert_eq!(find("nope"), None);
    assert_eq!(sizes()[CUSTOM].slug, "custom");
    assert_eq!(sizes()[0].label, "Original size");
    assert!(eq_ignore_case("AbC", "aBc") && !eq_ignore_case("a", "b") && !eq_ignore_case("a", "aa"));
}

#[test]
fn the_dialog_offers_what_applies() {
    let st = ExportSettings::new();
    assert_eq!(st.export_size(), Size::Original);
    let rows = st.rows();
    assert_eq!((rows.long_edge, rows.fill, rows.quality, rows.metadata), (false, false, true, true));
    let custom = ExportSettings { size: CUSTOM, custom_edge: 1234, format: 2, ..st };
    assert_eq!(custom.export_size(), Size::LongEdge(1234));
    let rows = custom.rows();
    assert_eq!((rows.long_edge, rows.fill, rows.quality, rows.metadata), (true, false, false, false));
    let portrait = ExportSettings { size: 1, format: 1, ..st };
    let rows = portrait.rows();
    assert_eq!((rows.long_edge, rows.fill, rows.quality, rows.metadata), (false, true, false, true));
}

#[test]
fn the_dialog_says_what_is_saved() {
    let p = Plan { trimmed: false, render: (4000, 3000), output: (2048, 1536) };
    assert_eq!(note(p), "2048 × 1536 px (resized from 4000 × 3000)");
    let p = Plan { trimmed: false, render: (10, 20), output: (10, 20) };
    assert_eq!(note(p), "10 × 20 px");
}

#[test]
fn names_tell_preset_and_size() {
    let st = ExportSettings::new();
    assert_eq!(suggested_name(Some("IMG.heic"), "Noir", &st, (1, 2)), "IMG - Noir.jpg");
    let web = ExportSettings { size: 8, format: 1, ..st };
    assert_eq!(suggested_name(Some("IMG.heic"), "Noir", &web, (1, 2)), "IMG - Noir - web.png");
    let custom = ExportSettings { size: CUSTOM, format: 2, ..st };
    assert_eq!(suggested_name(None, "Noir", &custom, (640, 800)), "photo - Noir - 800px.tif");
    assert_eq!(FORMATS.len(), 3);
}

/// Pixels in a slow gradient.
fn gradient(w: u32, h: u32) -> Vec<u8> {
    (0..w * h).flat_map(|i| [(i % w * 4) as u8, (i / w * 4) as u8, 128]).collect()
}

#[test]
fn resizing_gives_the_size_asked_for() {
    let px = gradient(16, 8);
    assert_eq!(resize(px.clone(), (16, 8), (16, 8)), px);
    let small = resize(px.clone(), (16, 8), (8, 4));
    assert_eq!(small.len(), 8 * 4 * 3);
    assert_ne!(small[..3], px[..3]);
    // A plain image stays plain.
    let flat = resize(vec![77; 16 * 16 * 3], (16, 16), (5, 7));
    assert!(flat.iter().all(|&v| v == 77));
    for (size, to) in [((1024, 2), (2, 3)), ((3, 2), (50, 1)), ((640, 480), (7, 5))] {
        let count = |(w, h): (u32, u32)| (w * h) as usize;
        assert_eq!(resize([250, 3, 128].repeat(count(size)), size, to), [250, 3, 128].repeat(count(to)));
    }
}

#[test]
fn resized_images_show_the_same_picture() {
    // Red on the left, blue on the right.
    let (red, blue) = ([200, 10, 0], [0, 10, 250]);
    let px: Vec<u8> = (0..128 * 8).flat_map(|i| if i % 128 < 64 { red } else { blue }).collect();
    for to in [(32, 2), (128, 3), (300, 8)] {
        let small = resize(px.clone(), (128, 8), to);
        for (i, p) in small.chunks(3).enumerate() {
            let x = (i as u32 % to.0) as f64 / to.0 as f64;
            assert_eq!(p[1], 10);
            if x < 0.35 {
                assert_eq!(p, red);
            } else if x > 0.65 {
                assert_eq!(p, blue);
            }
        }
    }
}

#[test]
fn formats_follow_the_extension() {
    assert_eq!(format_for("a.JPG"), Format::Jpeg);
    assert_eq!(format_for("a.jpeg"), Format::Jpeg);
    assert_eq!(format_for("a"), Format::Jpeg);
    assert_eq!(format_for("a.png"), Format::Png);
    assert_eq!(format_for("a.tif"), Format::Other);
}

#[test]
fn png_files_hold_the_pixels_and_the_metadata() {
    let px = gradient(16, 8);
    let exif = b"MM\x00\x2a\x00\x00\x00\x08".to_vec();
    let file = encode(px.clone(), (16, 8), "a.png", 1, Some(exif.clone())).unwrap();
    let img = image::load_from_memory_with_format(&file, image::ImageFormat::Png).unwrap();
    assert_eq!(img.into_rgb8().into_raw(), px);
    assert_eq!(&file[37..41], b"eXIf");
    assert_eq!(&file[41..41 + exif.len()], &exif[..]);
    let plain = encode(px, (16, 8), "a.png", 1, None).unwrap();
    assert_ne!(&plain[37..41], b"eXIf");
}

#[test]
fn jpeg_files_hold_the_metadata_and_follow_the_quality() {
    let px = gradient(16, 8);
    let exif = b"MM\x00\x2a\x00\x00\x00\x08".to_vec();
    let file = encode(px.clone(), (16, 8), "a.jpg", 92, Some(exif.clone())).unwrap();
    assert_eq!(&file[20..22], &[0xff, 0xe1]);
    assert_eq!(&file[24..30], b"Exif\0\0");
    assert_eq!(&file[30..30 + exif.len()], &exif[..]);
    let img = image::load_from_memory_with_format(&file, image::ImageFormat::Jpeg).unwrap().into_rgb8();
    assert_eq!(img.dimensions(), (16, 8));
    assert!(img.as_raw().iter().zip(&px).all(|(a, b)| a.abs_diff(*b) < 24));
    let coarse = encode(px.clone(), (16, 8), "a.jpg", 5, None).unwrap();
    let fine = encode(px, (16, 8), "a.jpg", 100, None).unwrap();
    assert!(coarse.len() < fine.len());
}

#[test]
fn jpeg_files_are_limited() {
    let tall = vec![0u8; 3 * 70000];
    let e = encode(tall.clone(), (1, 70000), "a.jpg", 90, None).unwrap_err();
    assert!(e.contains("Invalid image size (1 x 70000)"), "{e}");
    assert!(encode(tall, (1, 70000), "a.png", 90, None).is_ok());
    let long = vec![1u8; MAX_JPEG_EXIF + 1];
    assert!(save_image(gradient(2, 2), (2, 2), "a.jpg", 90, Some(long.clone())).is_none());
    assert!(save_image(gradient(2, 2), (2, 2), "a.png", 90, Some(long.clone())).unwrap().is_ok());
    let fits = long[1..].to_vec();
    assert!(save_image(gradient(2, 2), (2, 2), "a.jpg", 90, Some(fits)).unwrap().is_ok());
}

#[test]
fn other_formats_are_written_or_refused() {
    let px = gradient(4, 4);
    let tiff = encode(px.clone(), (4, 4), "a.tif", 90, None).unwrap();
    assert_eq!(image::load_from_memory_with_format(&tiff, image::ImageFormat::Tiff).unwrap().into_rgb8().into_raw(), px);
    let webp = encode(px.clone(), (4, 4), "a.webp", 90, None).unwrap();
    assert_eq!(&webp[..4], b"RIFF");
    assert!(encode(px, (4, 4), "a.xyz", 90, None).is_err());
}
