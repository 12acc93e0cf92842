//! EXIF data: what is shown of it, and what exports keep.

use bp_photos::encode::save_image;
use bp_photos::metadata::{
    carry, coordinate, export_fields, for_export, from_container, from_raw, of_main_image, pretty_date,
    summarise, summary_fields, Axis, RawGps, RawInfo, Section,
};
use exif::{Field, In, Rational, Tag, Value};
use std::io::Cursor;

fn field(tag: Tag, value: Value) -> Field {
    Field { tag, ifd_num: In::PRIMARY, value }
}

fn text(s: &str) -> Value {
    Value::Ascii(vec![s.as_bytes().to_vec()])
}

fn ratio(num: u32, denom: u32) -> Value {
    Value::Rational(vec![Rational { num, denom }])
}

fn get<'a>(sections: &'a [Section], label: &str) -> Option<&'a str> {
    sections.iter().flat_map(|s| &s.rows).find(|(k, _)| *k == label).map(|(_, v)| v.as_str())
}

/// Degrees, minutes and seconds as one number; negative south and west.
fn degrees(c: Option<(Vec<(u32, u32)>, bool)>) -> f64 {
    let (parts, negative) = c.unwrap();
    let v: Vec<f64> = parts.iter().map(|&(n, d)| n as f64 / d as f64).collect();
    let size = v[0] + v[1] / 60.0 + v[2] / 3600.0;
    if negative { -size } else { size }
}

#[test]
fn summarises_exif_readably() {
    let fields = [
        field(Tag::Make, Value::Ascii(vec![b"Canon".to_vec()])),
        field(Tag::Model, Value::Ascii(vec![b"Canon EOS R6".to_vec()])),
        field(Tag::ExposureTime, Value::Rational(vec![Rational { num: 1, denom: 250 }])),
        field(Tag::FNumber, Value::Rational(vec![Rational { num: 28, denom: 10 }])),
        field(Tag::FocalLength, Value::Rational(vec![Rational { num: 70, denom: 1 }])),
        field(Tag::DateTimeOriginal, Value::Ascii(vec![b"2025:08:04 19:02:11".to_vec()])),
        field(Tag::GPSLatitudeRef, Value::Ascii(vec![b"S".to_vec()])),
        field(Tag::GPSLatitude, Value::Rational(vec![Rational { num: 33, denom: 1 }, Rational { num: 30, denom: 1 }, Rational { num: 0, denom: 1 }])),
        field(Tag::GPSLongitudeRef, Value::Ascii(vec![b"E".to_vec()])),
        field(Tag::GPSLongitude, Value::Rational(vec![Rational { num: 151, denom: 1 }, Rational { num: 12, denom: 1 }, Rational { num: 0, denom: 1 }])),
    ];
    let s = summarise(&fields, None);
    assert_eq!(get(&s, "Camera"), Some("Canon EOS R6"));
    assert_eq!(get(&s, "Shutter"), Some("1/250 s"));
    assert_eq!(get(&s, "Aperture"), Some("f/2.8"));
    assert_eq!(get(&s, "Focal length"), Some("70 mm"));
    assert_eq!(get(&s, "Taken"), Some("4 Aug 2025, 19:02"));
    let lat = degrees(coordinate(&fields, Axis::Latitude));
    let lon = degrees(coordinate(&fields, Axis::Longitude));
    assert!((lat + 33.5).abs() < 1e-9 && (lon - 151.2).abs() < 1e-9);
}

/// A JPEG with orientation, GPS and a date: exported EXIF keeps the date and GPS (unless asked not to),
/// drops the orientation and records the new size.
#[test]
fn rewrites_exif_for_export() {
    let src = [
        field(Tag::Make, Value::Ascii(vec![b"Cam".to_vec()])),
        field(Tag::Orientation, Value::Short(vec![6])),
        field(Tag::DateTimeOriginal, Value::Ascii(vec![b"2024:05:01 10:00:00".to_vec()])),
        field(Tag::ExifVersion, Value::Undefined(b"0232".to_vec(), 0)),
        field(Tag::GPSLatitudeRef, Value::Ascii(vec![b"N".to_vec()])),
        field(Tag::GPSLatitude, Value::Rational(vec![Rational { num: 52, denom: 1 }; 3])),
    ];
    let jpeg = jpeg_with(&src);
    let read = |bytes: Vec<u8>| exif::Reader::new().read_raw(bytes).unwrap();
    let out = read(for_export(from_container(&jpeg), (640, 480), true).unwrap());
    assert!(out.get_field(Tag::Orientation, In::PRIMARY).is_none());
    assert!(out.get_field(Tag::DateTimeOriginal, In::PRIMARY).is_some());
    assert!(out.get_field(Tag::GPSLatitude, In::PRIMARY).is_some());
    assert_eq!(out.get_field(Tag::PixelXDimension, In::PRIMARY).unwrap().value.get_uint(0), Some(640));
    let no_gps = read(for_export(from_container(&jpeg), (640, 480), false).unwrap());
    assert!(no_gps.get_field(Tag::GPSLatitude, In::PRIMARY).is_none());
}

fn jpeg_with(fields: &[Field]) -> Vec<u8> {
    let mut w = exif::experimental::Writer::new();
    fields.iter().for_each(|f| w.push_field(f));
    let mut tiff = Cursor::new(Vec::new());
    w.write(&mut tiff, false).unwrap();
    let mut jpeg = Vec::new();
    let mut enc = image::codecs::jpeg::JpegEncoder::new(&mut jpeg);
    image::ImageEncoder::set_exif_metadata(&mut enc, tiff.into_inner()).unwrap();
    enc.encode_image(&image::RgbImage::new(8, 8)).unwrap();
    jpeg
}

#[test]
fn files_without_metadata_give_none() {
    assert!(from_container(b"no image").is_none());
    assert!(summary_fields(b"no image").is_empty());
    assert!(for_export(None, (1, 1), true).is_none());
}

#[test]
fn exports_are_marked_and_sized() {
    let out = export_fields(vec![field(Tag::Make, text("Cam"))], (640, 480), true);
    let find = |t: Tag| out.iter().find(|f| f.tag == t);
    assert!(matches!(&find(Tag::Software).unwrap().value, Value::Ascii(v) if v[0] == b"bp_photos"));
    assert_eq!(find(Tag::PixelXDimension).unwrap().value.get_uint(0), Some(640));
    assert_eq!(find(Tag::PixelYDimension).unwrap().value.get_uint(0), Some(480));
    assert_eq!(find(Tag::ColorSpace).unwrap().value.get_uint(0), Some(1));
    assert!(find(Tag::Make).is_some());
}

#[test]
fn only_fields_that_describe_the_photo_are_carried() {
    let thumb = Field { tag: Tag::Make, ifd_num: In::THUMBNAIL, value: text("Thumb") };
    let kept = carry(vec![
        field(Tag::Make, text("Cam")),
        field(Tag::MakerNote, Value::Undefined(vec![1], 0)),
        field(Tag::Orientation, Value::Short(vec![6])),
        field(Tag::ImageWidth, Value::Long(vec![8])),
        field(Tag::FNumber, ratio(28, 10)),
        field(Tag::GPSLatitudeRef, text("N")),
        thumb,
    ]);
    let tags: Vec<Tag> = kept.iter().map(|f| f.tag).collect();
    assert_eq!(tags, [Tag::Make, Tag::FNumber, Tag::GPSLatitudeRef]);
    let main = of_main_image(vec![
        field(Tag::Make, text("Cam")),
        Field { tag: Tag::Make, ifd_num: In::THUMBNAIL, value: text("Thumb") },
    ]);
    assert_eq!(main.len(), 1);
}

#[test]
fn dates_are_written_out() {
    assert_eq!(pretty_date("2025:08:04 19:02:11"), "4 Aug 2025, 19:02");
    assert_eq!(pretty_date("nonsense"), "nonsense");
}

#[test]
fn positions_are_shown_and_found() {
    let s = summarise(&[], Some("33.5° S".to_string()));
    assert!(s.iter().flat_map(|x| &x.rows).any(|(_, v)| v == "33.5° S"));
    assert!(coordinate(&[], Axis::Latitude).is_none());
}

fn raw_info() -> RawInfo {
    RawInfo {
        make: "Nikon".to_string(),
        model: "Z 6".to_string(),
        date_time_original: Some("2024:01:02 03:04:05".to_string()),
        create_date: None,
        modify_date: None,
        offset_time: None,
        offset_time_original: None,
        offset_time_digitized: None,
        sub_sec_time_original: None,
        artist: None,
        copyright: None,
        lens_make: None,
        lens_model: Some("50mm".to_string()),
        serial_number: None,
        lens_serial_number: None,
        exposure_time: Some((1, 60)),
        fnumber: None,
        aperture_value: None,
        max_aperture_value: None,
        focal_length: None,
        subject_distance: None,
        exposure_bias: Some((-1, 3)),
        shutter_speed_value: None,
        brightness_value: None,
        iso_speed_ratings: Some(400),
        exposure_program: None,
        metering_mode: None,
        light_source: None,
        flash: None,
        exposure_mode: None,
        white_balance: None,
        scene_capture_type: None,
        lens_spec: None,
        gps: Some(RawGps {
            version: None,
            latitude_ref: Some("N".to_string()),
            latitude: Some([(1, 1), (2, 1), (3, 1)]),
            longitude_ref: Some("W".to_string()),
            longitude: Some([(4, 1), (5, 1), (6, 1)]),
            altitude_ref: None,
            altitude: None,
            timestamp: None,
            date_stamp: None,
        }),
    }
}

#[test]
fn raw_files_give_the_same_fields() {
    let fields = from_raw(&raw_info());
    let find = |t: Tag| fields.iter().find(|f| f.tag == t);
    assert!(matches!(&find(Tag::Make).unwrap().value, Value::Ascii(v) if v[0] == b"Nikon"));
    assert!(matches!(&find(Tag::LensModel).unwrap().value, Value::Ascii(v) if v[0] == b"50mm"));
    assert_eq!(find(Tag::PhotographicSensitivity).unwrap().value.get_uint(0), Some(400));
    match &find(Tag::ExposureBiasValue).unwrap().value {
        Value::SRational(v) => assert_eq!((v.len(), v[0].num, v[0].denom), (1, -1, 3)),
        _ => panic!("a signed ratio was expected"),
    }
    assert!(matches!(&find(Tag::GPSVersionID).unwrap().value, Value::Byte(v) if v == &[2, 3, 0, 0]));
    assert!(find(Tag::GPSLatitude).is_some() && find(Tag::GPSLongitude).is_some());
    assert!(find(Tag::FNumber).is_none() && find(Tag::GPSAltitude).is_none());
    let s = summarise(&fields, None);
    assert_eq!(get(&s, "Shutter"), Some("1/60 s"));
    assert_eq!(get(&s, "ISO"), Some("400"));
}

#[test]
fn incomplete_positions_are_left_out() {
    let mut info = raw_info();
    if let Some(g) = &mut info.gps {
        g.longitude_ref = None;
    }
    assert!(from_raw(&info).iter().all(|f| f.tag.context() != exif::Context::Gps));
}

/// What an exported file gives back when it is opened again, as a JPEG and as a PNG.
#[test]
fn reopened_exports_give_the_fields_back() {
    let src = [
        field(Tag::Make, text("Cam")),
        field(Tag::Orientation, Value::Short(vec![6])),
        field(Tag::DateTimeOriginal, text("2024:05:01 10:00:00")),
        field(Tag::ExposureTime, ratio(1, 250)),
        field(Tag::GPSLatitudeRef, text("N")),
        field(Tag::GPSLatitude, Value::Rational(vec![Rational { num: 52, denom: 1 }; 3])),
    ];
    let shown = |f: &Field| (f.tag.number(), f.ifd_num.index(), format!("{:?}", f.value));
    for name in ["out.jpg", "out.png"] {
        for keep_gps in [true, false] {
            let exif = for_export(from_container(&jpeg_with(&src)), (2, 2), keep_gps);
            let file = save_image(vec![9; 12], (2, 2), name, 90, exif).unwrap().unwrap();
            let again = from_container(&file).unwrap();
            let read: Vec<_> = again.iter().map(shown).collect();
            for x in [&src[0], &src[2], &src[3]] {
                assert!(read.contains(&shown(x)));
            }
            assert_eq!(read.contains(&shown(&src[4])), keep_gps);
            assert_eq!(read.contains(&shown(&src[5])), keep_gps);
            assert!(again.iter().all(|f| f.tag != Tag::Orientation));
            let rows = summarise(&summary_fields(&file), None);
            assert_eq!(get(&rows, "Shutter"), Some("1/250 s"));
        }
    }
}
