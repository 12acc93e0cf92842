//! The command line and contact sheets.

use bp_photos::cli::{
    apply_options, crops, find_preset, group_counts, is_command, list_presets, output_name, request,
    Request, USAGE,
};
use bp_photos::export::Size;
use bp_photos::sheet::{blank, photo_size, place, recommended_size, COLS, LABEL_H};

fn texts(list: &[&str]) -> Vec<String> {
    list.iter().map(|s| s.to_string()).collect()
}

fn error(list: &[&str]) -> String {
    match apply_options(&texts(list), &[false]) {
        Ok(_) => panic!("an error was expected"),
        Err(e) => e,
    }
}

#[test]
fn commands_are_known() {
    for c in ["apply", "sheet", "presets", "bench", "recommend", "--help", "-h"] {
        assert!(is_command(c), "{c}");
    }
    assert!(!is_command("photo.jpg") && !is_command(""));
}

#[test]
fn requests_are_read() {
    assert!(matches!(request(&texts(&["apply"])), Ok(Request::Apply)));
    assert!(matches!(request(&texts(&["presets"])), Ok(Request::Presets)));
    assert!(matches!(request(&texts(&["bench", "a"])), Ok(Request::Bench)));
    assert!(matches!(request(&texts(&["-h"])), Ok(Request::Usage)));
    match request(&texts(&["recommend", "p.jpg", "s.jpg"])) {
        Ok(Request::Recommend { photo, sheet }) => assert_eq!((photo.as_str(), sheet.as_deref()), ("p.jpg", Some("s.jpg"))),
        _ => panic!("a photo was given"),
    }
    match request(&texts(&["sheet", "p.jpg", "o.jpg", "film"])) {
        Ok(Request::Sheet { photo, out, filter }) => assert_eq!((photo.as_str(), out.as_str(), filter.as_str()), ("p.jpg", "o.jpg", "film")),
        _ => panic!("a sheet was asked for"),
    }
    assert!(matches!(request(&texts(&["sheet", "p.jpg", "o.jpg"])), Ok(Request::Sheet { filter, .. }) if filter.is_empty()));
    for bad in [&["recommend"][..], &["sheet", "p.jpg"], &["sheet", "a", "b", "c", "d"]] {
        assert!(matches!(request(&texts(bad)), Err(e) if e == USAGE));
    }
}

#[test]
fn options_are_read_in_any_order() {
    let args = texts(&[
        "a.jpg", "--no-gps", "--preset", "Noir", "--amount", "0.5", "--fit", "b.jpg", "--quality", "80", "--out", "dir", "--size", "2048",
        "--crop", "0, 0.1,1,0.9",
    ]);
    assert_eq!(crops(&args), [texts(&["0", "0.1", "1", "0.9"])]);
    let o = match apply_options(&args, &[true]) {
        Ok(o) => o,
        Err(e) => panic!("{e}"),
    };
    assert_eq!(o.preset.as_deref(), Some("Noir"));
    assert_eq!(o.out.as_deref(), Some("dir"));
    assert_eq!(o.amount.as_deref(), Some("0.5"));
    assert_eq!(o.crop, Some(texts(&["0", "0.1", "1", "0.9"])));
    assert_eq!(o.size, Size::LongEdge(2048));
    assert_eq!((o.fill, o.quality, o.keep_gps), (false, 80, false));
    assert_eq!(o.inputs, ["a.jpg", "b.jpg"]);
}

#[test]
fn options_have_defaults() {
    let o = match apply_options(&texts(&["--preset", "x", "--out", "y"]), &[]) {
        Ok(o) => o,
        Err(e) => panic!("{e}"),
    };
    assert!(o.amount.is_none() && o.crop.is_none() && o.inputs.is_empty());
    assert_eq!((o.size, o.fill, o.quality, o.keep_gps), (Size::Original, true, 92, true));
}

#[test]
fn sizes_are_numbers_or_slugs() {
    let size = |v: &str| apply_options(&texts(&["--preset", "x", "--out", "y", "--size", v]), &[]).map(|o| o.size);
    assert_eq!(size("640").ok(), Some(Size::LongEdge(640)));
    assert_eq!(size("Web").ok(), Some(Size::LongEdge(1920)));
    assert_eq!(size("0").err().as_deref(), Some("unknown size \"0\""));
    assert_eq!(size("a\"b").err().as_deref(), Some("unknown size \"a\\\"b\""));
}

#[test]
fn bad_options_are_reported() {
    assert_eq!(error(&["--amount"]), "bad --amount");
    assert_eq!(error(&["--amount", "much"]), "bad --amount");
    assert_eq!(error(&["--size"]), "--size needs a value");
    for q in ["0", "101", "300", "x"] {
        assert_eq!(error(&["--quality", q]), "--quality needs 1-100");
    }
    let crop = "--crop needs X0,Y0,X1,Y1 with 0 <= X0 < X1 <= 1 and 0 <= Y0 < Y1 <= 1";
    assert_eq!(error(&["--crop", "0,0,1,1"]), crop);
    assert_eq!(error(&["--crop"]), crop);
    assert!(matches!(apply_options(&texts(&["--crop", "0,0,1"]), &[true]), Err(e) if e == crop));
    assert_eq!(error(&["a.jpg"]), USAGE);
    assert_eq!(error(&["--preset", "x"]), USAGE);
    // An option without its value forgets an earlier one.
    assert_eq!(error(&["--out", "d", "--preset", "x", "--preset"]), USAGE);
}

#[test]
fn presets_are_found_by_name() {
    let names = texts(&["Original", "Noir", "noir"]);
    assert_eq!(find_preset(&names, "NOIR"), Ok(1));
    assert_eq!(find_preset(&names, "Nope"), Err("no preset named \"Nope\"".to_string()));
}

#[test]
fn groups_are_counted_in_order() {
    let counts = group_counts(&texts(&["B", "A", "B", "C", "B"]));
    assert_eq!(counts, [("B".to_string(), 3), ("A".to_string(), 1), ("C".to_string(), 1)]);
    assert!(group_counts(&[]).is_empty());
}

#[test]
fn presets_are_listed() {
    let lines = list_presets("dir", &texts(&["B", "A", "B"]), &texts(&["x.cube: bad"]));
    assert_eq!(lines, ["dir: 3 presets in 2 groups", "     2  B", "     1  A", "  failed: x.cube: bad"]);
    let many = vec!["G".to_string(); 12345];
    assert_eq!(list_presets("d", &many, &[])[1], "  12345  G");
}

#[test]
fn outputs_are_jpegs() {
    assert_eq!(output_name("IMG_1.heic"), "IMG_1.jpg");
    assert_eq!(output_name("a.b.png"), "a.b.jpg");
    assert_eq!(output_name(""), ".jpg");
}

#[test]
fn sheet_sizes_agree_with_single_precision() {
    for px in [(6000u32, 4000u32), (4000, 6000), (3, 1000), (361, 359), (360, 360), (8191, 5461), (65535, 1), (16777217, 12345)] {
        let scale = 360.0 / px.0.max(px.1) as f32;
        let want = (((px.0 as f32 * scale) as u32).max(1), ((px.1 as f32 * scale) as u32).max(1));
        assert_eq!(photo_size(px), want, "{px:?}");
        let h = (360.0f32 * px.1 as f32 / px.0 as f32) as u32;
        assert_eq!(recommended_size(px), (360, h), "{px:?}");
    }
}

#[test]
fn photos_are_placed_on_a_sheet() {
    let mut sheet = blank((2, 1), 3, 2, 3);
    assert_eq!(sheet.size, (20, 24));
    assert!(sheet.pixels.iter().all(|&v| v == 30));
    for i in 0..3u32 {
        sheet = place(sheet, i, vec![100 + i as u8; 6]);
    }
    let pixel = |x: usize, y: usize| sheet.pixels[(y * 20 + x) * 3];
    assert_eq!((pixel(4, 4), pixel(5, 4), pixel(6, 4), pixel(3, 4)), (100, 100, 30, 30));
    assert_eq!((pixel(14, 4), pixel(15, 4)), (101, 101));
    assert_eq!((pixel(4, 16), pixel(5, 16), pixel(4, 15), pixel(14, 16)), (102, 102, 30, 30));
    let big = blank((360, 240), LABEL_H, COLS, 29);
    assert_eq!(big.size, (6 * 368, 5 * 270));
}
