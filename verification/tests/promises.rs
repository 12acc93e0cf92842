//! Things that hold of several functions together, on concrete values.

use bp_photos::browse::Browser;
use bp_photos::export::{plan, Size};
use bp_photos::filmstrip::{Filmstrip, Queue, Slot};
use bp_photos::gpu::mip_levels;
use bp_photos::import::{group_for, is_preset_file, unescape};
use bp_photos::loader::{is_photo, upright, Decoded, Pixels};
use bp_photos::names::{stem, written_extension};
use bp_photos::numeral::{decimal_text, parse_unsigned};
use bp_photos::order::{sort_numbers, sort_texts};
use bp_photos::packs::{unpack, Pack};
use bp_photos::palette::score;
use bp_photos::panel::{grid_step, Arrows};
use bp_photos::pixels::take_rows;
use bp_photos::recommend::cell_size;
use image::DynamicImage;
use std::io::{Cursor, Write};

fn texts(list: &[&str]) -> Vec<String> {
    list.iter().map(|s| s.to_string()).collect()
}

#[test]
fn turning_back_restores_the_picture() {
    let img = DynamicImage::ImageRgb8(image::RgbImage::from_fn(3, 2, |x, y| image::Rgb([x as u8, y as u8, 0])));
    for (there, back) in [(1, 1), (2, 2), (3, 3), (4, 4), (5, 5), (6, 8), (7, 7), (8, 6)] {
        assert_eq!(upright(upright(img.clone(), there), back), img, "{there}");
    }
}

#[test]
fn a_folder_is_a_group() {
    let root = texts(&["p"]);
    let group = |name: &str| group_for(&root, &texts(&["p", "Film", name]));
    assert_eq!(group("a.xmp"), group("b.cube"));
}

#[test]
fn mip_levels_end_at_one_pixel() {
    for n in [1u32, 2, 3, 255, 256, 6000, 16384, u32::MAX] {
        assert_eq!(n >> (mip_levels(n, 1) - 1), 1);
    }
}

#[test]
fn orders_list_everything_once() {
    let mut order = sort_numbers(&[5, 5, -1, 7, 0]);
    order.sort();
    assert_eq!(order, [0, 1, 2, 3, 4]);
    let mut order = sort_texts(&texts(&["x", "", "x", "a"]));
    order.sort();
    assert_eq!(order, [0, 1, 2, 3]);
}

#[test]
fn rows_that_touch_are_kept() {
    let data: Vec<u8> = (0..20).collect();
    assert_eq!(take_rows(&data, 0, 5, 5, 4), data);
    assert_eq!(take_rows(&data, 3, 5, 2, 3).len(), 6);
}

#[test]
fn decimals_are_read_back() {
    for n in [0u32, 9, 10, 255, 4294967295] {
        let digits: Vec<char> = decimal_text(n as u64).chars().collect();
        assert_eq!(parse_unsigned(&digits, u32::MAX), Some(n));
    }
}

#[test]
fn names_are_made_of_stem_and_extension() {
    for name in ["a.jpg", "a.b.c", ".x", "plain", "x."] {
        let whole = match written_extension(name) {
            Some(e) => format!("{}.{e}", stem(name)),
            None => stem(name),
        };
        assert_eq!(whole, name);
    }
}

#[test]
fn fitted_photos_stay_inside_their_canvas() {
    for px in [(6000, 4000), (4000, 6000), (1081, 1351), (333, 77777), (20, 10)] {
        let p = plan(Size::Exact(1080, 1350), px, px, false);
        assert!(p.output.0 <= 1080 && p.output.1 <= 1350, "{px:?}");
        assert!(p.output.0 <= px.0 && p.output.1 <= px.1, "{px:?}");
    }
}

#[test]
fn only_neighbours_stay_in_memory() {
    let photo = || Ok(Decoded { width: 1, height: 1, pixels: Pixels::Srgb8(vec![0; 4]), p3: false });
    let mut b = Browser::new();
    b.index("2", None, texts(&["1", "2", "3", "4", "5"]));
    b.prefetch("2");
    b.poll(vec![("1".to_string(), photo()), ("3".to_string(), photo())]);
    // Two steps on, photo 1 is not a neighbour any more; photo 3 still is.
    assert_eq!(b.prefetch("4"), ["5"]);
    assert!(b.take("1").is_none());
    assert!(b.take("3").is_some());
}

#[test]
fn thumbnails_that_are_ready_stay_ready() {
    let files = texts(&["a", "b", "c"]);
    let mut strip = Filmstrip::new();
    let mut queue = Queue::new();
    strip.update(&mut queue, Vec::new(), &files, Some(0));
    strip.update(&mut queue, vec![("a".to_string(), true)], &files, Some(0));
    strip.update(&mut queue, Vec::new(), &files, Some(2));
    assert_eq!(strip.get("a"), Some(Slot::Ready));
}

#[test]
fn right_undoes_left() {
    let key = |left: bool| Arrows { left, right: !left, up: false, down: false };
    for c in 1..5 {
        let back = grid_step(5, Some(c), key(true), &[false; 5], &[0; 5]);
        assert_eq!(grid_step(5, Some(back), key(false), &[false; 5], &[0; 5]), c);
    }
}

#[test]
fn ordinary_archives_are_unpacked_in_full() {
    let mut buf = Cursor::new(Vec::new());
    let mut z = zip::ZipWriter::new(&mut buf);
    let opts = zip::write::SimpleFileOptions::default();
    for i in 0..5 {
        z.start_file(format!("repo/luts/Film {i}/Look {i}.cube"), opts).unwrap();
        z.write_all(format!("{i}").as_bytes()).unwrap();
    }
    z.finish().unwrap();
    let pack = Pack { name: "n", folder: "F", repo: "r/r", commit: "c", subdir: "luts" };
    let u = unpack(buf.into_inner(), &pack).ok().unwrap();
    assert_eq!(u.presets, 5);
    for (i, f) in u.files.iter().enumerate() {
        assert_eq!(f.path, texts(&[&format!("Film {i}"), &format!("Look {i}.cube")]));
        assert_eq!(f.data, format!("{i}").into_bytes());
    }
}

fn unescaped(s: &str) -> String {
    unescape(&s.chars().collect::<Vec<char>>()).into_iter().collect()
}

#[test]
fn unescaping_undoes_one_level() {
    for text in ["a < b > c", "\"Tom's\" & Co", "&lt;", "&amp;amp;", "&amp;quot; &apos", "", "plain"] {
        let once = text.replace('&', "&amp;").replace('<', "&lt;").replace('>', "&gt;").replace('"', "&quot;").replace('\'', "&apos;");
        assert_eq!(unescaped(&once), text);
    }
    assert_eq!(unescaped("&amp;lt;"), "&lt;");
    assert_eq!(unescaped("lt; gt;"), "lt; gt;");
}

#[test]
fn preloaded_photos_are_taken_once() {
    let photo = |width| Decoded { width, height: 1, pixels: Pixels::Srgb8(vec![0; 4 * width as usize]), p3: false };
    let mut b = Browser::new();
    b.index("2", Some("d".to_string()), texts(&["1", "2", "3"]));
    assert_eq!(b.prefetch("2"), ["3", "1"]);
    assert!(b.is_inflight("3") && b.take("3").is_none());
    assert!(b.poll(vec![("3".to_string(), Ok(photo(3)))]).is_none());
    assert!(!b.is_inflight("3") && b.is_inflight("1") && b.take("1").is_none());
    assert!(b.poll(vec![("1".to_string(), Ok(photo(1)))]).is_none());
    // What is decoded is not decoded again.
    assert!(b.prefetch("2").is_empty());
    assert_eq!(b.take("3").map(|d| d.width), Some(3));
    assert!(b.take("3").is_none());
    assert_eq!(b.files, ["1", "2", "3"]);
    assert_eq!(b.take("1").map(|d| d.width), Some(1));
    assert!(b.take("1").is_none());
}

#[test]
fn typing_more_never_improves_a_match() {
    let name = "Import Preset Folder…";
    let typed: Vec<Option<u128>> = (0..=6).map(|n| score(&"ip fol"[..n], name)).collect();
    assert!(typed.windows(2).all(|w| w[1] >= w[0]) && typed[6].is_some());
    assert_eq!(score("ip fold x", name), None);
}

#[test]
fn no_file_is_photo_and_preset() {
    for ext in ["xmp", "lrtemplate", "cube", "XMP", "jpg", "dng", "heic", "3fr", "txt"] {
        let name = format!("a.{ext}");
        assert!(!(is_photo(&name) && is_preset_file(&name)), "{name}");
    }
}

#[test]
fn cells_fill_their_square() {
    for px in [(6000, 4000), (1, 1), (3, 7), (97, 97), (16777217, 5), (u32::MAX, u32::MAX), (1367, 911)] {
        let (w, h) = cell_size(px);
        assert!(w <= 96 && h <= 96 && w.max(h) >= 95, "{px:?}");
    }
    assert_eq!(cell_size((0, 0)), (8, 8));
}
