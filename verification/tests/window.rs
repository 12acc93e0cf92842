//! The window: keys, selection, drawing, the preset panel, the crop tool and the status line.

use bp_photos::browse::Browser;
use bp_photos::crop::{hit_test, pixel_ratio, Handle, Pointer, Ratio, RATIOS};
use bp_photos::drawing::Thumb;
use bp_photos::loader::{Decoded, Pixels};
use bp_photos::macos::{app_menu_title, menu_action, presets_menu, take_menu_commands, take_opened};
use bp_photos::palette::Command;
use bp_photos::panel::{current_cell, grid_step, heading, nearest, note, sections, visible, Arrows, Cell, Item};
use bp_photos::screen::{Answer, Screen, Shot, Tour, CAPTURE_FRAME};
use bp_photos::session::{Act, Goto, Keys, Session, Stage};
use bp_photos::status;

fn texts(list: &[&str]) -> Vec<String> {
    list.iter().map(|s| s.to_string()).collect()
}

// --- Cells -----------------------------------------------------------------------------------

#[derive(Clone, Copy)]
struct Rect {
    min: [f32; 2],
    max: [f32; 2],
}

impl Rect {
    fn center(&self) -> [f32; 2] {
        [(self.min[0] + self.max[0]) / 2.0, (self.min[1] + self.max[1]) / 2.0]
    }
}

/// A number that is ordered as a distance is.
fn key(distance: f32) -> i32 {
    distance.to_bits() as i32
}

/// Next cell for arrow keys `[left, right, up, down]`.
fn step(cells: &[Rect], current: Option<usize>, [left, right, up, down]: [bool; 4]) -> usize {
    let keys = Arrows { left, right, up, down };
    let (mut in_row, mut distance) = (vec![false; cells.len()], vec![0; cells.len()]);
    if let Some(from) = current.map(|c| cells[c]) {
        let dy = |r: &Rect| (r.center()[1] - from.center()[1]).abs();
        let towards: Vec<bool> =
            cells.iter().map(|r| if up { r.max[1] <= from.min[1] + 1.0 } else { r.min[1] >= from.max[1] - 1.0 }).collect();
        let away: Vec<i32> = cells.iter().map(|r| key(dy(r))).collect();
        if let Some(row) = nearest(&towards, &away) {
            for (i, r) in cells.iter().enumerate() {
                in_row[i] = towards[i] && dy(r) - dy(&cells[row]) < 1.0;
                distance[i] = key((r.center()[0] - from.center()[0]).abs());
            }
        }
    }
    grid_step(cells.len(), current, keys, &in_row, &distance)
}

/// Two sections: a 2×2 grid, then (after a header gap) a row of 2, like the preset panel.
fn cells() -> Vec<Rect> {
    let cell = |x: f32, y: f32| Rect { min: [x, y], max: [x + 100.0, y + 80.0] };
    vec![cell(0.0, 0.0), cell(110.0, 0.0), cell(0.0, 90.0), cell(110.0, 90.0), cell(0.0, 210.0), cell(110.0, 210.0)]
}

#[test]
fn left_right_follow_display_order() {
    assert_eq!(step(&cells(), Some(1), [false, true, false, false]), 2);
    assert_eq!(step(&cells(), Some(0), [true, false, false, false]), 0);
    assert_eq!(step(&cells(), Some(5), [false, true, false, false]), 5);
}

#[test]
fn up_down_keep_the_column_across_sections() {
    assert_eq!(step(&cells(), Some(1), [false, false, false, true]), 3);
    assert_eq!(step(&cells(), Some(3), [false, false, false, true]), 5);
    assert_eq!(step(&cells(), Some(4), [false, false, true, false]), 2);
    assert_eq!(step(&cells(), Some(0), [false, false, true, false]), 0);
}

#[test]
fn without_a_selection_the_first_cell_is_next() {
    assert_eq!(step(&cells(), None, [false, true, false, false]), 0);
    assert_eq!(step(&cells(), Some(3), [false; 4]), 3);
    assert_eq!(nearest(&[false, true, true], &[0, 5, 5]), Some(1));
    assert_eq!(nearest(&[], &[]), None);
}

#[test]
fn the_selection_is_found_in_its_section() {
    let cell = |preset: usize, section: &str| Cell { preset, section: section.to_string() };
    let cells = [cell(7, "recommended"), cell(1, "Film"), cell(7, "Film")];
    assert_eq!(current_cell(&cells, 7, "Film"), Some(2));
    assert_eq!(current_cell(&cells, 7, "gone"), Some(0));
    assert_eq!(current_cell(&cells, 9, "Film"), None);
}

// --- Panel -----------------------------------------------------------------------------------

fn items() -> Vec<Item> {
    let item = |name: &str, group: &str, builtin: bool| Item { name: name.to_string(), group: group.to_string(), builtin };
    vec![item("Original", "Basic", true), item("Noir", "B&W", true), item("Punchy", "Basic", true), item("Portra", "Film", false)]
}

#[test]
fn filters_look_at_names_and_groups() {
    assert_eq!(visible(&items(), ""), [0, 1, 2, 3]);
    assert_eq!(visible(&items(), "NOIR"), [1]);
    assert_eq!(visible(&items(), "basic"), [0, 2]);
    assert_eq!(visible(&items(), "or"), [0, 3]);
    assert!(visible(&items(), "zzz").is_empty());
}

#[test]
fn sections_follow_the_groups() {
    let s = sections(&items(), &[0, 1, 2, 3], false, true, &[3, 1]);
    let titles: Vec<&str> = s.iter().map(|x| x.title.as_str()).collect();
    assert_eq!(titles, ["★ Recommended for this photo", "Basic", "B&W", "Film"]);
    assert_eq!(s[0].items, [3, 1]);
    assert!(s[0].recommended && s[0].open && s[0].id == "recommended");
    assert_eq!(s[1].items, [0, 2]);
    assert!(s[1].open && !s[3].open);
    // No recommendations while filtering, or without a photo.
    assert_eq!(sections(&items(), &[3], true, true, &[3]).len(), 1);
    assert_eq!(sections(&items(), &[3], false, false, &[3]).len(), 1);
    assert_eq!(heading("Basic", 12), "Basic  (12)");
}

#[test]
fn recommendations_say_why() {
    let reasons = vec![texts(&["a", "b"]), Vec::new()];
    assert_eq!(note(&[4, 5], &reasons, 4).as_deref(), Some("a · b"));
    assert_eq!(note(&[4, 5], &reasons, 5), None);
    assert_eq!(note(&[4, 5], &reasons, 6), None);
}

// --- Crop ------------------------------------------------------------------------------------

fn handle(crop: [f32; 4], p: [f32; 2], margin: f32) -> Option<Handle> {
    let [l, t, r, b] = crop;
    let near = |a: f32, v: f32| (a - v).abs() <= margin;
    let in_x = p[0] >= l - margin && p[0] <= r + margin;
    let in_y = p[1] >= t - margin && p[1] <= b + margin;
    hit_test(Pointer {
        left: near(p[0], l) && in_y,
        right: near(p[0], r) && in_y,
        top: near(p[1], t) && in_x,
        bottom: near(p[1], b) && in_x,
        inside: p[0] > l && p[0] < r && p[1] > t && p[1] < b,
    })
}

#[test]
fn hit_test_finds_handles() {
    let c = [100.0, 100.0, 300.0, 200.0];
    assert_eq!(handle(c, [102.0, 98.0], 8.0), Some(Handle::NW));
    assert_eq!(handle(c, [200.0, 201.0], 8.0), Some(Handle::S));
    assert_eq!(handle(c, [200.0, 150.0], 8.0), Some(Handle::Move));
    assert_eq!(handle(c, [50.0, 50.0], 8.0), None);
}

fn ratio(index: usize, flip: bool, image: (u32, u32)) -> Option<f32> {
    match pixel_ratio(index, flip, image) {
        Ratio::Free => None,
        Ratio::Image { flip } => {
            let r = image.0 as f32 / image.1 as f32;
            Some(if flip { 1.0 / r } else { r })
        }
        Ratio::Fixed { width, height, turned, flip } => {
            let r = width as f32 / height as f32;
            let r = if turned { 1.0 / r } else { r };
            Some(if flip { 1.0 / r } else { r })
        }
    }
}

#[test]
fn ratio_follows_photo_orientation() {
    let r = ratio(5, false, (3000, 4000)).unwrap();
    assert!((r - 9.0 / 16.0).abs() < 1e-5);
    let r = ratio(5, true, (3000, 4000)).unwrap();
    assert!((r - 16.0 / 9.0).abs() < 1e-5);
}

#[test]
fn ratios_are_free_original_or_fixed() {
    assert_eq!(pixel_ratio(0, false, (3, 4)), Ratio::Free);
    assert_eq!(pixel_ratio(1, true, (3, 4)), Ratio::Image { flip: true });
    assert_eq!(pixel_ratio(2, false, (3, 4)), Ratio::Fixed { width: 1, height: 1, turned: false, flip: false });
    assert_eq!(pixel_ratio(3, false, (4, 3)), Ratio::Fixed { width: 4, height: 5, turned: true, flip: false });
    assert_eq!(RATIOS.len(), 6);
    assert_eq!(Handle::NE.edges(), (1, -1));
    assert_eq!(Handle::Move.edges(), (0, 0));
}

// --- Keys ------------------------------------------------------------------------------------

fn no_keys() -> Keys {
    Keys {
        export: false,
        copy: false,
        enter: false,
        escape: false,
        c: false,
        f: false,
        x: false,
        y: false,
        z: false,
        open_bracket: false,
        close_bracket: false,
        arrow: false,
    }
}

fn with_photo() -> Session {
    let mut s = Session::new(false);
    s.finish_load("a.jpg".to_string(), false);
    s
}

#[test]
fn keys_open_and_close_the_crop_tool() {
    let mut s = with_photo();
    s.modes.side_by_side = true;
    assert_eq!(s.press(Keys { c: true, ..no_keys() }, false), [Act::StartCrop]);
    assert!(s.modes.cropping && !s.modes.side_by_side);
    // Arrows and the other keys stay inactive while cropping.
    assert!(s.press(Keys { arrow: true, y: true, z: true, f: true, export: true, copy: true, ..no_keys() }, false).is_empty());
    assert_eq!(s.press(Keys { x: true, ..no_keys() }, false), [Act::ApplyRatio]);
    assert!(s.modes.crop_flip);
    assert_eq!(s.press(Keys { escape: true, ..no_keys() }, false), [Act::FinishCrop { keep: false }]);
    assert!(!s.modes.cropping);
    s.press(Keys { c: true, ..no_keys() }, false);
    assert_eq!(s.press(Keys { enter: true, ..no_keys() }, false), [Act::FinishCrop { keep: true }]);
}

#[test]
fn cropping_leaves_the_zoom() {
    let mut s = with_photo();
    assert_eq!(s.press(Keys { z: true, ..no_keys() }, false), [Act::ZoomIn]);
    assert_eq!(s.press(Keys { c: true, ..no_keys() }, false), [Act::ZoomOut, Act::StartCrop]);
    assert!(!s.modes.zoomed && s.modes.cropping);
}

#[test]
fn keys_step_compare_and_show() {
    let mut s = with_photo();
    let acts = s.press(Keys { f: true, y: true, open_bracket: true, close_bracket: true, arrow: true, ..no_keys() }, false);
    assert_eq!(
        acts,
        [Act::SaveFilmstrip { show: true }, Act::Navigate { next: false }, Act::Navigate { next: true }, Act::MoveSelection]
    );
    assert!(s.modes.show_filmstrip && s.modes.side_by_side);
    s.press(Keys { z: true, ..no_keys() }, false);
    assert_eq!(s.press(Keys { escape: true, ..no_keys() }, false), [Act::ZoomOut]);
    assert!(s.press(Keys { escape: true, ..no_keys() }, false).is_empty());
}

#[test]
fn keys_do_nothing_behind_a_dialog() {
    let mut s = with_photo();
    assert!(s.press(Keys { c: true, ..no_keys() }, true).is_empty());
    assert!(s.press(Keys { export: true, ..no_keys() }, false).is_empty());
    assert!(s.modes.export_dialog);
    assert!(s.press(Keys { c: true, ..no_keys() }, false).is_empty());
}

#[test]
fn copying_runs_once_at_a_time() {
    let mut s = with_photo();
    assert_eq!(s.press(Keys { copy: true, ..no_keys() }, false), [Act::Copy]);
    assert!(s.ask_copy() == Answer::Go);
    s.modes.copying = true;
    assert!(s.press(Keys { copy: true, ..no_keys() }, false).is_empty());
    assert!(s.ask_copy() == Answer::Busy);
    assert!(s.ask_export() == Answer::Go);
    s.modes.exporting = true;
    assert!(s.ask_export() == Answer::Busy);
    assert!(Session::new(true).ask_copy() == Answer::NotReady);
    assert!(Session::new(true).ask_export() == Answer::NotReady);
}

// --- Photos ----------------------------------------------------------------------------------

#[test]
fn the_full_image_keeps_the_crop_of_its_preview() {
    let mut s = Session::new(false);
    assert!(!s.finish_load("a.cr3".to_string(), true));
    assert!(!s.is_loaded() && !s.zoom_available());
    let mut acts = Vec::new();
    s.start_crop(&mut acts);
    assert!(s.finish_load("a.cr3".to_string(), false));
    assert!(s.modes.cropping);
    assert!(!s.finish_load("b.cr3".to_string(), false));
    assert!(!s.modes.cropping && s.is_loaded());
}

fn decoded() -> Decoded {
    Decoded { width: 1, height: 1, pixels: Pixels::Srgb8(vec![0; 4]), p3: false }
}

#[test]
fn other_photos_are_shown_awaited_or_opened() {
    let mut s = Session::new(false);
    let mut b = Browser::new();
    b.index("2", None, texts(&["1", "2", "3"]));
    s.open(&mut b, "2".to_string());
    assert_eq!(s.navigate(&b, true).as_deref(), Some("3"));
    assert_eq!(s.navigate(&b, false).as_deref(), Some("1"));
    b.prefetch("2");
    assert!(matches!(s.goto(&mut b, "2".to_string()), Goto::Stay));
    assert!(matches!(s.goto(&mut b, "3".to_string()), Goto::Wait));
    assert_eq!(b.pending.as_deref(), Some("3"));
    assert_eq!(s.target.as_deref(), Some("3"));
    b.poll(vec![("1".to_string(), Ok(decoded()))]);
    assert!(matches!(s.goto(&mut b, "1".to_string()), Goto::Show(d) if d.width == 1));
    assert!(b.pending.is_none());
    assert!(matches!(s.goto(&mut b, "2".to_string()), Goto::Open));
    assert_eq!(Session::new(false).navigate(&b, true), None);
}

// --- Selection -------------------------------------------------------------------------------

#[test]
fn arrows_move_the_selection() {
    let mut s = with_photo();
    s.take_drawing(false);
    let cells: Vec<Cell> = [0, 5, 9].iter().map(|&preset| Cell { preset, section: "G".to_string() }).collect();
    let right = Arrows { left: false, right: true, up: false, down: false };
    s.move_selection(&cells, right, &[false; 3], &[0; 3]);
    assert_eq!(s.selection.preset, 5);
    assert_eq!(s.selection.section, "G");
    assert!(s.selection.scroll_to && s.dirty.preview);
    s.move_selection(&[], right, &[], &[]);
    assert_eq!(s.selection.preset, 5);
    // The selected cell is scrolled to once, in its section.
    assert!(!s.scrolls_to(5, "other"));
    assert!(!s.scrolls_to(9, "G"));
    assert!(s.scrolls_to(5, "G"));
    assert!(!s.scrolls_to(5, "G"));
}

#[test]
fn imported_presets_are_selected() {
    let mut s = with_photo();
    s.dirty.recs = false;
    s.add_presets(29, 2);
    assert_eq!(s.selection.preset, 29);
    assert!(s.dirty.recs && s.selection.scroll_to);
    s.add_presets(31, 0);
    assert_eq!(s.selection.preset, 29);
    s.clicked(3, "Film".to_string());
    assert_eq!((s.selection.preset, s.selection.section.as_str()), (3, "Film"));
    s.take_drawing(false);
    s.select(3);
    assert!(!s.dirty.preview);
    s.select(4);
    assert!(s.dirty.preview);
}

// --- Recommendations -------------------------------------------------------------------------

#[test]
fn recommendations_run_one_job_at_a_time() {
    let mut s = Session::new(false);
    s.dirty.recs = true;
    assert!(!s.start_recommendations());
    let mut s = with_photo();
    assert!(s.start_recommendations());
    assert!(s.is_recommending() && !s.dirty.recs);
    s.dirty.recs = true;
    assert!(!s.start_recommendations());
    s.presets_rendered();
    assert!(s.stage == Stage::Scoring && !s.start_recommendations());
    s.presets_scored(vec![3, 1]);
    assert_eq!(s.recommended, [3, 1]);
    assert!(!s.is_recommending());
    let mut acts = Vec::new();
    s.start_crop(&mut acts);
    assert!(!s.start_recommendations());
    s.finish_crop(true, &mut acts);
    assert!(s.start_recommendations());
}

// --- Drawing ---------------------------------------------------------------------------------

#[test]
fn thumbnails_are_rendered_once_they_are_seen() {
    let mut s = Session::new(false);
    assert!(s.thumb_for(2, 5) == Thumb::NoPhoto);
    let mut s = with_photo();
    assert!(s.thumb_for(2, 5) == Thumb::New);
    assert!(s.thumb_for(2, 5) == Thumb::Known);
    assert!(s.thumb_for(4, 5) == Thumb::New);
    let d = s.take_drawing(true).unwrap();
    assert_eq!(d.thumbs, [2, 4]);
    assert!(d.original && d.zoomed && d.zoomed_original);
    // Drawn is drawn.
    assert!(s.take_drawing(true).is_none());
    assert!(s.thumb_for(2, 5) == Thumb::Known);
    assert!(s.take_drawing(true).is_none());
}

#[test]
fn views_follow_the_crop() {
    let mut s = with_photo();
    s.thumb_for(1, 3);
    s.take_drawing(false);
    s.dirty.recs = false;
    assert_eq!(s.sync_targets(true, true), (false, false));
    assert_eq!(s.sync_targets(false, true), (true, false));
    assert!(s.dirty.preview && s.dirty.original && !s.dirty.recs);
    assert_eq!(s.sync_targets(true, false), (false, true));
    assert!(s.dirty.recs && s.thumbs.fresh.is_empty());
    // The thumbnails wait until the crop is done.
    let mut acts = Vec::new();
    s.start_crop(&mut acts);
    assert_eq!(s.sync_targets(true, false), (false, false));
    assert_eq!(Session::new(false).sync_targets(false, false), (false, false));
}

// --- Screen ----------------------------------------------------------------------------------

#[test]
fn the_screen_shows_one_thing() {
    let mut s = Session::new(false);
    assert!(s.screen() == Screen::Empty);
    s.finish_load("a".to_string(), false);
    assert!(s.screen() == Screen::Fitted);
    s.modes.side_by_side = true;
    assert!(s.screen() == Screen::Compare);
    let mut acts = Vec::new();
    s.toggle_zoom(&mut acts);
    assert!(s.screen() == Screen::Zoomed && !s.zoom_is_off());
    assert!(s.tip().starts_with("Drag to pan"));
    // The next photo still shows its preview: fitted meanwhile.
    s.finish_load("b".to_string(), true);
    assert!(s.screen() == Screen::Compare && s.zoom_is_off());
    assert!(s.tip().starts_with("Scroll"));
    s.start_crop(&mut acts);
    assert!(s.screen() == Screen::Cropping);
    s.set_filmstrip(true, &mut acts);
    assert!(s.modes.show_filmstrip);
}

#[test]
fn holding_shows_the_original() {
    let mut s = with_photo();
    s.take_drawing(false);
    s.hold(true, false);
    assert!(s.modes.show_original && s.dirty.preview);
    s.take_drawing(false);
    s.hold(true, false);
    assert!(!s.dirty.preview);
    s.hold(false, false);
    assert!(!s.modes.show_original && s.dirty.preview);
    // At 100% dragging pans, and only the key shows the original.
    let mut acts = Vec::new();
    s.toggle_zoom(&mut acts);
    s.hold(true, false);
    assert!(!s.modes.show_original);
    s.hold(false, true);
    assert!(s.modes.show_original);
    s.modes.side_by_side = true;
    s.hold(true, true);
    assert!(!s.modes.show_original);
}

#[test]
fn screenshots_wait_until_all_is_there() {
    let mut s = with_photo();
    assert_eq!(s.drive_screenshot(0, false, true, true), (0, Shot::Wait));
    s.start_recommendations();
    s.presets_rendered();
    s.presets_scored(vec![7]);
    assert_eq!(s.drive_screenshot(0, true, true, true), (1, Shot::Prepare));
    assert_eq!((s.selection.preset, s.selection.section.as_str()), (7, "recommended"));
    assert!(s.modes.side_by_side && s.modes.show_filmstrip);
    // The filmstrip is still loading.
    assert_eq!(s.drive_screenshot(1, true, true, true), (1, Shot::Wait));
    assert_eq!(s.drive_screenshot(1, false, true, true), (2, Shot::Wait));
    assert_eq!(s.drive_screenshot(CAPTURE_FRAME - 1, false, true, true), (CAPTURE_FRAME, Shot::Capture));
}

#[test]
fn tours_step_through_the_folder() {
    let s = with_photo();
    assert!(s.drive_tour(true, false) == Tour::Next);
    assert!(s.drive_tour(true, true) == Tour::Quit);
    assert!(s.drive_tour(false, true) == Tour::Wait);
    assert!(Session::new(false).drive_tour(true, true) == Tour::Wait);
}

// --- Status ----------------------------------------------------------------------------------

#[test]
fn the_status_line_says_what_happened() {
    assert_eq!(status::welcome(None), "Open or drop a photo to start.");
    assert_eq!(status::welcome(Some("Ghostty look: x")), "Open or drop a photo to start. (Ghostty look: x)");
    assert_eq!(status::skipped(&texts(&["a: bad", "b"])).as_deref(), Some("Skipped 2 preset file(s): a: bad"));
    assert_eq!(status::skipped(&[]), None);
    assert_eq!(status::loading("p/a.jpg"), "Loading p/a.jpg…");
    assert_eq!(status::could_not_open("p", "gone"), "Could not open p: gone");
    assert_eq!(status::loaded("a", true, (1, 2), 30), "a — preview in 30 ms, loading full resolution…");
    assert_eq!(status::loaded("a", false, (60, 40), 5), "a — 60×40 — loaded in 5 ms");
    assert_eq!(status::cropped(true, (1, 1)), "No crop.");
    assert_eq!(status::cropped(false, (30, 20)), "Cropped to 30×20.");
    assert_eq!(status::imported(3, &[]), "Imported 3 preset(s).");
    assert_eq!(status::imported(0, &texts(&["x: y"])), "Imported 0 preset(s), 1 failed — x: y");
    assert_eq!(status::no_photos("d"), "No photos in d");
    assert_eq!(status::copied((10, 20)), "Copied 10×20 to the clipboard.");
    assert_eq!(status::copy_failed("e"), "Copy failed: e");
    assert_eq!(status::exporting("f"), "Exporting f…");
    assert_eq!(status::exported(Ok("f")), "Exported f");
    assert_eq!(status::exported(Err("e")), "Export failed: e");
    assert_eq!(status::position(2, 10), "3 / 10");
    assert_eq!(status::COPYING, "Copying…");
    assert!(status::OPEN_A_PHOTO_FIRST.starts_with("Open a photo first"));
    assert!(status::NO_CLIPBOARD.starts_with("Copy failed"));
}

// --- Menus -----------------------------------------------------------------------------------

#[test]
fn menus_run_commands() {
    let menu = presets_menu();
    let at = menu.iter().position(|m| matches!(m, Some((Command::GetFreePresets, _)))).unwrap();
    let mut clicks = Vec::new();
    menu_action(&mut clicks, at);
    menu_action(&mut clicks, 999);
    assert_eq!(take_menu_commands(&mut clicks), [Command::GetFreePresets]);
    assert!(clicks.is_empty());
    let mut opened = texts(&["a"]);
    assert_eq!(take_opened(&mut opened), ["a"]);
    assert!(opened.is_empty());
    assert_eq!(app_menu_title("Quit bp_photos").as_deref(), Some("Quit BP Photos"));
    assert_eq!(app_menu_title("Edit"), None);
}
