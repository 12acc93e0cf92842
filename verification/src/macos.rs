//! macOS integration: the photos opened from Finder ("Open With", or dropped on the Dock icon), and
//! the "Presets" menu in the menu bar. What the system reports is queued until the UI takes it.

use crate::palette::Command;
use crate::text::{chars_of, find, has_text, replace, replaced, string_of};
use vstd::prelude::*;

verus! {

/// The items of the "Presets" menu: the palette command that each runs, and its title; `None` is a
/// separator.
pub open spec fn menu_of() -> Seq<Option<(Command, Seq<char>)>> {
    seq![
        Some((Command::ImportPresetFiles, "Import Presets…"@)),
        Some((Command::ImportPresetFolder, "Import Preset Folder…"@)),
        Some((Command::ShowPresetsFolder, "Show Presets Folder"@)),
        None,
        Some((Command::GetFreePresets, "Get Free Presets…"@)),
    ]
}

/// Menu items as views.
pub open spec fn menu_view(m: Seq<Option<(Command, &'static str)>>) -> Seq<
    Option<(Command, Seq<char>)>,
> {
    m.map_values(
        |o: Option<(Command, &'static str)>|
            match o {
                Some((c, t)) => Some((c, t@)),
                None => None,
            },
    )
}

/// The "Presets" menu: each item runs the palette command of the same name. `None` = separator.
pub fn presets_menu() -> (r: [Option<(Command, &'static str)>; 5])
    ensures
        menu_view(r@) == menu_of(),
{
    let r = [
        Some((Command::ImportPresetFiles, "Import Presets…")),
        Some((Command::ImportPresetFolder, "Import Preset Folder…")),
        Some((Command::ShowPresetsFolder, "Show Presets Folder")),
        None,
        Some((Command::GetFreePresets, "Get Free Presets…")),
    ];
    assert(menu_view(r@) =~= menu_of());
    r
}

/// The command that menu item `tag` runs; none for the separator and beyond the menu.
pub open spec fn command_at(tag: int) -> Option<Command> {
    if 0 <= tag < menu_of().len() {
        match menu_of()[tag] {
            Some((c, _)) => Some(c),
            None => None,
        }
    } else {
        None
    }
}

/// Queues the command of menu item `tag`.
pub fn menu_action(clicks: &mut Vec<Command>, tag: usize)
    ensures
        final(clicks)@ == match command_at(tag as int) {
            Some(c) => old(clicks)@.push(c),
            None => old(clicks)@,
        },
{
    let menu = presets_menu();
    if tag < menu.len() {
        assert(menu_view(menu@)[tag as int] == menu_of()[tag as int]);
        if let Some((c, _)) = menu[tag] {
            clicks.push(c);
        }
    }
}

/// Menu items chosen since the last call.
pub fn take_menu_commands(clicks: &mut Vec<Command>) -> (r: Vec<Command>)
    ensures
        r@ == old(clicks)@,
        final(clicks)@ == Seq::<Command>::empty(),
{
    let mut taken: Vec<Command> = Vec::new();
    std::mem::swap(&mut taken, clicks);
    taken
}

/// Files macOS asked us to open since the last call.
pub fn take_opened(opened: &mut Vec<String>) -> (r: Vec<String>)
    ensures
        r@ == old(opened)@,
        final(opened)@ == Seq::<String>::empty(),
{
    let mut taken: Vec<String> = Vec::new();
    std::mem::swap(&mut taken, opened);
    taken
}

/// The title of an item of the standard app menu, which is named after the executable ("About
/// bp_photos"): with the app's name in its place. `None` where there is nothing to change.
pub fn app_menu_title(title: &str) -> (r: Option<String>)
    ensures
        match r {
            Some(t) => find(title@, "bp_photos"@) is Some && t@ == replace(
                title@,
                "bp_photos"@,
                "BP Photos"@,
            ),
            None => find(title@, "bp_photos"@) is None,
        },
{
    let chars = chars_of(title);
    if has_text(&chars, "bp_photos") {
        Some(string_of(&replaced(&chars, "bp_photos", "BP Photos")))
    } else {
        None
    }
}

} // verus!
