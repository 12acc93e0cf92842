//! The command palette.

use bp_photos::palette::{fuzzy, matching, score, shortcut, Command, Palette, COMMANDS};

fn chars(s: &str) -> Vec<char> {
    s.chars().collect()
}

#[test]
fn fuzzy_matching_prefers_word_starts() {
    assert!(score("of", "Open Folder…").is_some());
    assert!(score("fold", "Open Folder…").unwrap() < score("fold", "Open File…").unwrap_or(u128::MAX));
    assert_eq!(score("xyz", "Open File…"), None);
    assert_eq!(score("", "Open File…"), Some(0));
    assert!(score("open fi", "Open File…").is_some());
}

#[test]
fn scores_count_gaps_and_letters_inside_words() {
    // "f" after "open ": five characters skipped, at a word start.
    assert_eq!(score("f", "Open Folder…"), Some(5));
    // "p" directly behind the start, inside a word.
    assert_eq!(score("p", "Open"), Some(1 + 2));
    assert_eq!(fuzzy(&chars("of"), &chars("open folder")), Some(4));
    assert_eq!(fuzzy(&chars("z"), &chars("open")), None);
    assert_eq!(fuzzy(&[], &chars("open")), Some(0));
}

#[test]
fn spaces_and_case_of_a_query_do_not_matter() {
    assert_eq!(score("O P", "open"), score("op", "OPEN"));
    // Capitals outside ASCII are matched as well.
    assert_eq!(score("É", "été"), Some(0));
}

#[test]
fn an_empty_query_lists_every_command_in_order() {
    assert_eq!(matching(""), (0..COMMANDS.len()).collect::<Vec<_>>());
    let first = matching("free");
    assert_eq!(COMMANDS[first[0]].0, Command::GetFreePresets);
    assert!(matching("qqqq").is_empty());
}

#[test]
fn shortcuts_follow_the_platform() {
    assert_eq!(shortcut("Shift+Cmd+P", true), "Shift+⌘P");
    assert_eq!(shortcut("Shift+Cmd+P", false), "Shift+Ctrl+P");
    assert_eq!(shortcut("", true), "");
}

#[test]
fn arrows_and_enter_pick_a_command() {
    let mut p = Palette::default();
    assert!(!p.is_open());
    assert!(p.begin(false, false, false).is_none());
    p.toggle();
    assert!(p.is_open());
    assert!(p.take_focus());
    assert!(!p.take_focus());
    let (list, chosen) = p.begin(false, true, false).unwrap();
    assert_eq!(list.len(), COMMANDS.len());
    assert_eq!(chosen, None);
    assert_eq!(p.selected(), 1);
    p.end(false, None, false);
    assert!(p.is_open());
    let (_, chosen) = p.begin(false, false, true).unwrap();
    assert_eq!(chosen, Some(Command::OpenFolder));
    p.end(false, chosen, false);
    assert!(!p.is_open());
}

#[test]
fn typing_narrows_the_list_and_escape_closes_it() {
    let mut p = Palette::default();
    p.toggle();
    p.edited("copy".to_string());
    assert_eq!(p.query(), "copy");
    let (list, _) = p.begin(true, false, false).unwrap();
    assert_eq!(COMMANDS[list[0]].0, Command::CopyToClipboard);
    p.hovered(3);
    assert_eq!(p.selected(), 3);
    // The selection never leaves the list.
    let (list, _) = p.begin(false, true, false).unwrap();
    assert!(p.selected() < list.len());
    p.end(true, None, false);
    assert!(!p.is_open());
}
