//! Ghostty's colours and font.

use bp_photos::theme::{
    best_font, config_places, font_places, ghostty_look, is_dark, last_value, mix, normalise, parse_color,
    parse_kv, resolve, theme_places, theme_request, visuals, Base, Color, Colors, ThemeRequest, STYLES,
};

fn color(r: u8, g: u8, b: u8) -> Color {
    Color { r, g, b }
}

fn chars(s: &str) -> Vec<char> {
    s.chars().collect()
}

#[test]
fn parses_theme_file() {
    let mut c = Colors::new();
    for (k, v) in parse_kv("palette = 4=#a277ff\nbackground = #15141b\n# comment\nforeground = #edecee") {
        c.apply(&k, &v);
    }
    assert_eq!(c.background, Some(color(0x15, 0x14, 0x1b)));
    assert_eq!(c.palette_color(4), Some(color(0xa2, 0x77, 0xff)));
    let v = visuals(&c).unwrap();
    assert!(v.dark);
    assert_eq!(v.panel_fill, color(0x15, 0x14, 0x1b));
}

#[test]
fn colours_are_six_hex_digits() {
    assert_eq!(parse_color(&chars("#0aF1ff")), Some(color(0x0a, 0xf1, 0xff)));
    assert_eq!(parse_color(&chars("0aF1ff")), Some(color(0x0a, 0xf1, 0xff)));
    assert_eq!(parse_color(&chars("#fff")), None);
    assert_eq!(parse_color(&chars("#gg0000")), None);
    assert_eq!(parse_color(&chars("")), None);
}

#[test]
fn lines_without_a_value_are_passed_over() {
    let kv = parse_kv("a = 1\nnothing\n # b = 2\nc=\"x\"\na = 3");
    assert_eq!(last_value(&kv, "a").map(String::as_str), Some("3"));
    assert_eq!(last_value(&kv, "c").map(String::as_str), Some("x"));
    assert_eq!(last_value(&kv, "b"), None);
}

#[test]
fn later_colours_win_where_themes_are_merged() {
    let mut base = Colors::new();
    base.apply("background", "#000000");
    base.apply("foreground", "#ffffff");
    let mut over = Colors::new();
    over.apply("background", "#123456");
    let both = base.merged(&over);
    assert_eq!(both.background, Some(color(0x12, 0x34, 0x56)));
    assert_eq!(both.foreground, Some(color(0xff, 0xff, 0xff)));
}

#[test]
fn no_scheme_without_both_colours() {
    let mut c = Colors::new();
    c.apply("background", "#000000");
    assert!(visuals(&c).is_none());
}

#[test]
fn mixing_agrees_with_single_precision() {
    for percent in [60u8, 3, 15, 30, 4, 8, 12, 85, 22] {
        let t = percent as f32 / 100.0;
        for a in 0..=255u8 {
            for b in (0..=255u8).step_by(7) {
                let want = (a as f32 + (b as f32 - a as f32) * t).round() as u8;
                assert_eq!(mix(color(a, 0, 0), color(b, 0, 0), percent).r, want, "{a} {b} {percent}");
            }
        }
    }
    assert_eq!(mix(color(1, 2, 3), color(200, 100, 50), 0), color(1, 2, 3));
    assert_eq!(mix(color(1, 2, 3), color(200, 100, 50), 100), color(200, 100, 50));
}

#[test]
fn darkness_agrees_with_single_precision() {
    let in_floats = |c: Color| (0.2126 * c.r as f32 + 0.7152 * c.g as f32 + 0.0722 * c.b as f32) < 128.0;
    // A colour that exact arithmetic would put on the other side.
    let border = color(210, 101, 154);
    assert_eq!(is_dark(border), in_floats(border));
    for r in (0..=255u8).step_by(5) {
        for g in 0..=255u8 {
            for b in (0..=255u8).step_by(11) {
                let c = color(r, g, b);
                assert_eq!(is_dark(c), in_floats(c), "{c:?}");
            }
        }
    }
}

#[test]
fn themes_come_alone_or_in_pairs() {
    match theme_request(Some(&"light:Day,dark:Night".to_string())) {
        ThemeRequest::Pair { light, dark } => {
            assert_eq!(light.as_deref(), Some("Day"));
            assert_eq!(dark.as_deref(), Some("Night"));
        }
        _ => panic!("a pair was given"),
    }
    assert!(matches!(theme_request(Some(&"Aura".to_string())), ThemeRequest::Single(n) if n == "Aura"));
    assert!(matches!(theme_request(None), ThemeRequest::Nothing));
}

#[test]
fn a_single_theme_sets_the_mode_of_its_background() {
    let mut theme = Colors::new();
    theme.apply("background", "#15141b");
    theme.apply("foreground", "#edecee");
    let spec = "Aura".to_string();
    let look = resolve(Some(&spec), &None, &None, &Some(theme), &Colors::new());
    assert!(look.dark.is_some());
    assert!(look.light.is_none());
    assert!(look.note.is_some());
    let nothing = resolve(None, &None, &None, &None, &Colors::new());
    assert!(nothing.dark.is_none() && nothing.light.is_none() && nothing.note.is_none());
}

#[test]
fn the_summary_names_theme_and_font() {
    let look = ghostty_look(Some("theme Aura".to_string()), Some("Iosevka".to_string())).unwrap();
    assert_eq!(look.summary, "Ghostty look: theme Aura, font Iosevka");
    assert!(ghostty_look(None, None).is_none());
}

#[test]
fn fonts_are_found_by_their_normal_names() {
    assert_eq!(normalise("JetBrains Mono-Regular"), chars("jetbrainsmonoregular"));
    let stems: Vec<String> = ["Other-Bold", "JetBrainsMono-Bold", "JetBrainsMono-Regular"].iter().map(|s| s.to_string()).collect();
    assert_eq!(best_font("JetBrains Mono", &stems), Some(2));
    assert_eq!(best_font("Nope", &stems), None);
    assert!(STYLES.contains(&"bold"));
}

#[test]
fn places_are_searched_in_order() {
    assert!(config_places().iter().any(|(_, p)| p.contains("ghostty")));
    assert!(theme_places().iter().all(|(_, p)| p.contains("themes")));
    assert!(!font_places().is_empty());
    assert!(config_places().iter().any(|(b, _)| matches!(b, Base::Config)));
}
