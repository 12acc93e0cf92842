//! Arithmetic in single and double precision, order, and texts.

use bp_photos::double::{push_ratio, push_whole};
use bp_photos::numeral::{decimal_text, is_numeral, parse_unsigned};
use bp_photos::names::{extension, stem, written_extension};
use bp_photos::order::{sort_numbers, sort_texts};
use bp_photos::pixels::take_rows;
use bp_photos::single::{divide, multiply, round, to_nearest, truncate, RATIO_ONE};
use bp_photos::text::{find_text, halves, join_texts, replaced, stripped, trimmed};

fn chars(s: &str) -> Vec<char> {
    s.chars().collect()
}

fn texts(list: &[&str]) -> Vec<String> {
    list.iter().map(|s| s.to_string()).collect()
}

#[test]
fn rounding_agrees_with_single_precision() {
    for n in [0u32, 1, 16777215, 16777216, 16777217, 16777219, 33554435, 4294967295, 2147483648, 123456789] {
        assert_eq!(round(n as u128) as f64, n as f32 as f64);
    }
}

#[test]
fn quotients_agree_with_single_precision() {
    for a in [1u32, 2, 3, 7, 280, 1080, 3072, 65535, 16777217, 4294967295] {
        for b in [1u32, 2, 3, 7, 360, 4000, 6000, 65535, 16777217, 4294967295] {
            let q = divide(a, b);
            let f = a as f32 / b as f32;
            assert_eq!(q as f64 / RATIO_ONE as f64, f as f64, "{a} {b}");
            for n in [1u32, 3, 1000, 4961, 6000] {
                let p = multiply(n, q);
                let g = n as f32 * f;
                assert_eq!(truncate(p), g as u32, "{n} {a} {b}");
                assert_eq!(to_nearest(p), g.round() as u32, "{n} {a} {b}");
            }
        }
    }
}

#[test]
fn ratios_are_written_with_one_decimal() {
    let text = |n: u32, d: u32| {
        let mut s = String::new();
        push_ratio(&mut s, n, d);
        s
    };
    for (n, d) in [(28, 10), (70, 1), (1, 3), (2, 3), (125, 100), (4, 1), (0, 7), (999, 1000)] {
        let v = n as f64 / d as f64;
        let fixed = format!("{v:.1}");
        let want = fixed.strip_suffix(".0").unwrap_or(&fixed);
        assert_eq!(text(n, d), want, "{n}/{d}");
    }
    let mut s = String::new();
    push_whole(&mut s, 999, 10);
    assert_eq!(s, format!("{:.0}", 99.9));
}

#[test]
fn numerals_are_those_of_floats() {
    for s in ["0", "-1", "+1", "1.5", ".5", "5.", "1e3", "1E-3", "inf", "-Infinity", "NaN", "", ".", "e5", "1e", "--1", "0x1", "1_0", " 1", "infinit"] {
        assert_eq!(is_numeral(&chars(s)), s.parse::<f32>().is_ok(), "{s:?}");
    }
    for s in ["0", "7", "+7", "-7", "", "+", "4294967295", "4294967296", "007", "1.0", "99999999999999999999"] {
        assert_eq!(parse_unsigned(&chars(s), u32::MAX), s.parse::<u32>().ok(), "{s:?}");
        assert_eq!(parse_unsigned(&chars(s), 255), s.parse::<u8>().ok().map(u32::from), "{s:?}");
    }
    assert_eq!(decimal_text(0), "0");
    assert_eq!(decimal_text(u64::MAX), u64::MAX.to_string());
}

#[test]
fn sorting_is_stable() {
    assert_eq!(sort_numbers(&[3, 1, 2, 1]), [1, 3, 2, 0]);
    assert_eq!(sort_texts(&texts(&["b", "a", "ab", "b", ""])), [4, 1, 2, 0, 3]);
    assert!(sort_numbers(&[]).is_empty());
}

#[test]
fn names_have_parts() {
    for name in ["a.jpg", "a.b.C", ".x", "x.", "plain", "..", "a..b", ""] {
        let path = std::path::Path::new(name);
        assert_eq!(written_extension(name), path.extension().map(|e| e.to_string_lossy().into_owned()), "{name:?}");
        if path.file_name().is_some() {
            assert_eq!(Some(stem(name)), path.file_stem().map(|e| e.to_string_lossy().into_owned()), "{name:?}");
        }
    }
    assert_eq!(extension("a.JpG").as_deref(), Some("jpg"));
}

#[test]
fn texts_are_cut_and_joined() {
    assert_eq!(trimmed(&chars(" \t a b\u{3000}")), chars("a b").as_slice());
    assert_eq!(stripped(&chars("\"x\"\""), '"'), chars("x").as_slice());
    assert_eq!(find_text(&chars("banana"), "ana"), Some(1));
    assert_eq!(find_text(&chars("banana"), ""), Some(0));
    assert_eq!(find_text(&chars("banana"), "x"), None);
    assert_eq!(replaced(&chars("aaa"), "aa", "b"), chars("ba"));
    let whole = chars("k=v=w");
    let (k, v) = halves(&whole, '=').unwrap();
    assert_eq!((k, v), (chars("k").as_slice(), chars("v=w").as_slice()));
    assert!(halves(&chars("k"), '=').is_none());
    assert_eq!(join_texts(&texts(&["a", "b", "c"]), ", "), "a, b, c");
    assert_eq!(join_texts(&[], ", "), "");
}

#[test]
fn rows_are_taken_out() {
    let data: Vec<u8> = (0..12).collect();
    assert_eq!(take_rows(&data, 1, 4, 2, 3), [1, 2, 5, 6, 9, 10]);
    assert!(take_rows(&data, 0, 4, 4, 0).is_empty());
}
