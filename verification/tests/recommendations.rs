//! Recommendations.

use bp_photos::recommend::{
    block_of, cell_pixels, cell_size, clipping, difference, is_skin, percentile, pick, ranking, reasons,
    skin_mask, Candidate, Findings, Reason, COUNT, GRID_COLS,
};

#[test]
fn skin_rule_matches_typical_skin() {
    assert!(is_skin(&[224, 172, 140]));
    assert!(!is_skin(&[40, 120, 220]));
}

/// The rule as it is written in single precision.
fn skin_in_floats(p: [u8; 3]) -> bool {
    let (r, g, b) = (p[0] as f32, p[1] as f32, p[2] as f32);
    let y = 0.299 * r + 0.587 * g + 0.114 * b;
    let cb = 128.0 - 0.168_736 * r - 0.331_264 * g + 0.5 * b;
    let cr = 128.0 + 0.5 * r - 0.418_688 * g - 0.081_312 * b;
    (77.0..=127.0).contains(&cb) && (133.0..=173.0).contains(&cr) && (40.0..=235.0).contains(&y)
}

#[test]
fn skin_rule_agrees_with_single_precision() {
    // On the borders of the rule, and over a grid of all colours.
    for p in [[50, 40, 40], [66, 32, 13], [101, 91, 91]] {
        assert_eq!(is_skin(&p), skin_in_floats(p), "{p:?}");
    }
    for r in (0..=255u8).step_by(3) {
        for g in (0..=255u8).step_by(2) {
            for b in (0..=255u8).step_by(5) {
                let p = [r, g, b];
                assert_eq!(is_skin(&p), skin_in_floats(p), "{p:?}");
            }
        }
    }
}

#[test]
fn cells_keep_the_shape_of_the_photo() {
    assert_eq!(cell_size((6000, 4000)), (96, 64));
    assert_eq!(cell_size((4000, 6000)), (64, 96));
    assert_eq!(cell_size((5000, 10)), (96, 8));
    for px in [(1, 1), (7, 3), (1234, 567), (8191, 8190), (65535, 12)] {
        let s = 96.0f32 / px.0.max(px.1) as f32;
        let want = (((px.0 as f32 * s) as u32).max(8), ((px.1 as f32 * s) as u32).max(8));
        assert_eq!(cell_size(px), want);
    }
}

#[test]
fn cells_are_cut_out_of_the_grid() {
    // A grid of two cells side by side, two pixels each: cell 1 is the right half.
    let rgba: Vec<u8> = (0..4 * 4 * 2u32).map(|i| i as u8).collect();
    let cell = cell_pixels(&rgba, 4, (2, 2), 2, 1);
    assert_eq!(cell, [&rgba[8..16], &rgba[24..32]].concat());
}

#[test]
fn clipping_counts_the_ends() {
    let px = [255, 0, 0, 255, 0, 0, 0, 255, 5, 5, 5, 255, 6, 0, 0, 255, 252, 0, 0, 255, 253, 0, 0, 255];
    let (hi, lo) = clipping(&px);
    let in_floats = |test: fn(f32) -> bool| {
        px.chunks(4).filter(|p| test(p[..3].iter().map(|&c| c as f32 / 255.0).fold(0.0, f32::max))).count() as u64
    };
    assert_eq!(hi, in_floats(|m| m >= 0.99));
    assert_eq!(lo, in_floats(|m| m <= 0.02));
    assert_eq!((hi, lo), (2, 2));
}

#[test]
fn skin_is_marked_pixel_by_pixel() {
    assert_eq!(skin_mask(&[224, 172, 140, 255, 40, 120, 220, 255]), [true, false]);
}

#[test]
fn differences_leave_out_alpha() {
    assert_eq!(difference(&[10, 20, 30, 0], &[11, 18, 33, 255]), 1 + 2 + 3);
}

#[test]
fn percentiles_and_blocks() {
    let mut hist = [0u32; 64];
    hist[3] = 5;
    hist[40] = 5;
    assert_eq!(percentile(&hist, 5), 3);
    assert_eq!(percentile(&hist, 6), 40);
    assert_eq!(percentile(&hist, 0), 0);
    assert_eq!(percentile(&hist, 11), 63);
    assert_eq!(block_of(0, 0, (96, 64)), 0);
    assert_eq!(block_of(95, 63, (96, 64)), 15);
    assert_eq!(block_of(24, 16, (96, 64)), 5);
}

fn nothing() -> Findings {
    Findings {
        keeps_highlights: false,
        keeps_shadows: false,
        brightens: false,
        adds_depth: false,
        livens: false,
        gray: false,
        some_skin: false,
        much_skin: false,
        skin_kept: false,
    }
}

#[test]
fn the_most_specific_reasons_come_first() {
    assert!(reasons(nothing()).is_empty());
    let f = Findings { keeps_highlights: true, adds_depth: true, some_skin: true, much_skin: true, skin_kept: true, ..nothing() };
    assert_eq!(reasons(f), [Reason::NaturalSkinTones, Reason::AddsDepth]);
    let f = Findings { keeps_shadows: true, gray: true, ..nothing() };
    assert_eq!(reasons(f), [Reason::BlackAndWhite, Reason::KeepsShadows]);
    // Little skin is never claimed.
    let f = Findings { some_skin: true, skin_kept: true, ..nothing() };
    assert!(reasons(f).is_empty());
    let f = Findings { keeps_shadows: true, livens: true, brightens: true, ..nothing() };
    assert_eq!(reasons(f), [Reason::BrightensDarkPhoto, Reason::LivensColours]);
}

#[test]
fn reasons_have_words() {
    let words: Vec<&str> = [
        Reason::BlackAndWhite,
        Reason::NaturalSkinTones,
        Reason::BrightensDarkPhoto,
        Reason::AddsDepth,
        Reason::LivensColours,
        Reason::KeepsHighlights,
        Reason::KeepsShadows,
    ]
    .iter()
    .map(|r| r.label())
    .collect();
    assert_eq!(
        words,
        [
            "black & white",
            "natural skin tones",
            "brightens a dark photo",
            "adds depth to a flat photo",
            "livens up muted colours",
            "keeps highlight detail",
            "keeps shadow detail"
        ]
    );
}

#[test]
fn ranking_is_by_score_and_stable() {
    assert_eq!(ranking(&[10, 30, 20, 30]), [1, 3, 2, 0]);
    assert!(ranking(&[]).is_empty());
}

fn candidate(index: usize) -> Candidate {
    Candidate { index, good: true, black_and_white: false }
}

#[test]
fn picks_are_varied() {
    let groups: Vec<String> = ["A", "A", "A", "A", "B"].iter().map(|s| s.to_string()).collect();
    let none = vec![vec![false; 5]; 5];
    let all: Vec<Candidate> = (0..5).map(candidate).collect();
    // No more than three from a group.
    assert_eq!(pick(&all, &groups, &none, COUNT), [0, 1, 2, 4]);
    // Near-duplicates of a pick are left out.
    let mut similar = none.clone();
    similar[1][0] = true;
    similar[0][1] = true;
    assert_eq!(pick(&all, &groups, &similar, COUNT), [0, 2, 3, 4]);
    // No more than asked for.
    assert_eq!(pick(&all, &groups, &none, 2), [0, 1]);
    // The list ends where the scores get too low.
    let mut low = all.clone();
    low[1].good = false;
    assert_eq!(pick(&low, &groups, &none, COUNT), [0]);
    // At most two in black and white.
    let apart: Vec<String> = (0..5).map(|i| i.to_string()).collect();
    let gray: Vec<Candidate> = (0..5).map(|i| Candidate { index: i, good: true, black_and_white: i < 4 }).collect();
    assert_eq!(pick(&gray, &apart, &none, COUNT), [0, 1, 4]);
}

#[test]
fn the_grid_is_wide_enough_for_every_preset() {
    assert_eq!(GRID_COLS, 32);
    assert_eq!(COUNT, 12);
}
