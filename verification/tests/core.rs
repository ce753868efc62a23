use palettize::color::{distance, Color};
use palettize::engine::{diffuse_channel, Image, ImageError};
use palettize::palette::{build_palette, parse_channel, Candidate, Channel, LoadError};
use palettize::resolve::resolve;

fn c(r: u8, g: u8, b: u8) -> Color {
    Color { r, g, b }
}

fn cand(r: u8, g: u8, b: u8, name: &str) -> Candidate {
    Candidate { color: c(r, g, b), name: name.to_string() }
}

fn row(fields: &[&str]) -> Vec<String> {
    fields.iter().map(|f| f.to_string()).collect()
}

#[test]
fn distance_is_symmetric() {
    let a = c(255, 0, 0);
    let b = c(0, 128, 255);
    assert_eq!(distance(a, b), distance(b, a));
    let d = c(17, 99, 202);
    let e = c(18, 99, 202);
    assert_eq!(distance(d, e), distance(e, d));
}

#[test]
fn distance_to_self_is_zero() {
    for &col in &[c(0, 0, 0), c(255, 255, 255), c(12, 200, 7)] {
        assert_eq!(distance(col, col), 0);
    }
}

#[test]
fn distance_distinguishes_far_from_near() {
    let pixel = c(250, 10, 10);
    let near = c(240, 20, 20);
    let far = c(10, 10, 250);
    assert!(distance(pixel, near) < distance(pixel, far));
}

#[test]
fn resolve_returns_index_in_range_and_matching_color() {
    let entries = vec![
        cand(200, 0, 0, "Red"),
        cand(0, 200, 0, "Green"),
        cand(0, 0, 200, "Blue"),
    ];
    let (col, idx) = resolve(c(10, 190, 15), &entries);
    assert!(idx < entries.len());
    assert_eq!(col, entries[idx].color);
    assert_eq!(idx, 1);
}

#[test]
fn resolve_exact_match_wins() {
    let entries = vec![
        cand(200, 0, 0, "Red"),
        cand(0, 200, 0, "Green"),
        cand(0, 0, 200, "Blue"),
    ];
    let (col, idx) = resolve(c(0, 0, 200), &entries);
    assert_eq!(idx, 2);
    assert_eq!(col, c(0, 0, 200));
}

#[test]
fn resolve_tie_break_keeps_lowest_index() {
    let entries = vec![
        cand(50, 60, 70, "First"),
        cand(50, 60, 70, "Second"),
        cand(50, 60, 70, "Third"),
    ];
    let (col, idx) = resolve(c(51, 61, 71), &entries);
    assert_eq!(idx, 0);
    assert_eq!(col, c(50, 60, 70));
}

#[test]
fn parse_channel_accepts_valid_values() {
    assert_eq!(parse_channel("0"), Some(0));
    assert_eq!(parse_channel("255"), Some(255));
    assert_eq!(parse_channel("+12"), Some(12));
    assert_eq!(parse_channel("000128"), Some(128));
}

#[test]
fn parse_channel_rejects_invalid_values() {
    assert_eq!(parse_channel(""), None);
    assert_eq!(parse_channel("+"), None);
    assert_eq!(parse_channel("256"), None);
    assert_eq!(parse_channel("1000"), None);
    assert_eq!(parse_channel("-1"), None);
    assert_eq!(parse_channel("12a"), None);
    assert_eq!(parse_channel(" 12"), None);
}

#[test]
fn build_palette_single_variant_darkens_by_86_percent() {
    let rows = vec![row(&["128", "128", "128", "Stone"])];
    let p = build_palette(&rows, false, false, &vec![]).unwrap();
    assert_eq!(p.entries.len(), 1);
    assert_eq!(p.entries[0].color, c(110, 110, 110));
    assert_eq!(p.entries[0].name, "Stone LEVEL");
}

#[test]
fn build_palette_staircase_expands_to_three_variants() {
    let rows = vec![row(&["128", "128", "128", "Stone"]), row(&["10", "20", "30", "Dirt"])];
    let p = build_palette(&rows, true, false, &vec![]).unwrap();
    assert_eq!(p.entries.len(), 6);
    assert_eq!(p.entries[0].color, c(110, 110, 110));
    assert_eq!(p.entries[0].name, "Stone LEVEL");
    assert_eq!(p.entries[1].color, c(128, 128, 128));
    assert_eq!(p.entries[1].name, "Stone UP");
    assert_eq!(p.entries[2].color, c(91, 91, 91));
    assert_eq!(p.entries[2].name, "Stone DOWN");
    assert_eq!(p.entries[3].name, "Dirt LEVEL");
    assert_eq!(p.entries[4].name, "Dirt UP");
    assert_eq!(p.entries[5].name, "Dirt DOWN");
    for i in 0..6 {
        assert_eq!(i / 3, if i < 3 { 0 } else { 1 });
    }
}

#[test]
fn build_palette_mask_filters_rows() {
    let rows = vec![row(&["1", "2", "3", "Dirt"]), row(&["4", "5", "6", "Stone"])];
    let mask = vec!["Stone".to_string()];
    let p = build_palette(&rows, false, true, &mask).unwrap();
    assert_eq!(p.entries.len(), 1);
    assert_eq!(p.entries[0].name, "Stone LEVEL");
}

#[test]
fn build_palette_mask_skips_malformed_filtered_rows() {
    let rows = vec![row(&["bad", "2", "3", "Dirt"]), row(&["4", "5", "6", "Stone"])];
    let mask = vec!["Stone".to_string()];
    let p = build_palette(&rows, false, true, &mask).unwrap();
    assert_eq!(p.entries.len(), 1);
}

#[test]
fn build_palette_reports_missing_name() {
    let rows = vec![row(&["1", "2", "3"])];
    let err = build_palette(&rows, false, false, &vec![]).unwrap_err();
    assert_eq!(err, LoadError::MissingName { line: 1 });
}

#[test]
fn build_palette_reports_invalid_channels_in_order() {
    let rows = vec![
        row(&["0", "0", "0", "Good"]),
        row(&["256", "x", "0", "Bad"]),
    ];
    let err = build_palette(&rows, false, false, &vec![]).unwrap_err();
    assert_eq!(err, LoadError::InvalidChannel { line: 2, channel: Channel::Red });
    let rows2 = vec![row(&["0", "green", "0", "Bad"])];
    let err2 = build_palette(&rows2, false, false, &vec![]).unwrap_err();
    assert_eq!(err2, LoadError::InvalidChannel { line: 1, channel: Channel::Green });
    let rows3 = vec![row(&["0", "1", "2.5", "Bad"])];
    let err3 = build_palette(&rows3, false, false, &vec![]).unwrap_err();
    assert_eq!(err3, LoadError::InvalidChannel { line: 1, channel: Channel::Blue });
}

#[test]
fn diffusion_saturates_at_both_ends() {
    // Full negative error onto a black channel: stays at 0.
    assert_eq!(diffuse_channel(0, 0, 255, 7), 0);
    // Full positive error onto a white channel: stays at 255.
    assert_eq!(diffuse_channel(255, 255, 0, 7), 255);
    // Positive error pushing past white saturates.
    assert_eq!(diffuse_channel(200, 255, 0, 7), 255);
    // Negative error pushing below black saturates.
    assert_eq!(diffuse_channel(50, 0, 255, 7), 0);
}

#[test]
fn diffusion_adds_rounded_weighted_error() {
    // err = 100, weight 7/16: round(700/16) = round(43.75) = 44.
    assert_eq!(diffuse_channel(100, 200, 100, 7), 144);
    // err = -100, weight 5/16: round(-31.25) = -31.
    assert_eq!(diffuse_channel(100, 100, 200, 5), 69);
    // err = 8, weight 1/16: round(0.5) rounds away from zero to 1.
    assert_eq!(diffuse_channel(10, 18, 10, 1), 11);
}

#[test]
fn image_new_rejects_bad_inputs() {
    assert_eq!(Image::new(2, 2, 5, vec![0; 20]).unwrap_err(), ImageError::UnsupportedDepth);
    assert_eq!(Image::new(2, 2, 3, vec![0; 11]).unwrap_err(), ImageError::SizeMismatch);
    let img = Image::new(2, 2, 4, vec![0; 16]).unwrap();
    assert_eq!(img.width, 2);
    assert_eq!(img.bpp, 4);
}
