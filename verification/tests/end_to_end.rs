use palettize::aggregate::{instructions, materials, strip_level_name, tally};
use palettize::engine::{quantize, ConfigError, Image};
use palettize::palette::build_palette;
use palettize::pipeline::{convert, RunError};

fn rows_stone() -> Vec<Vec<String>> {
    vec![vec!["128".to_string(), "128".to_string(), "128".to_string(), "Stone".to_string()]]
}

fn rgb_2x2() -> Image {
    let buf = vec![
        255, 0, 0, // (0,0) red
        0, 255, 0, // (1,0) green
        0, 0, 255, // (0,1) blue
        255, 255, 255, // (1,1) white
    ];
    Image::new(2, 2, 3, buf).unwrap()
}

fn rgba_2x2(alpha_out: bool) -> Image {
    let a1 = if alpha_out { 0 } else { 255 };
    let buf = vec![
        255, 0, 0, 255, // (0,0)
        9, 9, 9, a1, // (1,0), transparent when alpha_out
        0, 0, 255, 255, // (0,1)
        255, 255, 255, 255, // (1,1)
    ];
    Image::new(2, 2, 4, buf).unwrap()
}

#[test]
fn single_material_non_staircase_end_to_end() {
    let mut img = rgb_2x2();
    let (instr, mats) = convert(&mut img, &rows_stone(), false, false, false, &vec![]).unwrap();
    // Every pixel quantizes to the single LEVEL variant of (128,128,128).
    for p in 0..4 {
        assert_eq!(&img.buf[3 * p..3 * p + 3], &[110, 110, 110]);
    }
    assert_eq!(mats.len(), 1);
    let line = format!("{}x {}", mats[0].0, mats[0].1);
    assert_eq!(line, "4x Stone");
    assert_eq!(
        instr,
        vec![
            "Stone LEVEL".to_string(),
            "Stone LEVEL".to_string(),
            "return to bottom".to_string(),
            "Stone LEVEL".to_string(),
            "Stone LEVEL".to_string(),
            "finished!".to_string(),
        ]
    );
}

#[test]
fn single_material_staircase_end_to_end() {
    let rows = rows_stone();
    let palette = build_palette(&rows, true, false, &vec![]).unwrap();
    assert_eq!(palette.entries.len(), 3);
    assert_eq!(palette.entries[0].name, "Stone LEVEL");
    assert_eq!(palette.entries[0].color.r, 110);
    assert_eq!(palette.entries[1].name, "Stone UP");
    assert_eq!(palette.entries[1].color.r, 128);
    assert_eq!(palette.entries[2].name, "Stone DOWN");
    assert_eq!(palette.entries[2].color.r, 91);

    let mut img = rgb_2x2();
    let (_instr, mats) = convert(&mut img, &rows, true, false, false, &vec![]).unwrap();
    // Each pixel lands on whichever variant is perceptually closest, but the
    // tally folds all three variants into the one Stone bucket.
    assert_eq!(mats.len(), 1);
    assert_eq!(mats[0].0, 4);
    assert_eq!(mats[0].1, "Stone");
    // Every output pixel is one of the three variant grays.
    for p in 0..4 {
        let px = [img.buf[3 * p], img.buf[3 * p + 1], img.buf[3 * p + 2]];
        assert!(px == [110, 110, 110] || px == [128, 128, 128] || px == [91, 91, 91]);
    }
}

#[test]
fn transparent_pixel_skipped() {
    let rows = rows_stone();
    let palette = build_palette(&rows, false, false, &vec![]).unwrap();

    let mut opaque = rgba_2x2(false);
    let ch_opaque = quantize(&mut opaque, &palette.entries, false);
    let instr_opaque = instructions(&ch_opaque, &palette.entries, 2, 2);

    let mut img = rgba_2x2(true);
    let ch = quantize(&mut img, &palette.entries, false);
    let instr = instructions(&ch, &palette.entries, 2, 2);

    // One fewer instruction line than the fully opaque run.
    assert_eq!(instr.len() + 1, instr_opaque.len());
    assert_eq!(ch, vec![Some(0), None, Some(0), Some(0)]);
    // The transparent pixel keeps its original channels.
    assert_eq!(&img.buf[4..8], &[9, 9, 9, 0]);
    // Processed pixels take the palette color and keep their alpha.
    assert_eq!(&img.buf[0..4], &[110, 110, 110, 255]);
}

#[test]
fn tally_counts_match_processed_pixels() {
    let rows = rows_stone();
    let palette = build_palette(&rows, false, false, &vec![]).unwrap();
    let mut img = rgba_2x2(true);
    let ch = quantize(&mut img, &palette.entries, false);
    let counts = tally(&ch, palette.entries.len(), false);
    let total: usize = counts.iter().sum();
    let processed = ch.iter().filter(|c| c.is_some()).count();
    assert_eq!(total, processed);
    assert_eq!(total, 3);
}

#[test]
fn materials_skip_empty_buckets() {
    let rows = vec![
        vec!["200".to_string(), "0".to_string(), "0".to_string(), "Red".to_string()],
        vec!["0".to_string(), "0".to_string(), "200".to_string(), "Blue".to_string()],
    ];
    let palette = build_palette(&rows, false, false, &vec![]).unwrap();
    // A solid red image never uses the Blue bucket.
    let buf = vec![250, 10, 10, 250, 10, 10];
    let mut img = Image::new(2, 1, 3, buf).unwrap();
    let ch = quantize(&mut img, &palette.entries, false);
    let counts = tally(&ch, palette.entries.len(), false);
    let mats = materials(&counts, &palette.entries, false);
    assert_eq!(mats.len(), 1);
    assert_eq!(mats[0].0, 2);
    assert_eq!(mats[0].1, "Red");
}

#[test]
fn dithering_keeps_channels_in_range_end_to_end() {
    // A palette far from the pixels produces the largest errors; with
    // dithering on, every byte of the output is still a valid channel.
    let rows = vec![vec!["0".to_string(), "0".to_string(), "0".to_string(), "Ink".to_string()]];
    let buf = vec![255u8; 27];
    let mut img = Image::new(3, 3, 3, buf).unwrap();
    let (_instr, mats) = convert(&mut img, &rows, false, true, false, &vec![]).unwrap();
    assert_eq!(img.buf.len(), 27);
    assert_eq!(mats[0].0, 9);
    // The single candidate is (0,0,0) darkened, i.e. still (0,0,0).
    for p in 0..9 {
        assert_eq!(&img.buf[3 * p..3 * p + 3], &[0, 0, 0]);
    }
}

#[test]
fn empty_palette_is_a_config_error() {
    let mut img = rgb_2x2();
    let before = img.buf.clone();
    let err = convert(&mut img, &vec![], false, false, false, &vec![]).unwrap_err();
    assert_eq!(err, RunError::Config(ConfigError::EmptyPalette));
    assert_eq!(img.buf, before);
}

#[test]
fn masked_out_everything_is_a_config_error() {
    let mut img = rgb_2x2();
    let err = convert(
        &mut img,
        &rows_stone(),
        false,
        false,
        true,
        &vec!["Granite".to_string()],
    )
    .unwrap_err();
    assert_eq!(err, RunError::Config(ConfigError::EmptyPalette));
}

#[test]
fn malformed_rows_are_a_load_error() {
    let mut img = rgb_2x2();
    let rows = vec![vec!["300".to_string(), "0".to_string(), "0".to_string(), "Hot".to_string()]];
    let err = convert(&mut img, &rows, false, false, false, &vec![]).unwrap_err();
    assert!(matches!(err, RunError::Load(_)));
}

#[test]
fn strip_level_removes_trailing_suffixes() {
    assert_eq!(strip_level_name(&"Stone LEVEL".to_string()), "Stone");
    assert_eq!(strip_level_name(&"Stone LEVEL LEVEL".to_string()), "Stone");
    assert_eq!(strip_level_name(&"Stone UP".to_string()), "Stone UP");
    assert_eq!(strip_level_name(&"LEVEL".to_string()), "LEVEL");
    assert_eq!(strip_level_name(&" LEVEL".to_string()), "");
}
