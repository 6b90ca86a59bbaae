use synth_pill::font::{measure_text, Font, FontAdvances, TextMeasurement, TextOptions};

// Glyphs ' ' (0x20) to '?' (0x3f), two stored rows of one byte each; glyph n
// has rows [n, 0x80 | n].
const GLYPHS: [u8; 64] = [
    0x00, 0x80, 0x01, 0x81, 0x02, 0x82, 0x03, 0x83, 0x04, 0x84, 0x05, 0x85, 0x06, 0x86, 0x07,
    0x87, 0x08, 0x88, 0x09, 0x89, 0x0a, 0x8a, 0x0b, 0x8b, 0x0c, 0x8c, 0x0d, 0x8d, 0x0e, 0x8e,
    0x0f, 0x8f, 0x10, 0x90, 0x11, 0x91, 0x12, 0x92, 0x13, 0x93, 0x14, 0x94, 0x15, 0x95, 0x16,
    0x96, 0x17, 0x97, 0x18, 0x98, 0x19, 0x99, 0x1a, 0x9a, 0x1b, 0x9b, 0x1c, 0x9c, 0x1d, 0x9d,
    0x1e, 0x9e, 0x1f, 0x9f,
];

const ADVANCES: [u8; 4] = [3, 4, 5, 6];

fn fixed_font() -> Font {
    Font {
        width: 8,
        rows: 2,
        top: 1,
        line_height: 10,
        baseline: 8,
        row_repeat: 1,
        tracking: 1,
        first: 0x20,
        count: 32,
        advances: FontAdvances::Fixed(6),
        data: &GLYPHS,
    }
}

fn options(scale: u8) -> TextOptions {
    TextOptions { black: true, scale }
}

#[test]
fn row_and_glyph_bytes() {
    let mut font = fixed_font();
    assert_eq!(font.row_bytes(), 1);
    assert_eq!(font.glyph_bytes(), 2);
    font.width = 9;
    font.rows = 3;
    assert_eq!(font.row_bytes(), 2);
    assert_eq!(font.glyph_bytes(), 6);
    font.width = 0;
    assert_eq!(font.row_bytes(), 0);
    assert_eq!(font.glyph_bytes(), 0);
}

#[test]
fn glyph_index_covers_the_range() {
    let font = fixed_font();
    assert_eq!(font.glyph_index(' '), Some(0));
    assert_eq!(font.glyph_index('!'), Some(1));
    assert_eq!(font.glyph_index('?'), Some(31));
    assert_eq!(font.glyph_index('@'), None);
    assert_eq!(font.glyph_index('\u{1f}'), None);
    assert_eq!(font.glyph_index('\u{1F600}'), None);
}

#[test]
fn glyph_data_slices_the_bitmap() {
    let font = fixed_font();
    assert_eq!(font.glyph_data(0), Some(&GLYPHS[0..2]));
    assert_eq!(font.glyph_data(5), Some(&[0x05u8, 0x85][..]));
    assert_eq!(font.glyph_data(31), Some(&[0x1fu8, 0x9f][..]));
    assert_eq!(font.glyph_data(32), None);
    let mut short = fixed_font();
    short.data = &GLYPHS[0..9];
    assert_eq!(short.glyph_data(3), Some(&[0x03u8, 0x83][..]));
    assert_eq!(short.glyph_data(4), None);
}

#[test]
fn glyph_advance_fixed_and_variable() {
    let font = fixed_font();
    assert_eq!(font.glyph_advance(0), Some(6));
    assert_eq!(font.glyph_advance(31), Some(6));
    assert_eq!(font.glyph_advance(32), None);
    let mut variable = fixed_font();
    variable.advances = FontAdvances::Variable(&ADVANCES);
    assert_eq!(variable.glyph_advance(0), Some(3));
    assert_eq!(variable.glyph_advance(3), Some(6));
    assert_eq!(variable.glyph_advance(4), None);
    assert_eq!(variable.glyph_advance(40), None);
}

#[test]
fn default_options() {
    let o = TextOptions::default();
    assert!(o.black);
    assert_eq!(o.scale, 1);
}

#[test]
fn empty_text_has_no_box() {
    let font = fixed_font();
    let none = TextMeasurement { baseline_offset: 0, width: 0, height: 0 };
    assert_eq!(measure_text(&font, "", options(1)), none);
    assert_eq!(measure_text(&font, "\r\r", options(3)), none);
}

#[test]
fn measure_applies_tracking_between_glyphs() {
    let font = fixed_font();
    let m = measure_text(&font, "!!", options(1));
    assert_eq!(m, TextMeasurement { baseline_offset: 8, width: 13, height: 10 });
    let one = measure_text(&font, "!", options(1));
    assert_eq!(one, TextMeasurement { baseline_offset: 8, width: 6, height: 10 });
}

#[test]
fn measure_scales() {
    let font = fixed_font();
    let m = measure_text(&font, "!!", options(2));
    assert_eq!(m, TextMeasurement { baseline_offset: 16, width: 26, height: 20 });
}

#[test]
fn scale_zero_measures_as_scale_one() {
    let font = fixed_font();
    assert_eq!(measure_text(&font, "!#\n$", options(0)), measure_text(&font, "!#\n$", options(1)));
}

#[test]
fn newlines_count_lines_and_reset_the_pen() {
    let font = fixed_font();
    let m = measure_text(&font, "!!\n!\n!", options(1));
    assert_eq!(m, TextMeasurement { baseline_offset: 8, width: 13, height: 30 });
    let m = measure_text(&font, "\n", options(1));
    assert_eq!(m, TextMeasurement { baseline_offset: 8, width: 0, height: 20 });
}

#[test]
fn carriage_returns_are_ignored() {
    let font = fixed_font();
    assert_eq!(measure_text(&font, "!\r\n!!\r", options(1)), measure_text(&font, "!\n!!", options(1)));
}

#[test]
fn tab_is_four_spaces() {
    let font = fixed_font();
    assert_eq!(measure_text(&font, "!\t!", options(1)), measure_text(&font, "!    !", options(1)));
    assert_eq!(
        measure_text(&font, "\t", options(1)),
        TextMeasurement { baseline_offset: 8, width: 27, height: 10 }
    );
}

#[test]
fn missing_glyph_falls_back_to_question_mark() {
    let font = fixed_font();
    assert_eq!(measure_text(&font, "AB", options(1)), measure_text(&font, "??", options(1)));
    let mut no_question = fixed_font();
    no_question.count = 31;
    // '?' is gone: the fallback is ' '.
    assert_eq!(measure_text(&no_question, "A", options(1)).width, 6);
    let mut nothing = fixed_font();
    nothing.first = 0x41;
    nothing.count = 1;
    // Neither '?' nor ' ' exists: the character is skipped.
    assert_eq!(
        measure_text(&nothing, "z", options(1)),
        TextMeasurement { baseline_offset: 8, width: 0, height: 10 }
    );
}

#[test]
fn variable_advances_and_negative_tracking() {
    let mut font = fixed_font();
    font.advances = FontAdvances::Variable(&ADVANCES);
    font.tracking = -2;
    // ' ' advances 3, '!' 4, '"' 5: 3 - 2 + 4 - 2 + 5 = 8
    assert_eq!(measure_text(&font, " !\"", options(1)).width, 8);
    // '$' has no advance entry and moves the pen by nothing but tracking.
    assert_eq!(measure_text(&font, "!$", options(1)).width, 4);
}

#[test]
fn width_saturates() {
    let mut font = fixed_font();
    font.advances = FontAdvances::Fixed(255);
    font.tracking = 0;
    let text: String = std::iter::repeat('!').take(300).collect();
    assert_eq!(measure_text(&font, &text, options(1)).width, u16::MAX);
}
