use synth_pill::controls::{angle, ANGLE_MAX};
use synth_pill::font::{draw_text, Font, FontAdvances, MaskOp, TextOptions, TextTarget};
use synth_pill::ls027b4dh01::{
    SharpDisplayDriver, SHARP_LINE_BYTES, SHARP_LINE_FRAME_BYTES, SHARP_ROWS,
};
use synth_pill::mask::blend_mask_into_row;

fn frame(mode: u8, line: usize, data: &[u8]) -> [u8; SHARP_LINE_FRAME_BYTES] {
    let mut f = [0u8; SHARP_LINE_FRAME_BYTES];
    f[0] = mode;
    f[1] = (line + 1) as u8;
    f[2..2 + SHARP_LINE_BYTES].copy_from_slice(data);
    f
}

fn white_line() -> [u8; SHARP_LINE_BYTES] {
    [0xff; SHARP_LINE_BYTES]
}

#[test]
fn blend_paints_covered_bits_black() {
    let mut row = [0xffu8, 0xff];
    assert!(blend_mask_into_row(&mut row, 3, &[0b1010_0101], 8, MaskOp::PaintBlack));
    assert_eq!(row, [0xd7, 0xfa]);
}

#[test]
fn blend_paints_covered_bits_white() {
    let mut row = [0x00u8, 0x00];
    assert!(blend_mask_into_row(&mut row, 3, &[0b1010_0101], 8, MaskOp::PaintWhite));
    assert_eq!(row, [0x28, 0x05]);
}

#[test]
fn blend_clips_left_and_right() {
    let mut row = [0xffu8, 0xff];
    assert!(blend_mask_into_row(&mut row, -4, &[0xff], 8, MaskOp::PaintBlack));
    assert_eq!(row, [0xf0, 0xff]);
    let mut row = [0xffu8, 0xff];
    assert!(blend_mask_into_row(&mut row, 14, &[0xff], 8, MaskOp::PaintBlack));
    assert_eq!(row, [0xff, 0x3f]);
    let mut row = [0xffu8, 0xff];
    assert!(!blend_mask_into_row(&mut row, 16, &[0xff], 8, MaskOp::PaintBlack));
    assert!(!blend_mask_into_row(&mut row, -8, &[0xff], 8, MaskOp::PaintBlack));
    assert_eq!(row, [0xff, 0xff]);
}

#[test]
fn blend_width_is_limited_by_the_mask_and_the_argument() {
    let mut row = [0xffu8, 0xff];
    assert!(blend_mask_into_row(&mut row, 0, &[0xff], 100, MaskOp::PaintBlack));
    assert_eq!(row, [0x00, 0xff]);
    let mut row = [0xffu8, 0xff];
    assert!(blend_mask_into_row(&mut row, 2, &[0xff, 0xff], 3, MaskOp::PaintBlack));
    assert_eq!(row, [0xe3, 0xff]);
    let mut row = [0xffu8, 0xff];
    assert!(!blend_mask_into_row(&mut row, 0, &[0xff], 0, MaskOp::PaintBlack));
    assert!(!blend_mask_into_row(&mut row, 0, &[], 8, MaskOp::PaintBlack));
    assert!(!blend_mask_into_row(&mut [], 0, &[0xff], 8, MaskOp::PaintBlack));
}

#[test]
fn blend_reports_no_change() {
    let mut row = [0xffu8, 0xff];
    assert!(!blend_mask_into_row(&mut row, 5, &[0xff, 0x01], 9, MaskOp::PaintWhite));
    assert_eq!(row, [0xff, 0xff]);
}

#[test]
fn new_display_is_white_and_clean() {
    let mut d = SharpDisplayDriver::new();
    assert_eq!(d.next_dirty_bytes(), None);
    assert_eq!(d.vcom_cmd(), [0, 0]);
}

#[test]
fn set_pixel_marks_the_line_and_reads_back() {
    let mut d = SharpDisplayDriver::new();
    d.set_pixel(10, 5, true);
    let mut line = white_line();
    line[1] = 0xfb;
    assert_eq!(d.next_dirty_bytes(), Some(frame(1, 5, &line)));
    assert_eq!(d.next_dirty_bytes(), None);
    // Setting the same colour again changes nothing and dirties nothing.
    d.set_pixel(10, 5, true);
    assert_eq!(d.next_dirty_bytes(), None);
    d.set_pixel(10, 5, false);
    assert_eq!(d.next_dirty_bytes(), Some(frame(1, 5, &white_line())));
}

#[test]
fn set_byte_changes_nothing() {
    let mut d = SharpDisplayDriver::new();
    d.set_byte(3, 4, 0x00);
    assert_eq!(d.next_dirty_bytes(), None);
}

#[test]
fn dirty_scan_hands_out_lines_in_order() {
    let mut d = SharpDisplayDriver::new();
    d.set_pixel(0, 7, true);
    d.set_pixel(0, 2, true);
    d.set_pixel(399, 239, true);
    let mut first = white_line();
    first[0] = 0xfe;
    let mut last = white_line();
    last[SHARP_LINE_BYTES - 1] = 0x7f;
    assert_eq!(d.next_dirty_bytes(), Some(frame(1, 2, &first)));
    // A line dirtied behind the scan waits for the next pass.
    d.set_pixel(1, 0, true);
    assert_eq!(d.next_dirty_bytes(), Some(frame(1, 7, &first)));
    assert_eq!(d.next_dirty_bytes(), Some(frame(1, 239, &last)));
    assert_eq!(d.next_dirty_bytes(), None);
    let mut zero = white_line();
    zero[0] = 0xfd;
    assert_eq!(d.next_dirty_bytes(), Some(frame(1, 0, &zero)));
    assert_eq!(d.next_dirty_bytes(), None);
}

#[test]
fn fullscreen_sends_every_line() {
    let mut d = SharpDisplayDriver::new();
    let image: Vec<u8> = (0..SHARP_ROWS * SHARP_LINE_BYTES).map(|i| (i % 251) as u8).collect();
    d.set_fullscreen(&image);
    d.swap_vcom();
    for y in 0..SHARP_ROWS {
        let data = &image[y * SHARP_LINE_BYTES..(y + 1) * SHARP_LINE_BYTES];
        assert_eq!(d.next_dirty_bytes(), Some(frame(3, y, data)));
    }
    assert_eq!(d.next_dirty_bytes(), None);
}

#[test]
fn vcom_commands_follow_the_level() {
    let mut d = SharpDisplayDriver::new();
    assert_eq!(d.vcom_cmd(), [0, 0]);
    d.swap_vcom();
    assert_eq!(d.vcom_cmd(), [2, 0]);
    assert_eq!(d.all_clear_cmd(), [6, 0]);
    d.swap_vcom();
    assert_eq!(d.vcom_cmd(), [0, 0]);
    assert_eq!(d.all_clear_cmd(), [4, 0]);
}

#[test]
fn all_clear_whitens_and_cleans() {
    let mut d = SharpDisplayDriver::new();
    d.set_pixel(3, 3, true);
    d.set_pixel(4, 9, true);
    assert_eq!(d.all_clear_cmd(), [4, 0]);
    assert_eq!(d.next_dirty_bytes(), None);
    d.set_pixel(8, 9, false);
    assert_eq!(d.next_dirty_bytes(), None);
}

#[test]
fn target_blend_clips_rows() {
    let mut d = SharpDisplayDriver::new();
    d.blend_mask_row(0, -1, &[0xff], 8, MaskOp::PaintBlack);
    d.blend_mask_row(0, SHARP_ROWS as i32, &[0xff], 8, MaskOp::PaintBlack);
    assert_eq!(d.next_dirty_bytes(), None);
    d.blend_mask_row(396, 4, &[0xff], 8, MaskOp::PaintBlack);
    let mut line = white_line();
    line[SHARP_LINE_BYTES - 1] = 0x0f;
    assert_eq!(d.next_dirty_bytes(), Some(frame(1, 4, &line)));
}

const GLYPHS: [u8; 4] = [
    // ' ': blank
    0x00, 0x00, // '!': a left column and a full bottom row
    0x01, 0x0f,
];

fn tiny_font() -> Font {
    Font {
        width: 4,
        rows: 2,
        top: 1,
        line_height: 4,
        baseline: 3,
        row_repeat: 1,
        tracking: 1,
        first: 0x20,
        count: 2,
        advances: FontAdvances::Fixed(4),
        data: &GLYPHS,
    }
}

fn drain(d: &mut SharpDisplayDriver) -> Vec<[u8; SHARP_LINE_FRAME_BYTES]> {
    let mut out = Vec::new();
    while let Some(f) = d.next_dirty_bytes() {
        out.push(f);
    }
    out
}

#[test]
fn draw_text_paints_glyph_rows() {
    let mut d = SharpDisplayDriver::new();
    draw_text(&mut d, 0, 0, &tiny_font(), "!!", TextOptions::default());
    let mut row1 = white_line();
    // pixel 0 and pixel 5 (second glyph at 4 + tracking 1)
    row1[0] = !0x21;
    let mut row2 = white_line();
    // pixels 0..4 and 5..9
    row2[0] = !0xef;
    row2[1] = !0x01;
    assert_eq!(drain(&mut d), vec![frame(1, 1, &row1), frame(1, 2, &row2)]);
}

#[test]
fn draw_text_scales_and_repeats_rows() {
    let mut d = SharpDisplayDriver::new();
    draw_text(&mut d, 0, 0, &tiny_font(), "!", TextOptions { black: true, scale: 2 });
    let mut top = white_line();
    top[0] = !0x03;
    let mut bottom = white_line();
    bottom[0] = !0xff;
    assert_eq!(
        drain(&mut d),
        vec![frame(1, 2, &top), frame(1, 3, &top), frame(1, 4, &bottom), frame(1, 5, &bottom)]
    );
}

#[test]
fn draw_text_white_on_black_and_clipped() {
    let mut d = SharpDisplayDriver::new();
    let black: Vec<u8> = vec![0u8; SHARP_ROWS * SHARP_LINE_BYTES];
    d.set_fullscreen(&black);
    drain(&mut d);
    draw_text(&mut d, -2, 237, &tiny_font(), "!", TextOptions { black: false, scale: 1 });
    let mut last = [0u8; SHARP_LINE_BYTES];
    last[0] = 0x03;
    // The first stored row (a pixel at -2) is off the left edge.
    assert_eq!(drain(&mut d), vec![frame(1, 239, &last)]);
}

#[test]
fn draw_text_shifts_with_the_origin() {
    let mut a = SharpDisplayDriver::new();
    draw_text(&mut a, 0, 0, &tiny_font(), "! !", TextOptions::default());
    let mut b = SharpDisplayDriver::new();
    draw_text(&mut b, 8, 0, &tiny_font(), "! !", TextOptions::default());
    let fa = drain(&mut a);
    let fb = drain(&mut b);
    assert_eq!(fa.len(), fb.len());
    for (x, y) in fa.iter().zip(fb.iter()) {
        assert_eq!(x[1], y[1]);
        assert_eq!(x[2], y[3]);
        assert_eq!(x[3], y[4]);
        assert_eq!(y[2], 0xff);
    }
}

#[test]
fn angle_combines_the_wipers() {
    assert_eq!(angle(0, 0), 0);
    assert_eq!(angle(0, 1234), 1234);
    assert_eq!(angle(32767, 65535), 65535);
    assert_eq!(angle(32768, 65535), 65536);
    assert_eq!(angle(65535, 0), ANGLE_MAX - 1);
    assert_eq!(ANGLE_MAX, 131072);
}
