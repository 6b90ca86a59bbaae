//! Text layout: where each glyph of a string goes, and the box the string
//! occupies. Characters are laid out left to right; '\r' is ignored, '\n'
//! starts a new line, '\t' is four spaces, and a character the font lacks is
//! drawn as '?' (or ' ', or skipped when neither exists).
use vstd::prelude::*;

use crate::font::Font;

verus! {

/// How text is drawn.
#[derive(Clone, Copy)]
pub struct TextOptions {
    /// True paints set mask bits black; false paints them white.
    pub black: bool,
    /// Integer scale. Zero is treated as one.
    pub scale: u8,
}

impl Default for TextOptions {
    fn default() -> (r: Self)
        ensures
            r.black,
            r.scale == 1,
    {
        TextOptions { black: true, scale: 1 }
    }
}

/// The box that a string occupies.
#[derive(Clone, Copy, Debug, Eq, PartialEq)]
pub struct TextMeasurement {
    /// Distance from the top of the first line box to its baseline.
    pub baseline_offset: u16,
    /// Largest logical line advance, including inter-glyph tracking.
    pub width: u16,
    /// Total height of all line boxes. Empty text has zero height.
    pub height: u16,
}

/// A glyph placed by the layout: its index in the font and the top-left
/// corner of its line box cell.
#[derive(Clone, Copy, Debug, PartialEq, Eq)]
pub struct PlacedGlyph {
    pub index: usize,
    pub x: i32,
    pub y: i32,
}

/// The layout after some prefix of the text.
pub struct LayoutState {
    pub cursor_x: i32,
    pub line_y: i32,
    pub first_on_line: bool,
    pub maximum_width: i32,
    pub line_count: i32,
    pub glyphs: Seq<PlacedGlyph>,
}

/// `v` clamped to the range of `i32`.
pub open spec fn sat_i32(v: int) -> i32 {
    if v < i32::MIN {
        i32::MIN
    } else if v > i32::MAX {
        i32::MAX
    } else {
        v as i32
    }
}

/// `v` clamped to the range of `u16`.
pub open spec fn sat_u16(v: int) -> u16 {
    if v < 0 {
        0
    } else if v > u16::MAX {
        u16::MAX
    } else {
        v as u16
    }
}

pub open spec fn max_i32(a: i32, b: i32) -> i32 {
    if a >= b {
        a
    } else {
        b
    }
}

/// The scale actually used: zero counts as one.
pub open spec fn effective_scale(options: TextOptions) -> int {
    if options.scale == 0 {
        1
    } else {
        options.scale as int
    }
}

/// Vertical distance between consecutive lines.
pub open spec fn line_advance(font: &Font, scale: int) -> int {
    font.line_height * scale
}

/// The layout before any character, with the first line at `origin_y`.
pub open spec fn layout_start(origin_y: i32) -> LayoutState {
    LayoutState {
        cursor_x: 0,
        line_y: origin_y,
        first_on_line: true,
        maximum_width: 0,
        line_count: 0,
        glyphs: Seq::empty(),
    }
}

/// Places the glyph for `ch` at the pen: tracking goes before every glyph but
/// the first of a line, then the pen moves by the glyph's advance. A
/// character with no glyph and no fallback changes nothing.
pub open spec fn place_glyph(
    font: &Font,
    scale: int,
    origin_x: i32,
    st: LayoutState,
    ch: char,
) -> LayoutState {
    match font.spec_resolve_glyph(ch) {
        None => st,
        Some(index) => {
            let pen = if st.first_on_line {
                st.cursor_x
            } else {
                sat_i32(st.cursor_x + font.tracking * scale)
            };
            let advance = match font.spec_glyph_advance(index) {
                Some(a) => a as int,
                None => 0,
            };
            let next = sat_i32(pen + advance * scale);
            LayoutState {
                cursor_x: next,
                line_y: st.line_y,
                first_on_line: false,
                maximum_width: max_i32(st.maximum_width, next),
                line_count: st.line_count,
                glyphs: st.glyphs.push(
                    PlacedGlyph { index, x: sat_i32(origin_x + pen), y: st.line_y },
                ),
            }
        },
    }
}

/// The layout after one more character.
pub open spec fn layout_step(
    font: &Font,
    scale: int,
    origin_x: i32,
    st: LayoutState,
    ch: char,
) -> LayoutState {
    if ch == '\r' {
        st
    } else {
        let st = if st.line_count == 0 {
            LayoutState { line_count: 1, ..st }
        } else {
            st
        };
        if ch == '\n' {
            LayoutState {
                cursor_x: 0,
                line_y: sat_i32(st.line_y + line_advance(font, scale)),
                first_on_line: true,
                maximum_width: max_i32(st.maximum_width, st.cursor_x),
                line_count: sat_i32(st.line_count + 1),
                glyphs: st.glyphs,
            }
        } else if ch == '\t' {
            place_glyph(
                font,
                scale,
                origin_x,
                place_glyph(
                    font,
                    scale,
                    origin_x,
                    place_glyph(
                        font,
                        scale,
                        origin_x,
                        place_glyph(font, scale, origin_x, st, ' '),
                        ' ',
                    ),
                    ' ',
                ),
                ' ',
            )
        } else {
            place_glyph(font, scale, origin_x, st, ch)
        }
    }
}

/// The layout after the characters of `text`, one after another.
pub open spec fn layout_run(
    font: &Font,
    scale: int,
    origin_x: i32,
    st: LayoutState,
    text: Seq<char>,
) -> LayoutState
    decreases text.len(),
{
    if text.len() == 0 {
        st
    } else {
        layout_step(
            font,
            scale,
            origin_x,
            layout_run(font, scale, origin_x, st, text.drop_last()),
            text.last(),
        )
    }
}

/// The layout of `text` with the top-left of the first line box at
/// `(origin_x, origin_y)`.
pub open spec fn text_layout(
    font: &Font,
    origin_x: i32,
    origin_y: i32,
    text: Seq<char>,
    options: TextOptions,
) -> LayoutState {
    layout_run(font, effective_scale(options), origin_x, layout_start(origin_y), text)
}

/// The box of a finished layout.
pub open spec fn measurement_of(font: &Font, options: TextOptions, st: LayoutState) -> TextMeasurement {
    let scale = effective_scale(options);
    TextMeasurement {
        baseline_offset: if st.line_count == 0 {
            0
        } else {
            (font.baseline * scale) as u16
        },
        width: sat_u16(max_i32(st.maximum_width, st.cursor_x) as int),
        height: sat_u16(sat_i32(st.line_count * line_advance(font, scale)) as int),
    }
}

/// The box of `text`.
pub open spec fn text_measurement(font: &Font, text: Seq<char>, options: TextOptions) -> TextMeasurement {
    measurement_of(font, options, text_layout(font, 0, 0, text, options))
}

pub(crate) fn saturating_add_i32(a: i32, b: i32) -> (r: i32)
    ensures
        r == sat_i32(a + b),
{
    let v = a as i64 + b as i64;
    if v < i32::MIN as i64 {
        i32::MIN
    } else if v > i32::MAX as i64 {
        i32::MAX
    } else {
        v as i32
    }
}

fn saturating_mul_i32(a: i32, b: i32) -> (r: i32)
    ensures
        r == sat_i32(a * b),
{
    assert(i32::MIN * i32::MAX <= a * b <= i32::MIN * i32::MIN) by (nonlinear_arith);
    let v = a as i64 * b as i64;
    if v < i32::MIN as i64 {
        i32::MIN
    } else if v > i32::MAX as i64 {
        i32::MAX
    } else {
        v as i32
    }
}

fn saturating_u16(value: i32) -> (r: u16)
    ensures
        r == sat_u16(value as int),
{
    if value < 0 {
        0
    } else if value > u16::MAX as i32 {
        u16::MAX
    } else {
        value as u16
    }
}

fn max_i32_exec(a: i32, b: i32) -> (r: i32)
    ensures
        r == max_i32(a, b),
{
    if a >= b {
        a
    } else {
        b
    }
}

/// Places one character at the pen, as `place_glyph` says.
fn layout_character(
    font: &Font,
    ch: char,
    scale: i32,
    origin_x: i32,
    line_y: i32,
    cursor_x: &mut i32,
    first_on_line: &mut bool,
    maximum_width: &mut i32,
    glyphs: &mut Vec<PlacedGlyph>,
)
    requires
        1 <= scale <= 255,
    ensures
        ({
            let before = LayoutState {
                cursor_x: *old(cursor_x),
                line_y,
                first_on_line: *old(first_on_line),
                maximum_width: *old(maximum_width),
                line_count: 0,
                glyphs: old(glyphs)@,
            };
            let after = place_glyph(font, scale as int, origin_x, before, ch);
            &&& *final(cursor_x) == after.cursor_x
            &&& *final(first_on_line) == after.first_on_line
            &&& *final(maximum_width) == after.maximum_width
            &&& final(glyphs)@ == after.glyphs
        }),
{
    let index = match font.resolve_glyph(ch) {
        Some(index) => index,
        None => return ,
    };
    if !*first_on_line {
        assert(-128 * 255 <= font.tracking * scale <= 127 * 255) by (nonlinear_arith)
            requires
                1 <= scale <= 255,
                -128 <= font.tracking <= 127,
        ;
        *cursor_x = saturating_add_i32(*cursor_x, font.tracking as i32 * scale);
    }
    let pen = *cursor_x;
    glyphs.push(PlacedGlyph { index, x: saturating_add_i32(origin_x, pen), y: line_y });
    let advance_u8: u8 = match font.glyph_advance(index) {
        Some(a) => a,
        None => 0,
    };
    assert(0 <= advance_u8 * scale <= 255 * 255) by (nonlinear_arith)
        requires
            1 <= scale <= 255,
    ;
    let advance = advance_u8 as i32 * scale;
    *cursor_x = saturating_add_i32(*cursor_x, advance);
    *maximum_width = max_i32_exec(*maximum_width, *cursor_x);
    *first_on_line = false;
}


/// The exec form of a layout state, compared with the spec form.
pub open spec fn state_is(
    st: LayoutState,
    cursor_x: i32,
    line_y: i32,
    first_on_line: bool,
    maximum_width: i32,
    line_count: i32,
    glyphs: Seq<PlacedGlyph>,
) -> bool {
    &&& st.cursor_x == cursor_x
    &&& st.line_y == line_y
    &&& st.first_on_line == first_on_line
    &&& st.maximum_width == maximum_width
    &&& st.line_count == line_count
    &&& st.glyphs == glyphs
}

/// Lays out `text` with the top-left of the first line box at
/// `(origin_x, origin_y)`: the glyphs in drawing order, and the box.
pub fn layout_text(
    origin_x: i32,
    origin_y: i32,
    font: &Font,
    text: &str,
    options: TextOptions,
) -> (r: (TextMeasurement, Vec<PlacedGlyph>))
    ensures
        r.0 == measurement_of(font, options, text_layout(font, origin_x, origin_y, text@, options)),
        r.1@ == text_layout(font, origin_x, origin_y, text@, options).glyphs,
{
    let scale: i32 = if options.scale == 0 {
        1
    } else {
        options.scale as i32
    };
    assert(0 <= font.line_height * scale <= 255 * 255) by (nonlinear_arith)
        requires
            1 <= scale <= 255,
    ;
    let advance_y = font.line_height as i32 * scale;
    let mut cursor_x: i32 = 0;
    let mut line_y: i32 = origin_y;
    let mut first_on_line = true;
    let mut maximum_width: i32 = 0;
    let mut line_count: i32 = 0;
    let mut glyphs: Vec<PlacedGlyph> = Vec::new();
    let ghost scale_int = scale as int;
    for ch in it: text.chars()
        invariant
            scale == effective_scale(options),
            advance_y == line_advance(font, scale_int),
            scale_int == scale,
            it.seq() == text@,
            state_is(
                layout_run(font, scale_int, origin_x, layout_start(origin_y), text@.take(it.index() as int)),
                cursor_x,
                line_y,
                first_on_line,
                maximum_width,
                line_count,
                glyphs@,
            ),
    {
        let ghost prefix = text@.take(it.index() as int);
        assert(text@.take(it.index() + 1).drop_last() =~= prefix);
        if ch != '\r' {
            if line_count == 0 {
                line_count = 1;
            }
            if ch == '\n' {
                maximum_width = max_i32_exec(maximum_width, cursor_x);
                cursor_x = 0;
                line_y = saturating_add_i32(line_y, advance_y);
                first_on_line = true;
                line_count = saturating_add_i32(line_count, 1);
            } else if ch == '\t' {
                // A tab is four spaces.
                layout_character(
                    font,
                    ' ',
                    scale,
                    origin_x,
                    line_y,
                    &mut cursor_x,
                    &mut first_on_line,
                    &mut maximum_width,
                    &mut glyphs,
                );
                layout_character(
                    font,
                    ' ',
                    scale,
                    origin_x,
                    line_y,
                    &mut cursor_x,
                    &mut first_on_line,
                    &mut maximum_width,
                    &mut glyphs,
                );
                layout_character(
                    font,
                    ' ',
                    scale,
                    origin_x,
                    line_y,
                    &mut cursor_x,
                    &mut first_on_line,
                    &mut maximum_width,
                    &mut glyphs,
                );
                layout_character(
                    font,
                    ' ',
                    scale,
                    origin_x,
                    line_y,
                    &mut cursor_x,
                    &mut first_on_line,
                    &mut maximum_width,
                    &mut glyphs,
                );
            } else {
                layout_character(
                    font,
                    ch,
                    scale,
                    origin_x,
                    line_y,
                    &mut cursor_x,
                    &mut first_on_line,
                    &mut maximum_width,
                    &mut glyphs,
                );
            }
        }
    }
    assert(text@.take(text@.len() as int) =~= text@);
    let final_width = max_i32_exec(maximum_width, cursor_x);
    assert(0 <= font.baseline * scale <= 255 * 255) by (nonlinear_arith)
        requires
            1 <= scale <= 255,
    ;
    let measurement = TextMeasurement {
        baseline_offset: if line_count == 0 {
            0
        } else {
            font.baseline as u16 * scale as u16
        },
        width: saturating_u16(final_width),
        height: saturating_u16(saturating_mul_i32(line_count, advance_y)),
    };
    (measurement, glyphs)
}


/// Measure text using the same character, fallback, tracking, tab, newline,
/// and scaling rules as `draw_text`.
pub fn measure_text(font: &Font, text: &str, options: TextOptions) -> (r: TextMeasurement)
    ensures
        r == text_measurement(font, text@, options),
{
    layout_text(0, 0, font, text, options).0
}


/// Laying out `a + b` is laying out `b` after `a`.
pub proof fn lemma_layout_run_concat(
    font: &Font,
    scale: int,
    origin_x: i32,
    st: LayoutState,
    a: Seq<char>,
    b: Seq<char>,
)
    ensures
        layout_run(font, scale, origin_x, st, a + b) == layout_run(
            font,
            scale,
            origin_x,
            layout_run(font, scale, origin_x, st, a),
            b,
        ),
    decreases b.len(),
{
    if b.len() == 0 {
        assert(a + b =~= a);
    } else {
        assert((a + b).drop_last() =~= a + b.drop_last());
        assert((a + b).last() == b.last());
        lemma_layout_run_concat(font, scale, origin_x, st, a, b.drop_last());
    }
}

/// A tab lays out exactly as four spaces, wherever it stands in the text.
pub proof fn lemma_tab_is_four_spaces(
    font: &Font,
    origin_x: i32,
    origin_y: i32,
    before: Seq<char>,
    after: Seq<char>,
    options: TextOptions,
)
    ensures
        text_layout(font, origin_x, origin_y, before + seq!['\t'] + after, options) == text_layout(
            font,
            origin_x,
            origin_y,
            before + seq![' ', ' ', ' ', ' '] + after,
            options,
        ),
{
    let scale = effective_scale(options);
    let start = layout_start(origin_y);
    let tab = seq!['\t'];
    let spaces = seq![' ', ' ', ' ', ' '];
    lemma_layout_run_concat(font, scale, origin_x, start, before + tab, after);
    lemma_layout_run_concat(font, scale, origin_x, start, before + spaces, after);
    lemma_layout_run_concat(font, scale, origin_x, start, before, tab);
    lemma_layout_run_concat(font, scale, origin_x, start, before, spaces);
    let mid = layout_run(font, scale, origin_x, start, before);
    assert(tab.drop_last() =~= Seq::<char>::empty());
    assert(spaces.drop_last() =~= seq![' ', ' ', ' ']);
    assert(spaces.drop_last().drop_last() =~= seq![' ', ' ']);
    assert(spaces.drop_last().drop_last().drop_last() =~= seq![' ']);
    assert(spaces.drop_last().drop_last().drop_last().drop_last() =~= Seq::<char>::empty());
    reveal_with_fuel(layout_run, 5);
    assert(layout_run(font, scale, origin_x, mid, tab) == layout_run(
        font,
        scale,
        origin_x,
        mid,
        spaces,
    ));
}

/// Carriage returns are ignored: the layout of a text is that of the text
/// without them.
#[verifier::spinoff_prover]
pub proof fn lemma_carriage_returns_ignored(
    font: &Font,
    scale: int,
    origin_x: i32,
    st: LayoutState,
    text: Seq<char>,
)
    ensures
        layout_run(font, scale, origin_x, st, text) == layout_run(
            font,
            scale,
            origin_x,
            st,
            text.filter(|c: char| c != '\r'),
        ),
    decreases text.len(),
{
    let keep = |c: char| c != '\r';
    if text.len() == 0 {
        assert(text.filter(keep) =~= text);
    } else {
        let init = text.drop_last();
        lemma_carriage_returns_ignored(font, scale, origin_x, st, init);
        assert(text =~= init.push(text.last()));
        init.lemma_filter_push(text.last(), keep);
        if text.last() != '\r' {
            assert(init.filter(keep).push(text.last()).drop_last() =~= init.filter(keep));
        }
    }
}

/// The number of line breaks in `text`.
pub open spec fn newline_count(text: Seq<char>) -> int
    decreases text.len(),
{
    if text.len() == 0 {
        0
    } else {
        newline_count(text.drop_last()) + if text.last() == '\n' {
            1int
        } else {
            0int
        }
    }
}

/// Whether `text` holds anything but carriage returns.
pub open spec fn has_content(text: Seq<char>) -> bool {
    exists|i: int| 0 <= i < text.len() && text[i] != '\r'
}

/// The number of lines of a layout: none for text of nothing but carriage
/// returns, else one more than the line breaks (saturating).
pub proof fn lemma_line_count(
    font: &Font,
    scale: int,
    origin_x: i32,
    origin_y: i32,
    text: Seq<char>,
)
    ensures
        layout_run(font, scale, origin_x, layout_start(origin_y), text).line_count == if has_content(
            text,
        ) {
            sat_i32(1 + newline_count(text))
        } else {
            0
        },
    decreases text.len(),
{
    if text.len() > 0 {
        let init = text.drop_last();
        lemma_line_count(font, scale, origin_x, origin_y, init);
        lemma_place_keeps_line_count(font, scale, origin_x, text.last());
        assert(has_content(text) == (has_content(init) || text.last() != '\r')) by {
            if has_content(text) {
                let i = choose|i: int| 0 <= i < text.len() && text[i] != '\r';
                if i < init.len() {
                    assert(init[i] == text[i]);
                }
            }
            if has_content(init) {
                let i = choose|i: int| 0 <= i < init.len() && init[i] != '\r';
                assert(text[i] == init[i]);
            }
        }
        assert(newline_count(init) >= 0) by {
            lemma_newline_count_nonneg(init);
        }
        if !has_content(init) {
            lemma_no_content_no_newline(init);
        }
    }
}

proof fn lemma_no_content_no_newline(text: Seq<char>)
    requires
        !has_content(text),
    ensures
        newline_count(text) == 0,
    decreases text.len(),
{
    if text.len() > 0 {
        let init = text.drop_last();
        assert(!has_content(init)) by {
            if has_content(init) {
                let i = choose|i: int| 0 <= i < init.len() && init[i] != '\r';
                assert(text[i] == init[i]);
            }
        }
        assert(text[text.len() - 1] == '\r');
        lemma_no_content_no_newline(init);
    }
}

proof fn lemma_newline_count_nonneg(text: Seq<char>)
    ensures
        newline_count(text) >= 0,
    decreases text.len(),
{
    if text.len() > 0 {
        lemma_newline_count_nonneg(text.drop_last());
    }
}

proof fn lemma_place_keeps_line_count(font: &Font, scale: int, origin_x: i32, ch: char)
    ensures
        forall|st: LayoutState|
            #![trigger place_glyph(font, scale, origin_x, st, ch)]
            place_glyph(font, scale, origin_x, st, ch).line_count == st.line_count,
        forall|st: LayoutState|
            #![trigger place_glyph(font, scale, origin_x, st, ' ')]
            place_glyph(font, scale, origin_x, st, ' ').line_count == st.line_count,
{
}

/// The height of a text's box is the height of all its line boxes: the
/// number of lines times the line height times the scale, clamped to `u16`.
pub proof fn lemma_height_counts_lines(font: &Font, text: Seq<char>, options: TextOptions)
    ensures
        text_measurement(font, text, options).height == sat_u16(
            sat_i32(
                (if has_content(text) {
                    sat_i32(1 + newline_count(text)) as int
                } else {
                    0
                }) * font.line_height * effective_scale(options),
            ) as int,
        ),
{
    lemma_line_count(font, effective_scale(options), 0, 0, text);
    let lines: int = if has_content(text) {
        sat_i32(1 + newline_count(text)) as int
    } else {
        0
    };
    assert(lines * (font.line_height * effective_scale(options)) == lines * font.line_height
        * effective_scale(options)) by (nonlinear_arith);
}

/// Scale zero draws and measures as scale one.
pub proof fn lemma_scale_zero_is_one(font: &Font, text: Seq<char>, black: bool)
    ensures
        text_measurement(font, text, TextOptions { black, scale: 0 }) == text_measurement(
            font,
            text,
            TextOptions { black, scale: 1 },
        ),
{
}


/// Two layouts that differ only in their origin: the same pen, box and
/// glyphs, the glyphs of `a` shifted right by `origin_x` from those of `b`.
pub open spec fn shifted_layout(a: LayoutState, b: LayoutState, origin_x: i32) -> bool {
    &&& a.cursor_x == b.cursor_x
    &&& a.first_on_line == b.first_on_line
    &&& a.maximum_width == b.maximum_width
    &&& a.line_count == b.line_count
    &&& a.glyphs.len() == b.glyphs.len()
    &&& forall|i: int|
        0 <= i < a.glyphs.len() ==> (#[trigger] a.glyphs[i]).index == b.glyphs[i].index
            && a.glyphs[i].x == sat_i32(origin_x + b.glyphs[i].x)
}

proof fn lemma_place_shifted(
    font: &Font,
    scale: int,
    origin_x: i32,
    a: LayoutState,
    b: LayoutState,
    ch: char,
)
    requires
        shifted_layout(a, b, origin_x),
    ensures
        shifted_layout(
            place_glyph(font, scale, origin_x, a, ch),
            place_glyph(font, scale, 0, b, ch),
            origin_x,
        ),
{
    let a2 = place_glyph(font, scale, origin_x, a, ch);
    let b2 = place_glyph(font, scale, 0, b, ch);
    if font.spec_resolve_glyph(ch) is Some {
        assert forall|i: int| 0 <= i < a2.glyphs.len() implies (#[trigger] a2.glyphs[i]).index
            == b2.glyphs[i].index && a2.glyphs[i].x == sat_i32(origin_x + b2.glyphs[i].x) by {
            if i < a.glyphs.len() {
                assert(a2.glyphs[i] == a.glyphs[i]);
                assert(b2.glyphs[i] == b.glyphs[i]);
            }
        }
    }
}

proof fn lemma_run_shifted(
    font: &Font,
    scale: int,
    origin_x: i32,
    a: LayoutState,
    b: LayoutState,
    text: Seq<char>,
)
    requires
        shifted_layout(a, b, origin_x),
    ensures
        shifted_layout(
            layout_run(font, scale, origin_x, a, text),
            layout_run(font, scale, 0, b, text),
            origin_x,
        ),
    decreases text.len(),
{
    if text.len() > 0 {
        let init = text.drop_last();
        lemma_run_shifted(font, scale, origin_x, a, b, init);
        let a1 = layout_run(font, scale, origin_x, a, init);
        let b1 = layout_run(font, scale, 0, b, init);
        let c = text.last();
        if c != '\r' && c != '\n' {
            let a0 = if a1.line_count == 0 {
                LayoutState { line_count: 1, ..a1 }
            } else {
                a1
            };
            let b0 = if b1.line_count == 0 {
                LayoutState { line_count: 1, ..b1 }
            } else {
                b1
            };
            if c == '\t' {
                lemma_place_shifted(font, scale, origin_x, a0, b0, ' ');
                let a3 = place_glyph(font, scale, origin_x, a0, ' ');
                let b3 = place_glyph(font, scale, 0, b0, ' ');
                lemma_place_shifted(font, scale, origin_x, a3, b3, ' ');
                let a4 = place_glyph(font, scale, origin_x, a3, ' ');
                let b4 = place_glyph(font, scale, 0, b3, ' ');
                lemma_place_shifted(font, scale, origin_x, a4, b4, ' ');
                let a5 = place_glyph(font, scale, origin_x, a4, ' ');
                let b5 = place_glyph(font, scale, 0, b4, ' ');
                lemma_place_shifted(font, scale, origin_x, a5, b5, ' ');
            } else {
                lemma_place_shifted(font, scale, origin_x, a0, b0, c);
            }
        }
    }
}

/// Where text is drawn changes neither its box nor the glyphs chosen:
/// `measure_text` measures exactly what `draw_text` lays out at any origin,
/// and each glyph drawn at `(origin_x, origin_y)` sits `origin_x` further
/// right (saturating) than when laid out at the origin.
pub proof fn lemma_layout_origin(
    font: &Font,
    origin_x: i32,
    origin_y: i32,
    text: Seq<char>,
    options: TextOptions,
)
    ensures
        measurement_of(font, options, text_layout(font, origin_x, origin_y, text, options))
            == text_measurement(font, text, options),
        shifted_layout(
            text_layout(font, origin_x, origin_y, text, options),
            text_layout(font, 0, 0, text, options),
            origin_x,
        ),
{
    lemma_run_shifted(
        font,
        effective_scale(options),
        origin_x,
        layout_start(origin_y),
        layout_start(0),
        text,
    );
}


proof fn lemma_missing_step(font: &Font, scale: int, origin_x: i32, st: LayoutState, ch: char, stand_in: char)
    requires
        font.spec_glyph_index(ch) is None,
        ch != '\n' && ch != '\t' && ch != '\r',
        stand_in == '?' || (stand_in == ' ' && font.spec_glyph_index('?') is None),
    ensures
        layout_step(font, scale, origin_x, st, ch) == layout_step(font, scale, origin_x, st, stand_in),
{
    assert(font.spec_resolve_glyph(ch) == font.spec_resolve_glyph(stand_in));
}

/// A character the font lacks (other than '\n', '\t' and '\r') lays out
/// exactly as '?' wherever it stands; when the font lacks '?' too, exactly
/// as ' '.
pub proof fn lemma_missing_char_falls_back(
    font: &Font,
    origin_x: i32,
    origin_y: i32,
    before: Seq<char>,
    ch: char,
    after: Seq<char>,
    options: TextOptions,
)
    requires
        font.spec_glyph_index(ch) is None,
        ch != '\n' && ch != '\t' && ch != '\r',
    ensures
        text_layout(font, origin_x, origin_y, before + seq![ch] + after, options) == text_layout(
            font,
            origin_x,
            origin_y,
            before + seq!['?'] + after,
            options,
        ),
        font.spec_glyph_index('?') is None ==> text_layout(
            font,
            origin_x,
            origin_y,
            before + seq![ch] + after,
            options,
        ) == text_layout(font, origin_x, origin_y, before + seq![' '] + after, options),
{
    let scale = effective_scale(options);
    let start = layout_start(origin_y);
    let mid = layout_run(font, scale, origin_x, start, before);
    let one = seq![ch];
    let q = seq!['?'];
    let sp = seq![' '];
    lemma_layout_run_concat(font, scale, origin_x, start, before + one, after);
    lemma_layout_run_concat(font, scale, origin_x, start, before + q, after);
    lemma_layout_run_concat(font, scale, origin_x, start, before + sp, after);
    lemma_layout_run_concat(font, scale, origin_x, start, before, one);
    lemma_layout_run_concat(font, scale, origin_x, start, before, q);
    lemma_layout_run_concat(font, scale, origin_x, start, before, sp);
    assert(one.drop_last() =~= Seq::<char>::empty());
    assert(q.drop_last() =~= Seq::<char>::empty());
    assert(sp.drop_last() =~= Seq::<char>::empty());
    lemma_missing_step(font, scale, origin_x, mid, ch, '?');
    if font.spec_glyph_index('?') is None {
        lemma_missing_step(font, scale, origin_x, mid, ch, ' ');
    }
}

/// A lone character the font lacks is drawn as the glyph of '?' (code
/// point '?' minus the font's first code point) at the origin, when the font
/// has '?'.
pub proof fn lemma_missing_char_is_question_glyph(
    font: &Font,
    origin_x: i32,
    origin_y: i32,
    ch: char,
    options: TextOptions,
)
    requires
        font.spec_glyph_index(ch) is None,
        ch != '\n' && ch != '\t' && ch != '\r',
        font.first <= '?' as u32 && ('?' as u32) - font.first < font.count,
    ensures
        text_layout(font, origin_x, origin_y, seq![ch], options).glyphs == seq![
            PlacedGlyph { index: (('?' as u32) - font.first) as usize, x: origin_x, y: origin_y },
        ],
{
    let scale = effective_scale(options);
    let start = layout_start(origin_y);
    let one = seq![ch];
    assert(one.drop_last() =~= Seq::<char>::empty());
    assert(layout_run(font, scale, origin_x, start, one.drop_last()) == start);
    assert(one.last() == ch);
    assert(font.spec_resolve_glyph(ch) == Some((('?' as u32) - font.first) as usize));
    let l = layout_run(font, scale, origin_x, start, one);
    assert(l == layout_step(font, scale, origin_x, start, ch));
    assert(l.glyphs =~= seq![
        PlacedGlyph { index: (('?' as u32) - font.first) as usize, x: origin_x, y: origin_y },
    ]);
}

/// The relation between a layout run continued from `a` and the same run
/// started afresh from `b`: same pen, line and first-on-line flag; `a`'s
/// glyphs are `prefix` followed by `b`'s; `a`'s widest extent is the larger
/// of `m` and `b`'s.
pub open spec fn continued_layout(a: LayoutState, b: LayoutState, m: i32, prefix: Seq<PlacedGlyph>) -> bool {
    &&& a.cursor_x == b.cursor_x
    &&& a.line_y == b.line_y
    &&& a.first_on_line == b.first_on_line
    &&& a.glyphs == prefix + b.glyphs
    &&& a.maximum_width == max_i32(m, b.maximum_width)
    &&& b.maximum_width >= 0
}

proof fn lemma_place_continued(
    font: &Font,
    scale: int,
    origin_x: i32,
    a: LayoutState,
    b: LayoutState,
    m: i32,
    prefix: Seq<PlacedGlyph>,
    ch: char,
)
    requires
        continued_layout(a, b, m, prefix),
        m >= 0,
    ensures
        continued_layout(
            place_glyph(font, scale, origin_x, a, ch),
            place_glyph(font, scale, origin_x, b, ch),
            m,
            prefix,
        ),
{
    let a2 = place_glyph(font, scale, origin_x, a, ch);
    let b2 = place_glyph(font, scale, origin_x, b, ch);
    if font.spec_resolve_glyph(ch) is Some {
        assert(a2.glyphs =~= prefix + b2.glyphs);
    }
}

proof fn lemma_run_continued(
    font: &Font,
    scale: int,
    origin_x: i32,
    a: LayoutState,
    b: LayoutState,
    m: i32,
    prefix: Seq<PlacedGlyph>,
    text: Seq<char>,
)
    requires
        continued_layout(a, b, m, prefix),
        m >= 0,
    ensures
        continued_layout(
            layout_run(font, scale, origin_x, a, text),
            layout_run(font, scale, origin_x, b, text),
            m,
            prefix,
        ),
    decreases text.len(),
{
    if text.len() > 0 {
        let init = text.drop_last();
        lemma_run_continued(font, scale, origin_x, a, b, m, prefix, init);
        let a1 = layout_run(font, scale, origin_x, a, init);
        let b1 = layout_run(font, scale, origin_x, b, init);
        let c = text.last();
        if c != '\r' && c != '\n' {
            let a0 = if a1.line_count == 0 {
                LayoutState { line_count: 1, ..a1 }
            } else {
                a1
            };
            let b0 = if b1.line_count == 0 {
                LayoutState { line_count: 1, ..b1 }
            } else {
                b1
            };
            if c == '\t' {
                lemma_place_continued(font, scale, origin_x, a0, b0, m, prefix, ' ');
                let a3 = place_glyph(font, scale, origin_x, a0, ' ');
                let b3 = place_glyph(font, scale, origin_x, b0, ' ');
                lemma_place_continued(font, scale, origin_x, a3, b3, m, prefix, ' ');
                let a4 = place_glyph(font, scale, origin_x, a3, ' ');
                let b4 = place_glyph(font, scale, origin_x, b3, ' ');
                lemma_place_continued(font, scale, origin_x, a4, b4, m, prefix, ' ');
                let a5 = place_glyph(font, scale, origin_x, a4, ' ');
                let b5 = place_glyph(font, scale, origin_x, b4, ' ');
                lemma_place_continued(font, scale, origin_x, a5, b5, m, prefix, ' ');
            } else {
                lemma_place_continued(font, scale, origin_x, a0, b0, m, prefix, c);
            }
        }
    }
}

proof fn lemma_place_keeps_line_y(font: &Font, scale: int, origin_x: i32, ch: char)
    ensures
        forall|st: LayoutState|
            #![trigger place_glyph(font, scale, origin_x, st, ch)]
            place_glyph(font, scale, origin_x, st, ch).line_y == st.line_y,
        forall|st: LayoutState|
            #![trigger place_glyph(font, scale, origin_x, st, ' ')]
            place_glyph(font, scale, origin_x, st, ' ').line_y == st.line_y,
{
}

/// After a text, the pen's line is the origin's line moved down one line
/// advance per line break (saturating).
proof fn lemma_line_y(font: &Font, scale: int, origin_x: i32, origin_y: i32, text: Seq<char>)
    requires
        scale >= 1,
    ensures
        layout_run(font, scale, origin_x, layout_start(origin_y), text).line_y == sat_i32(
            origin_y + newline_count(text) * line_advance(font, scale),
        ),
    decreases text.len(),
{
    if text.len() > 0 {
        let init = text.drop_last();
        lemma_line_y(font, scale, origin_x, origin_y, init);
        lemma_place_keeps_line_y(font, scale, origin_x, text.last());
        lemma_newline_count_nonneg(init);
        let k = newline_count(init);
        let adv = line_advance(font, scale);
        assert(k * adv >= 0) by (nonlinear_arith)
            requires
                k >= 0,
                adv >= 0,
        ;
        assert((k + 1) * adv == k * adv + adv) by (nonlinear_arith);
    }
}

/// A line break starts a fresh line: the glyphs of `a + "\n" + b` are those
/// of `a` followed by those of `b` laid out from the origin's column, one
/// line advance (`line_height * scale`) per line break of `a`, plus one,
/// further down (saturating).
pub proof fn lemma_line_break_layout(
    font: &Font,
    origin_x: i32,
    origin_y: i32,
    a: Seq<char>,
    b: Seq<char>,
    options: TextOptions,
)
    ensures
        text_layout(font, origin_x, origin_y, a + seq!['\n'] + b, options).glyphs == text_layout(
            font,
            origin_x,
            origin_y,
            a,
            options,
        ).glyphs + text_layout(
            font,
            origin_x,
            sat_i32(origin_y + (newline_count(a) + 1) * (font.line_height * effective_scale(options))),
            b,
            options,
        ).glyphs,
{
    lemma_line_break_run(font, origin_x, origin_y, a, b, options);
}

proof fn lemma_line_break_run(
    font: &Font,
    origin_x: i32,
    origin_y: i32,
    a: Seq<char>,
    b: Seq<char>,
    options: TextOptions,
)
    ensures
        ({
            let scale = effective_scale(options);
            let after_a = layout_run(font, scale, origin_x, layout_start(origin_y), a);
            let line_y = sat_i32(origin_y + (newline_count(a) + 1) * (font.line_height * scale));
            let m = max_i32(after_a.maximum_width, after_a.cursor_x);
            &&& m >= 0
            &&& continued_layout(
                text_layout(font, origin_x, origin_y, a + seq!['\n'] + b, options),
                text_layout(font, origin_x, line_y, b, options),
                m,
                after_a.glyphs,
            )
        }),
{
    let scale = effective_scale(options);
    let start = layout_start(origin_y);
    let nl = seq!['\n'];
    lemma_layout_run_concat(font, scale, origin_x, start, a + nl, b);
    lemma_layout_run_concat(font, scale, origin_x, start, a, nl);
    assert(nl.drop_last() =~= Seq::<char>::empty());
    let after_a = layout_run(font, scale, origin_x, start, a);
    let after_nl = layout_run(font, scale, origin_x, after_a, nl);
    assert(layout_run(font, scale, origin_x, after_a, nl.drop_last()) == after_a);
    assert(nl.last() == '\n');
    assert(after_nl == layout_step(font, scale, origin_x, after_a, '\n'));
    lemma_line_y(font, scale, origin_x, origin_y, a);
    lemma_newline_count_nonneg(a);
    let k = newline_count(a);
    let adv = font.line_height * scale;
    assert(k * adv >= 0) by (nonlinear_arith)
        requires
            k >= 0,
            adv >= 0,
    ;
    assert((k + 1) * adv == k * adv + adv) by (nonlinear_arith);
    let line_y = sat_i32(origin_y + (k + 1) * adv);
    assert(after_nl.line_y == line_y);
    lemma_width_nonneg(font, scale, origin_x, origin_y, a);
    let m = max_i32(after_a.maximum_width, after_a.cursor_x);
    let fresh = layout_start(line_y);
    assert(after_nl.glyphs =~= after_a.glyphs + fresh.glyphs);
    assert(continued_layout(after_nl, fresh, m, after_a.glyphs));
    lemma_run_continued(font, scale, origin_x, after_nl, fresh, m, after_a.glyphs, b);
}

proof fn lemma_width_nonneg(font: &Font, scale: int, origin_x: i32, origin_y: i32, text: Seq<char>)
    ensures
        layout_run(font, scale, origin_x, layout_start(origin_y), text).maximum_width >= 0,
    decreases text.len(),
{
    if text.len() > 0 {
        lemma_width_nonneg(font, scale, origin_x, origin_y, text.drop_last());
    }
}

/// Lines are measured independently: the width of `a + "\n" + b` is the
/// larger of the widths of `a` and of `b`.
pub proof fn lemma_line_break_width(font: &Font, a: Seq<char>, b: Seq<char>, options: TextOptions)
    ensures
        text_measurement(font, a + seq!['\n'] + b, options).width == if text_measurement(
            font,
            a,
            options,
        ).width >= text_measurement(font, b, options).width {
            text_measurement(font, a, options).width
        } else {
            text_measurement(font, b, options).width
        },
{
    let scale = effective_scale(options);
    lemma_line_break_run(font, 0, 0, a, b, options);
    lemma_newline_count_nonneg(a);
    let line_y = sat_i32(0 + (newline_count(a) + 1) * (font.line_height * scale));
    lemma_layout_origin(font, 0, line_y, b, options);
}

/// Within a line, every glyph sits on the origin's line, and the first
/// glyph at the origin's column.
pub proof fn lemma_single_line(
    font: &Font,
    origin_x: i32,
    origin_y: i32,
    text: Seq<char>,
    options: TextOptions,
)
    requires
        forall|i: int| 0 <= i < text.len() ==> text[i] != '\n',
    ensures
        forall|i: int|
            0 <= i < text_layout(font, origin_x, origin_y, text, options).glyphs.len() ==> (
            #[trigger] text_layout(font, origin_x, origin_y, text, options).glyphs[i]).y
                == origin_y,
        text_layout(font, origin_x, origin_y, text, options).glyphs.len() > 0 ==> text_layout(
            font,
            origin_x,
            origin_y,
            text,
            options,
        ).glyphs[0].x == origin_x,
{
    lemma_single_line_run(font, effective_scale(options), origin_x, origin_y, text);
}

pub open spec fn single_line_state(st: LayoutState, origin_x: i32, origin_y: i32) -> bool {
    &&& st.line_y == origin_y
    &&& forall|i: int| 0 <= i < st.glyphs.len() ==> (#[trigger] st.glyphs[i]).y == origin_y
    &&& st.glyphs.len() == 0 ==> st.cursor_x == 0 && st.first_on_line
    &&& st.glyphs.len() > 0 ==> st.glyphs[0].x == origin_x
}

proof fn lemma_place_single_line(
    font: &Font,
    scale: int,
    origin_x: i32,
    origin_y: i32,
    st: LayoutState,
    ch: char,
)
    requires
        single_line_state(st, origin_x, origin_y),
    ensures
        single_line_state(place_glyph(font, scale, origin_x, st, ch), origin_x, origin_y),
{
    let s2 = place_glyph(font, scale, origin_x, st, ch);
    if font.spec_resolve_glyph(ch) is Some {
        assert forall|i: int| 0 <= i < s2.glyphs.len() implies (#[trigger] s2.glyphs[i]).y
            == origin_y by {
            if i < st.glyphs.len() {
                assert(s2.glyphs[i] == st.glyphs[i]);
            }
        }
        if st.glyphs.len() > 0 {
            assert(s2.glyphs[0] == st.glyphs[0]);
        }
    }
}

proof fn lemma_single_line_run(
    font: &Font,
    scale: int,
    origin_x: i32,
    origin_y: i32,
    text: Seq<char>,
)
    requires
        forall|i: int| 0 <= i < text.len() ==> text[i] != '\n',
    ensures
        single_line_state(
            layout_run(font, scale, origin_x, layout_start(origin_y), text),
            origin_x,
            origin_y,
        ),
    decreases text.len(),
{
    if text.len() > 0 {
        let init = text.drop_last();
        assert forall|i: int| 0 <= i < init.len() implies init[i] != '\n' by {
            assert(init[i] == text[i]);
        }
        lemma_single_line_run(font, scale, origin_x, origin_y, init);
        let s1 = layout_run(font, scale, origin_x, layout_start(origin_y), init);
        let c = text.last();
        assert(c == text[text.len() - 1]);
        if c != '\r' {
            let s0 = if s1.line_count == 0 {
                LayoutState { line_count: 1, ..s1 }
            } else {
                s1
            };
            if c == '\t' {
                lemma_place_single_line(font, scale, origin_x, origin_y, s0, ' ');
                let s3 = place_glyph(font, scale, origin_x, s0, ' ');
                lemma_place_single_line(font, scale, origin_x, origin_y, s3, ' ');
                let s4 = place_glyph(font, scale, origin_x, s3, ' ');
                lemma_place_single_line(font, scale, origin_x, origin_y, s4, ' ');
                let s5 = place_glyph(font, scale, origin_x, s4, ' ');
                lemma_place_single_line(font, scale, origin_x, origin_y, s5, ' ');
            } else {
                lemma_place_single_line(font, scale, origin_x, origin_y, s0, c);
            }
        }
    }
}


/// The advance a glyph moves the pen by, before scaling (zero when it has none).
pub open spec fn advance_or_zero(font: &Font, index: usize) -> int {
    match font.spec_glyph_advance(index) {
        Some(a) => a as int,
        None => 0,
    }
}

/// Within a line: consecutive glyphs are `advance + tracking` apart (scaled),
/// and the pen stands `advance` (scaled) past the last glyph.
pub open spec fn pen_state(font: &Font, scale: int, origin_x: i32, st: LayoutState, bound: int) -> bool {
    &&& st.glyphs.len() == 0 ==> st.cursor_x == 0 && st.first_on_line
    &&& st.glyphs.len() > 0 ==> !st.first_on_line && st.cursor_x == st.glyphs.last().x - origin_x
        + advance_or_zero(font, st.glyphs.last().index) * scale
    &&& forall|i: int|
        0 <= i < st.glyphs.len() - 1 ==> #[trigger] st.glyphs[i + 1].x == st.glyphs[i].x + (
        advance_or_zero(font, st.glyphs[i].index) + font.tracking) * scale
    &&& -bound <= st.cursor_x <= bound
}

proof fn lemma_place_pen(
    font: &Font,
    scale: int,
    origin_x: i32,
    st: LayoutState,
    ch: char,
    bound: int,
)
    requires
        1 <= scale <= 255,
        0 <= bound <= 0x2000_0000,
        -0x4000_0000 <= origin_x <= 0x4000_0000,
        pen_state(font, scale, origin_x, st, bound),
    ensures
        pen_state(font, scale, origin_x, place_glyph(font, scale, origin_x, st, ch), bound + 102000),
{
    let s2 = place_glyph(font, scale, origin_x, st, ch);
    match font.spec_resolve_glyph(ch) {
        None => {},
        Some(index) => {
            assert(-128 * 255 <= font.tracking * scale <= 127 * 255) by (nonlinear_arith)
                requires
                    1 <= scale <= 255,
                    -128 <= font.tracking <= 127,
            ;
            let adv = advance_or_zero(font, index);
            assert(0 <= adv <= 255);
            assert(0 <= adv * scale <= 255 * 255) by (nonlinear_arith)
                requires
                    1 <= scale <= 255,
                    0 <= adv <= 255,
            ;
            if st.glyphs.len() > 0 {
                let last = st.glyphs.last();
                let la = advance_or_zero(font, last.index);
                assert((la + font.tracking) * scale == la * scale + font.tracking * scale) by (
                nonlinear_arith);
                assert forall|i: int| 0 <= i < s2.glyphs.len() - 1 implies #[trigger] s2.glyphs[i
                    + 1].x == s2.glyphs[i].x + (advance_or_zero(font, s2.glyphs[i].index)
                    + font.tracking) * scale by {
                    if i < st.glyphs.len() - 1 {
                        assert(s2.glyphs[i + 1] == st.glyphs[i + 1]);
                        assert(s2.glyphs[i] == st.glyphs[i]);
                    } else {
                        assert(s2.glyphs[i] == last);
                    }
                }
            }
        },
    }
}

proof fn lemma_run_pen(font: &Font, scale: int, origin_x: i32, origin_y: i32, text: Seq<char>)
    requires
        1 <= scale <= 255,
        -0x4000_0000 <= origin_x <= 0x4000_0000,
        text.len() <= 1000,
        forall|i: int| 0 <= i < text.len() ==> text[i] != '\n',
    ensures
        pen_state(
            font,
            scale,
            origin_x,
            layout_run(font, scale, origin_x, layout_start(origin_y), text),
            4 * 102000 * (text.len() as int),
        ),
    decreases text.len(),
{
    if text.len() > 0 {
        let init = text.drop_last();
        assert forall|i: int| 0 <= i < init.len() implies init[i] != '\n' by {
            assert(init[i] == text[i]);
        }
        lemma_run_pen(font, scale, origin_x, origin_y, init);
        let b: int = 4 * 102000 * (init.len() as int);
        assert(0 <= b <= 408000 * 999) by (nonlinear_arith)
            requires
                b == 4 * 102000 * (init.len() as int),
                init.len() <= 999,
        ;
        let st = layout_run(font, scale, origin_x, layout_start(origin_y), init);
        let c = text.last();
        assert(c == text[text.len() - 1]);
        if c != '\r' {
            let s0 = if st.line_count == 0 {
                LayoutState { line_count: 1, ..st }
            } else {
                st
            };
            if c == '\t' {
                lemma_place_pen(font, scale, origin_x, s0, ' ', b);
                let s3 = place_glyph(font, scale, origin_x, s0, ' ');
                lemma_place_pen(font, scale, origin_x, s3, ' ', b + 102000);
                let s4 = place_glyph(font, scale, origin_x, s3, ' ');
                lemma_place_pen(font, scale, origin_x, s4, ' ', b + 2 * 102000);
                let s5 = place_glyph(font, scale, origin_x, s4, ' ');
                lemma_place_pen(font, scale, origin_x, s5, ' ', b + 3 * 102000);
            } else {
                lemma_place_pen(font, scale, origin_x, s0, c, b);
            }
        }
        let res = layout_run(font, scale, origin_x, layout_start(origin_y), text);
        assert(res == layout_step(font, scale, origin_x, st, c));
        assert(4 * 102000 * (text.len() as int) == b + 4 * 102000) by (nonlinear_arith)
            requires
                b == 4 * 102000 * (init.len() as int),
                text.len() == init.len() + 1,
        ;
        assert(-(b + 4 * 102000) <= res.cursor_x <= b + 4 * 102000);
    }
}

/// Within a line (short enough that the pen cannot saturate), each glyph
/// stands the previous glyph's advance plus the font's tracking, both scaled,
/// to the right of the previous one.
pub proof fn lemma_glyph_spacing(
    font: &Font,
    origin_x: i32,
    origin_y: i32,
    text: Seq<char>,
    options: TextOptions,
    i: int,
)
    requires
        -0x4000_0000 <= origin_x <= 0x4000_0000,
        text.len() <= 1000,
        forall|k: int| 0 <= k < text.len() ==> text[k] != '\n',
        0 <= i,
        i + 1 < text_layout(font, origin_x, origin_y, text, options).glyphs.len(),
    ensures
        ({
            let g = text_layout(font, origin_x, origin_y, text, options).glyphs;
            g[i + 1].x == g[i].x + (advance_or_zero(font, g[i].index) + font.tracking)
                * effective_scale(options)
        }),
{
    lemma_run_pen(font, effective_scale(options), origin_x, origin_y, text);
    let g = text_layout(font, origin_x, origin_y, text, options).glyphs;
    assert(g[i + 1].x == g[i].x + (advance_or_zero(font, g[i].index) + font.tracking)
        * effective_scale(options));
}


/// The baseline offset is the font's baseline, scaled, for text with any
/// line, and zero for empty text.
pub proof fn lemma_baseline_offset(font: &Font, text: Seq<char>, options: TextOptions)
    ensures
        text_measurement(font, text, options).baseline_offset == if has_content(text) {
            font.baseline * effective_scale(options)
        } else {
            0
        },
{
    let scale = effective_scale(options);
    lemma_line_count(font, scale, 0, 0, text);
    lemma_newline_count_nonneg(text);
    assert(0 <= font.baseline * scale <= 255 * 255) by (nonlinear_arith)
        requires
            1 <= scale <= 255,
    ;
}

proof fn lemma_place_width(font: &Font, scale: int, origin_x: i32, st: LayoutState, ch: char)
    requires
        1 <= scale,
        font.tracking >= 0,
        st.maximum_width == st.cursor_x,
        st.cursor_x >= 0,
    ensures
        place_glyph(font, scale, origin_x, st, ch).maximum_width == place_glyph(
            font,
            scale,
            origin_x,
            st,
            ch,
        ).cursor_x,
        place_glyph(font, scale, origin_x, st, ch).cursor_x >= 0,
{
    assert(font.tracking * scale >= 0) by (nonlinear_arith)
        requires
            font.tracking >= 0,
            scale >= 1,
    ;
    match font.spec_resolve_glyph(ch) {
        None => {},
        Some(index) => {
            let a = advance_or_zero(font, index);
            assert(a * scale >= 0) by (nonlinear_arith)
                requires
                    a >= 0,
                    scale >= 1,
            ;
        },
    }
}

proof fn lemma_run_width(font: &Font, scale: int, origin_x: i32, origin_y: i32, text: Seq<char>)
    requires
        1 <= scale,
        font.tracking >= 0,
        forall|i: int| 0 <= i < text.len() ==> text[i] != '\n',
    ensures
        layout_run(font, scale, origin_x, layout_start(origin_y), text).maximum_width
            == layout_run(font, scale, origin_x, layout_start(origin_y), text).cursor_x,
        layout_run(font, scale, origin_x, layout_start(origin_y), text).cursor_x >= 0,
    decreases text.len(),
{
    if text.len() > 0 {
        let init = text.drop_last();
        assert forall|i: int| 0 <= i < init.len() implies init[i] != '\n' by {
            assert(init[i] == text[i]);
        }
        lemma_run_width(font, scale, origin_x, origin_y, init);
        let st = layout_run(font, scale, origin_x, layout_start(origin_y), init);
        let c = text.last();
        assert(c == text[text.len() - 1]);
        if c != '\r' {
            let s0 = if st.line_count == 0 {
                LayoutState { line_count: 1, ..st }
            } else {
                st
            };
            if c == '\t' {
                lemma_place_width(font, scale, origin_x, s0, ' ');
                let s3 = place_glyph(font, scale, origin_x, s0, ' ');
                lemma_place_width(font, scale, origin_x, s3, ' ');
                let s4 = place_glyph(font, scale, origin_x, s3, ' ');
                lemma_place_width(font, scale, origin_x, s4, ' ');
                let s5 = place_glyph(font, scale, origin_x, s4, ' ');
                lemma_place_width(font, scale, origin_x, s5, ' ');
            } else {
                lemma_place_width(font, scale, origin_x, s0, c);
            }
        }
    }
}

/// With non-negative tracking, a line's box is exactly as wide as the pen
/// reaches: the last glyph's column plus its scaled advance (zero for a line
/// without glyphs), clamped to `u16`.
pub proof fn lemma_line_width(font: &Font, text: Seq<char>, options: TextOptions)
    requires
        font.tracking >= 0,
        text.len() <= 1000,
        forall|k: int| 0 <= k < text.len() ==> text[k] != '\n',
    ensures
        ({
            let g = text_layout(font, 0, 0, text, options).glyphs;
            text_measurement(font, text, options).width == if g.len() == 0 {
                0
            } else {
                sat_u16(g.last().x + advance_or_zero(font, g.last().index) * effective_scale(options))
            }
        }),
{
    let scale = effective_scale(options);
    lemma_run_pen(font, scale, 0, 0, text);
    lemma_run_width(font, scale, 0, 0, text);
}

} // verus!
