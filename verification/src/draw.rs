//! Drawing text into a target that blends one-bit mask rows.
use vstd::prelude::*;

use crate::font::Font;
use crate::layout::{
    effective_scale, layout_text, sat_i32, text_layout, PlacedGlyph, TextOptions,
};
use crate::mask::{bit_of, byte_from_bits, pixel, MaskOp};

verus! {

/// One blend of a mask row into a target: `width` LSB-first bits of `mask`
/// at column `x` of row `y`.
pub struct MaskRow {
    pub x: i32,
    pub y: i32,
    pub mask: Seq<u8>,
    pub width: usize,
    pub op: MaskOp,
}

/// Something text can be drawn into, one mask row at a time.
pub trait TextTarget: View + Sized {
    /// The target's state after one blend.
    spec fn blended(state: Self::V, row: MaskRow) -> Self::V;

    /// Blend `width` LSB-first mask bits into one display row. Set mask bits
    /// are affected and clear mask bits are transparent. The target clips.
    fn blend_mask_row(&mut self, x: i32, y: i32, mask: &[u8], width: usize, op: MaskOp)
        ensures
            final(self)@ == Self::blended(
                old(self)@,
                (MaskRow { x, y, mask: mask@, width, op }),
            ),
    ;
}

/// The target's state after the blends of `rows`, in order.
pub open spec fn apply_rows<T: TextTarget>(state: T::V, rows: Seq<MaskRow>) -> T::V
    decreases rows.len(),
{
    if rows.len() == 0 {
        state
    } else {
        T::blended(apply_rows::<T>(state, rows.drop_last()), rows.last())
    }
}

/// Blending two runs of rows is blending their concatenation.
pub proof fn lemma_apply_rows_concat<T: TextTarget>(state: T::V, a: Seq<MaskRow>, b: Seq<MaskRow>)
    ensures
        apply_rows::<T>(state, a + b) == apply_rows::<T>(apply_rows::<T>(state, a), b),
    decreases b.len(),
{
    if b.len() == 0 {
        assert(a + b =~= a);
    } else {
        assert((a + b).drop_last() =~= a + b.drop_last());
        lemma_apply_rows_concat::<T>(state, a, b.drop_last());
    }
}

/// The colour set mask bits paint.
pub open spec fn mask_op(options: TextOptions) -> MaskOp {
    if options.black {
        MaskOp::PaintBlack
    } else {
        MaskOp::PaintWhite
    }
}

/// Whether bit `b` of a mask row stretched `scale` times is set: the first
/// `chunk_width` source bits from `source_x`, each repeated `scale` times.
pub open spec fn stretched_bit(
    row: Seq<u8>,
    source_x: int,
    chunk_width: int,
    scale: int,
    b: int,
) -> bool {
    0 <= b < chunk_width * scale && pixel(row, source_x + b / scale)
}

/// Bytes of `chunk_width` source bits from `source_x`, each repeated `scale` times.
pub open spec fn stretched_mask(row: Seq<u8>, source_x: int, chunk_width: int, scale: int) -> Seq<
    u8,
> {
    Seq::new(
        ((chunk_width * scale + 7) / 8) as nat,
        |j: int|
            byte_from_bits(
                stretched_bit(row, source_x, chunk_width, scale, 8 * j),
                stretched_bit(row, source_x, chunk_width, scale, 8 * j + 1),
                stretched_bit(row, source_x, chunk_width, scale, 8 * j + 2),
                stretched_bit(row, source_x, chunk_width, scale, 8 * j + 3),
                stretched_bit(row, source_x, chunk_width, scale, 8 * j + 4),
                stretched_bit(row, source_x, chunk_width, scale, 8 * j + 5),
                stretched_bit(row, source_x, chunk_width, scale, 8 * j + 6),
                stretched_bit(row, source_x, chunk_width, scale, 8 * j + 7),
            ),
    )
}

pub open spec fn min_int(a: int, b: int) -> int {
    if a <= b {
        a
    } else {
        b
    }
}

/// The blend for chunk `c` (source bits `8c..8c+8`) of a scaled mask row.
pub open spec fn scaled_chunk(
    x: i32,
    y: i32,
    row: Seq<u8>,
    width: int,
    scale: int,
    op: MaskOp,
    c: int,
) -> MaskRow {
    let source_x = 8 * c;
    let chunk_width = min_int(width - source_x, 8);
    MaskRow {
        x: sat_i32(x + min_int(source_x * scale, i32::MAX as int)),
        y,
        mask: stretched_mask(row, source_x, chunk_width, scale),
        width: (chunk_width * scale) as usize,
        op,
    }
}

/// The blends for the first `n` chunks of a scaled mask row.
pub open spec fn scaled_chunks(
    x: i32,
    y: i32,
    row: Seq<u8>,
    width: int,
    scale: int,
    op: MaskOp,
    n: nat,
) -> Seq<MaskRow>
    decreases n,
{
    if n == 0 {
        Seq::empty()
    } else {
        scaled_chunks(x, y, row, width, scale, op, (n - 1) as nat).push(
            scaled_chunk(x, y, row, width, scale, op, n - 1),
        )
    }
}

/// The blends that draw one mask row at `scale`: the row itself when the
/// scale is one, else the row cut into eight-bit chunks, each stretched.
pub open spec fn scaled_row(
    x: i32,
    y: i32,
    row: Seq<u8>,
    width: int,
    scale: int,
    op: MaskOp,
) -> Seq<MaskRow> {
    if scale == 1 {
        seq![MaskRow { x, y, mask: row, width: width as usize, op }]
    } else {
        scaled_chunks(x, y, row, width, scale, op, ((width + 7) / 8) as nat)
    }
}


proof fn lemma_set_bit(b: u8, k: u8, k2: u8)
    requires
        k < 8,
        k2 < 8,
    ensures
        bit_of(b | (1u8 << k), k2) == (k2 == k || bit_of(b, k2)),
{
    assert(k < 8 && k2 < 8 ==> ((((b | (1u8 << k)) >> k2) & 1u8 == 1u8) == (k2 == k || (b >> k2)
        & 1u8 == 1u8))) by (bit_vector);
}

proof fn lemma_test_bit(b: u8, k: u8)
    requires
        k < 8,
    ensures
        ((b & (1u8 << k)) == 0) == !bit_of(b, k),
{
    assert(k < 8 ==> (((b & (1u8 << k)) == 0u8) == !((b >> k) & 1u8 == 1u8))) by (bit_vector);
}

proof fn lemma_zero_bits(k: u8)
    requires
        k < 8,
    ensures
        !bit_of(0u8, k),
{
    assert(k < 8 ==> !((0u8 >> k) & 1u8 == 1u8)) by (bit_vector);
}

proof fn lemma_div_between(q: int, bit: int, scale: int)
    requires
        scale > 0,
        bit >= 0,
        bit * scale <= q < (bit + 1) * scale,
    ensures
        q / scale == bit,
{
    assert((bit + 1) * scale == bit * scale + scale) by (nonlinear_arith);
    assert(bit * scale == scale * bit) by (nonlinear_arith);
    vstd::arithmetic::div_mod::lemma_fundamental_div_mod_converse(q, scale, bit, q - bit * scale);
}

/// A byte equals `byte_from_bits` of its bits, read from a row at byte `j`.
proof fn lemma_byte_is_its_bits(row: Seq<u8>, j: int, b: u8, f: spec_fn(int) -> bool)
    requires
        forall|k: u8| k < 8 ==> bit_of(b, k) == f(8 * j + k),
    ensures
        b == byte_from_bits(
            f(8 * j),
            f(8 * j + 1),
            f(8 * j + 2),
            f(8 * j + 3),
            f(8 * j + 4),
            f(8 * j + 5),
            f(8 * j + 6),
            f(8 * j + 7),
        ),
{
    let c = byte_from_bits(
        f(8 * j),
        f(8 * j + 1),
        f(8 * j + 2),
        f(8 * j + 3),
        f(8 * j + 4),
        f(8 * j + 5),
        f(8 * j + 6),
        f(8 * j + 7),
    );
    assert forall|k: u8| k < 8 implies bit_of(b, k) == bit_of(c, k) by {
        crate::mask::lemma_byte_from_bits(
            k,
            f(8 * j),
            f(8 * j + 1),
            f(8 * j + 2),
            f(8 * j + 3),
            f(8 * j + 4),
            f(8 * j + 5),
            f(8 * j + 6),
            f(8 * j + 7),
        );
    }
    crate::mask::lemma_bits_determine_byte(b, c);
}

/// Draws one mask row scaled horizontally: each run of up to eight source
/// bits is stretched `scale` times and blended as one row.
fn draw_scaled_mask_row<T: TextTarget>(
    target: &mut T,
    x: i32,
    y: i32,
    mask: &[u8],
    width: usize,
    scale: usize,
    operation: MaskOp,
)
    requires
        1 <= scale <= 255,
        width <= mask@.len() * 8,
        width * scale <= usize::MAX,
    ensures
        final(target)@ == apply_rows::<T>(
            old(target)@,
            scaled_chunks(
                x,
                y,
                mask@,
                width as int,
                scale as int,
                operation,
                ((width + 7) / 8) as nat,
            ),
        ),
{
    // One source byte expands to at most 255 bytes because scale is a u8.
    let mut expanded = [0u8; 255];
    let mut source_x: usize = 0;
    while source_x < width
        invariant
            1 <= scale <= 255,
            width <= mask@.len() * 8,
            width * scale <= usize::MAX,
            source_x <= width,
            source_x < width ==> source_x % 8 == 0,
            expanded@.len() == 255,
            target@ == apply_rows::<T>(
                old(target)@,
                scaled_chunks(
                    x,
                    y,
                    mask@,
                    width as int,
                    scale as int,
                    operation,
                    ((source_x + 7) / 8) as nat,
                ),
            ),
        decreases width - source_x,
    {
        let chunk_width = if width - source_x < 8 {
            width - source_x
        } else {
            8
        };
        assert(chunk_width * scale <= 8 * 255) by (nonlinear_arith)
            requires
                chunk_width <= 8,
                scale <= 255,
        ;
        let expanded_width = chunk_width * scale;
        let expanded_bytes = (expanded_width + 7) / 8;
        let mut i: usize = 0;
        while i < expanded_bytes
            invariant
                expanded_bytes <= 255,
                i <= expanded_bytes,
                expanded@.len() == 255,
                forall|q: int| 0 <= q < i ==> expanded@[q] == 0,
            decreases expanded_bytes - i,
        {
            expanded[i] = 0;
            i += 1;
        }
        proof {
            assert forall|q: int| 0 <= q < 8 * expanded_bytes implies pixel(expanded@, q) == (q
                < 0 && pixel(mask@, source_x + q / (scale as int))) by {
                lemma_zero_bits((q % 8) as u8);
            }
        }
        let mut bit: usize = 0;
        while bit < chunk_width
            invariant
                1 <= scale <= 255,
                1 <= chunk_width <= 8,
                source_x + chunk_width <= width,
                width <= mask@.len() * 8,
                expanded_width == chunk_width * scale,
                expanded_bytes == (expanded_width + 7) / 8,
                expanded_bytes <= 255,
                bit <= chunk_width,
                expanded@.len() == 255,
                forall|q: int|
                    0 <= q < 8 * expanded_bytes ==> pixel(expanded@, q) == (q < bit * scale
                        && pixel(mask@, source_x + q / (scale as int))),
            decreases chunk_width - bit,
        {
            let source_bit = source_x + bit;
            assert(source_bit & 7 == source_bit % 8) by (bit_vector);
            proof {
                lemma_test_bit(mask@[(source_bit / 8) as int], (source_bit % 8) as u8);
            }
            assert((bit + 1) * scale == bit * scale + scale) by (nonlinear_arith);
            if mask[source_bit / 8] & (1u8 << ((source_bit & 7) as u8)) == 0 {
                proof {
                    assert(!pixel(mask@, source_x + bit));
                    assert forall|q: int| 0 <= q < 8 * expanded_bytes implies pixel(expanded@, q)
                        == (q < (bit + 1) * scale && pixel(
                        mask@,
                        source_x + q / (scale as int),
                    )) by {
                        if bit * scale <= q < (bit + 1) * scale {
                            lemma_div_between(q, bit as int, scale as int);
                            assert(q / (scale as int) == bit);
                        }
                    }
                }
            } else {
                assert(bit * scale + scale <= chunk_width * scale) by (nonlinear_arith)
                    requires
                        bit < chunk_width,
                ;
                let mut repeated_bit = bit * scale;
                while repeated_bit < (bit + 1) * scale
                    invariant
                        1 <= scale <= 255,
                        bit < chunk_width,
                        bit * scale <= repeated_bit <= (bit + 1) * scale,
                        (bit + 1) * scale <= expanded_width,
                        expanded_width == chunk_width * scale,
                        expanded_bytes == (expanded_width + 7) / 8,
                        expanded_bytes <= 255,
                        expanded@.len() == 255,
                        pixel(mask@, source_x + bit),
                        forall|q: int|
                            0 <= q < 8 * expanded_bytes ==> pixel(expanded@, q) == (q
                                < repeated_bit && pixel(mask@, source_x + q / (scale as int))),
                    decreases (bit + 1) * scale - repeated_bit,
                {
                    assert(repeated_bit & 7 == repeated_bit % 8) by (bit_vector);
                    let ghost before = expanded@;
                    let byte = repeated_bit / 8;
                    expanded[byte] = expanded[byte] | (1u8 << ((repeated_bit & 7) as u8));
                    proof {
                        lemma_div_between(repeated_bit as int, bit as int, scale as int);
                        assert forall|q: int| 0 <= q < 8 * expanded_bytes implies pixel(
                            expanded@,
                            q,
                        ) == (q < repeated_bit + 1 && pixel(mask@, source_x + q / (scale as int)))
                            by {
                            assert(pixel(before, q) == (q < repeated_bit && pixel(
                                mask@,
                                source_x + q / (scale as int),
                            )));
                            assert(expanded@ == before.update(
                                (repeated_bit / 8) as int,
                                before[(repeated_bit / 8) as int] | (1u8 << ((repeated_bit % 8)
                                    as u8)),
                            ));
                            lemma_set_bit(
                                before[(repeated_bit / 8) as int],
                                (repeated_bit % 8) as u8,
                                (q % 8) as u8,
                            );
                            if q / 8 != repeated_bit / 8 {
                                assert(expanded@[q / 8] == before[q / 8]);
                            } else {
                                assert(expanded@[q / 8] == before[q / 8] | (1u8 << ((
                                repeated_bit % 8) as u8)));
                            }
                            if q == repeated_bit {
                                assert(q / (scale as int) == bit);
                            }
                        }
                    }
                    repeated_bit += 1;
                }
            }
            bit += 1;
        }
        let ghost stretched = stretched_mask(
            mask@,
            source_x as int,
            chunk_width as int,
            scale as int,
        );
        let slice = &expanded[0..expanded_bytes];
        proof {
            assert forall|j: int| 0 <= j < expanded_bytes implies slice@[j] == stretched[j] by {
                let f = |b: int|
                    stretched_bit(mask@, source_x as int, chunk_width as int, scale as int, b);
                assert forall|k: u8| k < 8 implies bit_of(slice@[j], k) == f(8 * j + k) by {
                    assert((8 * j + k) / 8 == j && (8 * j + k) % 8 == k as int);
                    assert(slice@[j] == expanded@[j]);
                    assert(pixel(expanded@, 8 * j + k) == f(8 * j + k));
                }
                lemma_byte_is_its_bits(expanded@, j, slice@[j], f);
            }
            assert(slice@ =~= stretched);
        }
        assert(source_x * scale <= width * scale) by (nonlinear_arith)
            requires
                source_x <= width,
        ;
        let scaled_x = source_x * scale;
        let offset: i32 = if scaled_x > i32::MAX as usize {
            i32::MAX
        } else {
            scaled_x as i32
        };
        let destination_x = crate::layout::saturating_add_i32(x, offset);
        target.blend_mask_row(destination_x, y, slice, expanded_width, operation);
        proof {
            let n = ((source_x + 7) / 8) as nat;
            assert(source_x == 8 * n);
            let next = ((source_x + chunk_width + 7) / 8) as nat;
            assert(next == n + 1);
            assert(scaled_chunks(x, y, mask@, width as int, scale as int, operation, next).drop_last()
                =~= scaled_chunks(x, y, mask@, width as int, scale as int, operation, n));
        }
        source_x += chunk_width;
    }
}


/// The display row of repeat `repeat` of stored row `source_y` of a glyph
/// whose first stored row is drawn at `first_y`.
pub open spec fn glyph_row_y(first_y: i32, source_y: int, repeat: int, vertical_repeat: int) -> i32 {
    sat_i32(
        sat_i32(first_y + min_int(source_y * vertical_repeat, i32::MAX as int)) + min_int(
            repeat,
            i32::MAX as int,
        ),
    )
}

/// The blends for the first `n` display rows of a glyph: display row `t`
/// shows stored row `t / vertical_repeat`, `vertical_repeat` being the
/// font's row repeat times the scale.
pub open spec fn glyph_rows(
    font: &Font,
    glyph: Seq<u8>,
    x: i32,
    first_y: i32,
    scale: int,
    op: MaskOp,
    n: nat,
) -> Seq<MaskRow>
    decreases n,
{
    if n == 0 {
        Seq::empty()
    } else {
        let vertical_repeat = font.row_repeat * scale;
        let t = n - 1;
        let source_y = t / vertical_repeat;
        let row_bytes = font.spec_row_bytes();
        glyph_rows(font, glyph, x, first_y, scale, op, (n - 1) as nat) + scaled_row(
            x,
            glyph_row_y(first_y, source_y, t % vertical_repeat, vertical_repeat),
            glyph.subrange(source_y * row_bytes, source_y * row_bytes + row_bytes),
            font.width as int,
            scale,
            op,
        )
    }
}

/// The blends that draw one placed glyph: none when the glyph has no
/// bitmap, else every stored row, repeated `row_repeat * scale` times
/// downwards from the line box's top plus `top * scale`.
pub open spec fn glyph_draws(font: &Font, glyph: PlacedGlyph, options: TextOptions) -> Seq<MaskRow> {
    match font.spec_glyph_data(glyph.index) {
        None => Seq::empty(),
        Some(bitmap) => {
            let scale = effective_scale(options);
            glyph_rows(
                font,
                bitmap,
                glyph.x,
                sat_i32(glyph.y + font.top * scale),
                scale,
                mask_op(options),
                (font.rows * (font.row_repeat * scale)) as nat,
            )
        },
    }
}

/// The blends that draw the placed glyphs, in order.
pub open spec fn text_draws(font: &Font, glyphs: Seq<PlacedGlyph>, options: TextOptions) -> Seq<
    MaskRow,
>
    decreases glyphs.len(),
{
    if glyphs.len() == 0 {
        Seq::empty()
    } else {
        text_draws(font, glyphs.drop_last(), options) + glyph_draws(font, glyphs.last(), options)
    }
}

/// The blends that draw `text` with the top-left of its first line box at
/// `(x, y)`: the glyphs of the text's layout, one after another.
pub open spec fn draw_text_rows(
    x: i32,
    y: i32,
    font: &Font,
    text: Seq<char>,
    options: TextOptions,
) -> Seq<MaskRow> {
    text_draws(font, text_layout(font, x, y, text, options).glyphs, options)
}

fn draw_glyph<T: TextTarget>(
    target: &mut T,
    x: i32,
    line_y: i32,
    font: &Font,
    glyph_index: usize,
    options: TextOptions,
)
    ensures
        final(target)@ == apply_rows::<T>(
            old(target)@,
            glyph_draws(font, (PlacedGlyph { index: glyph_index, x, y: line_y }), options),
        ),
{
    let glyph = match font.glyph_data(glyph_index) {
        Some(glyph) => glyph,
        None => return ,
    };
    let scale: usize = if options.scale == 0 {
        1
    } else {
        options.scale as usize
    };
    let row_bytes = font.row_bytes();
    let operation = if options.black {
        MaskOp::PaintBlack
    } else {
        MaskOp::PaintWhite
    };
    assert(0 <= font.top * scale <= 255 * 255) by (nonlinear_arith)
        requires
            1 <= scale <= 255,
    ;
    let first_y = crate::layout::saturating_add_i32(line_y, font.top as i32 * scale as i32);
    assert(0 <= font.row_repeat * scale <= 255 * 255) by (nonlinear_arith)
        requires
            1 <= scale <= 255,
    ;
    let vertical_repeat = font.row_repeat as usize * scale;
    let rows = font.rows as usize;
    assert((glyph_index + 1) * (row_bytes * rows) - glyph_index * (row_bytes * rows) == row_bytes
        * rows) by (nonlinear_arith);
    assert(glyph@.len() == row_bytes * rows);
    assert(rows * row_bytes <= 255 * 32) by (nonlinear_arith)
        requires
            rows <= 255,
            row_bytes <= 32,
    ;
    let ghost scale_int = scale as int;
    assert(scale_int == effective_scale(options));
    let mut source_y: usize = 0;
    while source_y < rows
        invariant
            glyph@.len() == row_bytes * rows,
            row_bytes == font.spec_row_bytes(),
            row_bytes <= 32,
            rows == font.rows,
            1 <= scale <= 255,
            scale_int == scale,
            vertical_repeat == font.row_repeat * scale,
            vertical_repeat <= 255 * 255,
            first_y == sat_i32(line_y + font.top * scale_int),
            operation == mask_op(options),
            source_y <= rows,
            target@ == apply_rows::<T>(
                old(target)@,
                glyph_rows(
                    font,
                    glyph@,
                    x,
                    first_y,
                    scale_int,
                    operation,
                    (source_y * vertical_repeat) as nat,
                ),
            ),
        decreases rows - source_y,
    {
        assert(source_y * row_bytes + row_bytes <= rows * row_bytes) by (nonlinear_arith)
            requires
                source_y < rows,
        ;
        assert(row_bytes * rows == rows * row_bytes) by (nonlinear_arith);
        assert(rows * row_bytes <= 255 * 32) by (nonlinear_arith)
            requires
                rows <= 255,
                row_bytes <= 32,
        ;
        let row_start = source_y * row_bytes;
        let row = &glyph[row_start..row_start + row_bytes];
        assert(source_y * vertical_repeat <= 255 * (255 * 255)) by (nonlinear_arith)
            requires
                source_y < 255,
                vertical_repeat <= 255 * 255,
        ;
        let row_offset = source_y * vertical_repeat;
        let row_offset_i32: i32 = if row_offset > i32::MAX as usize {
            i32::MAX
        } else {
            row_offset as i32
        };
        let destination_y = crate::layout::saturating_add_i32(first_y, row_offset_i32);
        let mut repeat: usize = 0;
        while repeat < vertical_repeat
            invariant
                glyph@.len() == row_bytes * rows,
                row_bytes == font.spec_row_bytes(),
                row_bytes <= 32,
                rows == font.rows,
                1 <= scale <= 255,
                scale_int == scale,
                vertical_repeat == font.row_repeat * scale,
                vertical_repeat <= 255 * 255,
                source_y < rows,
                row_offset == source_y * vertical_repeat,
                source_y * row_bytes + row_bytes <= glyph@.len(),
                row@.len() == row_bytes,
                font.width <= row_bytes * 8,
                destination_y == sat_i32(first_y + min_int(row_offset as int, i32::MAX as int)),
                row@ == glyph@.subrange(
                    source_y * row_bytes,
                    source_y * row_bytes + row_bytes,
                ),
                repeat <= vertical_repeat,
                target@ == apply_rows::<T>(
                    old(target)@,
                    glyph_rows(
                        font,
                        glyph@,
                        x,
                        first_y,
                        scale_int,
                        operation,
                        (source_y * vertical_repeat + repeat) as nat,
                    ),
                ),
            decreases vertical_repeat - repeat,
        {
            let repeat_i32: i32 = if repeat > i32::MAX as usize {
                i32::MAX
            } else {
                repeat as i32
            };
            let y = crate::layout::saturating_add_i32(destination_y, repeat_i32);
            let ghost before = target@;
            let ghost n = (source_y * vertical_repeat + repeat) as nat;
            proof {
                vstd::arithmetic::div_mod::lemma_fundamental_div_mod_converse(
                    n as int,
                    vertical_repeat as int,
                    source_y as int,
                    repeat as int,
                );
                assert(source_y * vertical_repeat == vertical_repeat * source_y) by (
                nonlinear_arith);
            }
            let ghost new_rows = scaled_row(
                x,
                y,
                row@,
                font.width as int,
                scale_int,
                operation,
            );
            assert(glyph_rows(font, glyph@, x, first_y, scale_int, operation, (n + 1) as nat)
                == glyph_rows(font, glyph@, x, first_y, scale_int, operation, n) + new_rows);
            if scale == 1 {
                target.blend_mask_row(x, y, row, font.width as usize, operation);
                proof {
                    lemma_apply_rows_concat::<T>(
                        old(target)@,
                        glyph_rows(font, glyph@, x, first_y, scale_int, operation, n),
                        new_rows,
                    );
                    assert(new_rows.drop_last() =~= Seq::<MaskRow>::empty());
                    assert(apply_rows::<T>(before, Seq::<MaskRow>::empty()) == before);
                }
            } else {
                assert(font.width * scale <= 255 * 255) by (nonlinear_arith)
                    requires
                        scale <= 255,
                ;
                assert(font.width <= row@.len() * 8);
                draw_scaled_mask_row(target, x, y, row, font.width as usize, scale, operation);
                proof {
                    lemma_apply_rows_concat::<T>(
                        old(target)@,
                        glyph_rows(font, glyph@, x, first_y, scale_int, operation, n),
                        new_rows,
                    );
                }
            }
            repeat += 1;
        }
        assert(source_y * vertical_repeat + vertical_repeat == (source_y + 1) * vertical_repeat)
            by (nonlinear_arith);
        source_y += 1;
    }
    assert(rows * vertical_repeat == font.rows * (font.row_repeat * scale_int));
}

/// Transparently draw text with `(x, y)` at the top-left of the first line
/// box. Only set glyph-mask bits modify the target.
pub fn draw_text<T: TextTarget>(
    target: &mut T,
    x: i32,
    y: i32,
    font: &Font,
    text: &str,
    options: TextOptions,
)
    ensures
        final(target)@ == apply_rows::<T>(old(target)@, draw_text_rows(x, y, font, text@, options)),
{
    let (_, glyphs) = layout_text(x, y, font, text, options);
    let mut i: usize = 0;
    while i < glyphs.len()
        invariant
            i <= glyphs@.len(),
            glyphs@ == text_layout(font, x, y, text@, options).glyphs,
            target@ == apply_rows::<T>(old(target)@, text_draws(font, glyphs@.take(i as int), options)),
        decreases glyphs.len() - i,
    {
        let glyph = glyphs[i];
        draw_glyph(target, glyph.x, glyph.y, font, glyph.index, options);
        proof {
            assert(glyphs@.take(i + 1).drop_last() =~= glyphs@.take(i as int));
            lemma_apply_rows_concat::<T>(
                old(target)@,
                text_draws(font, glyphs@.take(i as int), options),
                glyph_draws(font, glyph, options),
            );
        }
        i += 1;
    }
    assert(glyphs@.take(glyphs@.len() as int) =~= glyphs@);
}


proof fn lemma_text_draws_scale_zero(font: &Font, glyphs: Seq<PlacedGlyph>, black: bool)
    ensures
        text_draws(font, glyphs, TextOptions { black, scale: 0 }) == text_draws(
            font,
            glyphs,
            TextOptions { black, scale: 1 },
        ),
    decreases glyphs.len(),
{
    if glyphs.len() > 0 {
        lemma_text_draws_scale_zero(font, glyphs.drop_last(), black);
    }
}

/// Scale zero draws as scale one.
pub proof fn lemma_draw_scale_zero_is_one(
    x: i32,
    y: i32,
    font: &Font,
    text: Seq<char>,
    black: bool,
)
    ensures
        draw_text_rows(x, y, font, text, TextOptions { black, scale: 0 }) == draw_text_rows(
            x,
            y,
            font,
            text,
            TextOptions { black, scale: 1 },
        ),
{
    lemma_text_draws_scale_zero(
        font,
        text_layout(font, x, y, text, TextOptions { black, scale: 1 }).glyphs,
        black,
    );
}


/// Bit `b` of a stretched mask is the source bit it repeats.
pub proof fn lemma_stretched_pixel(row: Seq<u8>, source_x: int, chunk_width: int, scale: int, b: int)
    requires
        chunk_width >= 0,
        scale >= 1,
    ensures
        pixel(stretched_mask(row, source_x, chunk_width, scale), b) == stretched_bit(
            row,
            source_x,
            chunk_width,
            scale,
            b,
        ),
{
    let m = stretched_mask(row, source_x, chunk_width, scale);
    assert(chunk_width * scale >= 0) by (nonlinear_arith)
        requires
            chunk_width >= 0,
            scale >= 1,
    ;
    if 0 <= b < m.len() * 8 {
        let j = b / 8;
        let k = (b % 8) as u8;
        crate::mask::lemma_byte_from_bits(
            k,
            stretched_bit(row, source_x, chunk_width, scale, 8 * j),
            stretched_bit(row, source_x, chunk_width, scale, 8 * j + 1),
            stretched_bit(row, source_x, chunk_width, scale, 8 * j + 2),
            stretched_bit(row, source_x, chunk_width, scale, 8 * j + 3),
            stretched_bit(row, source_x, chunk_width, scale, 8 * j + 4),
            stretched_bit(row, source_x, chunk_width, scale, 8 * j + 5),
            stretched_bit(row, source_x, chunk_width, scale, 8 * j + 6),
            stretched_bit(row, source_x, chunk_width, scale, 8 * j + 7),
        );
        assert(8 * j + k == b);
    }
}

} // verus!
