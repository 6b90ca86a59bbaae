//! One-bit, LSB-left pixel rows and the blending of ink masks into them.
//!
//! A row is a sequence of bytes; pixel `p` lives in byte `p / 8` at bit
//! `p % 8`. On the display a set bit is white and a clear bit is black.
use vstd::prelude::*;

verus! {

/// What a blend does to the destination pixels that a mask covers.
#[derive(Clone, Copy, Debug, PartialEq, Eq)]
pub enum MaskOp {
    /// Clear covered bits (black on the panel).
    PaintBlack,
    /// Set covered bits (white on the panel).
    PaintWhite,
}

/// Bit `k` (0 = least significant) of a byte.
pub open spec fn bit_of(b: u8, k: u8) -> bool {
    (b >> k) & 1u8 == 1u8
}

/// Pixel `p` of an LSB-left one-bit row; pixels outside the row are clear.
pub open spec fn pixel(row: Seq<u8>, p: int) -> bool {
    0 <= p < row.len() * 8 && bit_of(row[p / 8], (p % 8) as u8)
}

/// The byte whose bit `k` is `bk`.
pub open spec fn byte_from_bits(
    b0: bool,
    b1: bool,
    b2: bool,
    b3: bool,
    b4: bool,
    b5: bool,
    b6: bool,
    b7: bool,
) -> u8 {
    (if b0 { 1u8 } else { 0u8 }) | (if b1 { 2u8 } else { 0u8 }) | (if b2 { 4u8 } else { 0u8 }) | (
    if b3 { 8u8 } else { 0u8 }) | (if b4 { 16u8 } else { 0u8 }) | (if b5 { 32u8 } else { 0u8 }) | (
    if b6 { 64u8 } else { 0u8 }) | (if b7 { 128u8 } else { 0u8 })
}

/// Whether a mask of `width` LSB-first bits placed at column `x` inks pixel `p`.
pub open spec fn covered(x: int, mask: Seq<u8>, width: int, p: int) -> bool {
    x <= p < x + width && pixel(mask, p - x)
}

/// The ink bits that a mask placed at column `x` puts into destination byte `j`.
pub open spec fn ink_byte(x: int, mask: Seq<u8>, width: int, j: int) -> u8 {
    byte_from_bits(
        covered(x, mask, width, 8 * j),
        covered(x, mask, width, 8 * j + 1),
        covered(x, mask, width, 8 * j + 2),
        covered(x, mask, width, 8 * j + 3),
        covered(x, mask, width, 8 * j + 4),
        covered(x, mask, width, 8 * j + 5),
        covered(x, mask, width, 8 * j + 6),
        covered(x, mask, width, 8 * j + 7),
    )
}

/// A destination byte after painting its `ink` bits.
pub open spec fn paint(b: u8, ink: u8, op: MaskOp) -> u8 {
    match op {
        MaskOp::PaintBlack => b & !ink,
        MaskOp::PaintWhite => b | ink,
    }
}

/// A row after blending `width` bits of `mask` into it at column `x`: covered
/// pixels take the colour of `op`, all others keep theirs, and nothing
/// outside the row is written.
pub open spec fn blend_row(row: Seq<u8>, x: int, mask: Seq<u8>, width: int, op: MaskOp) -> Seq<
    u8,
> {
    Seq::new(row.len(), |j: int| paint(row[j], ink_byte(x, mask, width, j), op))
}

/// Selects `bk` for `k` in `0..8`.
pub open spec fn select_bit(
    k: u8,
    b0: bool,
    b1: bool,
    b2: bool,
    b3: bool,
    b4: bool,
    b5: bool,
    b6: bool,
    b7: bool,
) -> bool {
    ||| (k == 0 && b0)
    ||| (k == 1 && b1)
    ||| (k == 2 && b2)
    ||| (k == 3 && b3)
    ||| (k == 4 && b4)
    ||| (k == 5 && b5)
    ||| (k == 6 && b6)
    ||| (k == 7 && b7)
}

pub(crate) proof fn lemma_byte_from_bits(
    k: u8,
    b0: bool,
    b1: bool,
    b2: bool,
    b3: bool,
    b4: bool,
    b5: bool,
    b6: bool,
    b7: bool,
)
    requires
        k < 8,
    ensures
        bit_of(byte_from_bits(b0, b1, b2, b3, b4, b5, b6, b7), k) == select_bit(
            k,
            b0,
            b1,
            b2,
            b3,
            b4,
            b5,
            b6,
            b7,
        ),
{
    assert(k < 8 ==> (((((if b0 { 1u8 } else { 0u8 }) | (if b1 { 2u8 } else { 0u8 }) | (if b2 {
        4u8
    } else {
        0u8
    }) | (if b3 { 8u8 } else { 0u8 }) | (if b4 { 16u8 } else { 0u8 }) | (if b5 { 32u8 } else {
        0u8
    }) | (if b6 { 64u8 } else { 0u8 }) | (if b7 { 128u8 } else { 0u8 })) >> k) & 1u8 == 1u8) == (
    (k == 0 && b0) || (k == 1 && b1) || (k == 2 && b2) || (k == 3 && b3) || (k == 4 && b4) || (k
        == 5 && b5) || (k == 6 && b6) || (k == 7 && b7)))) by (bit_vector);
}

/// Two bytes with the same eight bits are equal.
pub(crate) proof fn lemma_bits_determine_byte(a: u8, b: u8)
    requires
        forall|k: u8| k < 8 ==> bit_of(a, k) == bit_of(b, k),
    ensures
        a == b,
{
    assert(bit_of(a, 0) == bit_of(b, 0));
    assert(bit_of(a, 1) == bit_of(b, 1));
    assert(bit_of(a, 2) == bit_of(b, 2));
    assert(bit_of(a, 3) == bit_of(b, 3));
    assert(bit_of(a, 4) == bit_of(b, 4));
    assert(bit_of(a, 5) == bit_of(b, 5));
    assert(bit_of(a, 6) == bit_of(b, 6));
    assert(bit_of(a, 7) == bit_of(b, 7));
    assert(((a >> 0u8) & 1u8 == 1u8) == ((b >> 0u8) & 1u8 == 1u8) && ((a >> 1u8) & 1u8 == 1u8) == (
    (b >> 1u8) & 1u8 == 1u8) && ((a >> 2u8) & 1u8 == 1u8) == ((b >> 2u8) & 1u8 == 1u8) && ((a
        >> 3u8) & 1u8 == 1u8) == ((b >> 3u8) & 1u8 == 1u8) && ((a >> 4u8) & 1u8 == 1u8) == ((b
        >> 4u8) & 1u8 == 1u8) && ((a >> 5u8) & 1u8 == 1u8) == ((b >> 5u8) & 1u8 == 1u8) && ((a
        >> 6u8) & 1u8 == 1u8) == ((b >> 6u8) & 1u8 == 1u8) && ((a >> 7u8) & 1u8 == 1u8) == ((b
        >> 7u8) & 1u8 == 1u8) ==> a == b) by (bit_vector);
}

proof fn lemma_window_bits(lo: u8, hi: u8, sh: u8, i: u8)
    requires
        sh < 8,
        i < 8,
    ensures
        bit_of(((((lo as u16) | ((hi as u16) << 8u16)) >> (sh as u16)) as u8), i) == if sh + i
            < 8 {
            bit_of(lo, (sh + i) as u8)
        } else {
            bit_of(hi, (sh + i - 8) as u8)
        },
{
    assert(sh < 8 && i < 8 ==> ((((((lo as u16) | ((hi as u16) << 8u16)) >> (sh as u16)) as u8)
        >> i) & 1u8 == 1u8) == if sh + i < 8 {
        (lo >> ((sh + i) as u8)) & 1u8 == 1u8
    } else {
        (hi >> ((sh + i - 8) as u8)) & 1u8 == 1u8
    }) by (bit_vector);
}

/// Eight mask bits starting at `source_bit`, with bits past the mask clear.
fn mask_window(mask: &[u8], source_bit: usize) -> (r: u8)
    ensures
        forall|i: u8| i < 8 ==> bit_of(r, i) == pixel(mask@, source_bit + i),
{
    let byte = source_bit / 8;
    let shift = source_bit & 7;
    assert(source_bit & 7 == source_bit % 8) by (bit_vector);
    let low: u8 = if byte < mask.len() {
        mask[byte]
    } else {
        0
    };
    let high: u8 = if byte + 1 < mask.len() {
        mask[byte + 1]
    } else {
        0
    };
    let r = ((low as u16 | ((high as u16) << 8u16)) >> (shift as u16)) as u8;
    assert forall|i: u8| i < 8 implies bit_of(r, i) == pixel(mask@, source_bit + i) by {
        lemma_window_bits(low, high, shift as u8, i);
        assert(!bit_of(0u8, ((shift + i) % 8) as u8)) by {
            assert(((shift + i) % 8) < 8);
            let k = ((shift + i) % 8) as u8;
            assert(k < 8 ==> (0u8 >> k) & 1u8 != 1u8) by (bit_vector);
        }
        let p = source_bit + i;
        if shift + i < 8 {
            assert(p / 8 == byte && p % 8 == shift + i);
        } else {
            assert(p / 8 == byte + 1 && p % 8 == shift + i - 8);
        }
    }
    r
}


proof fn lemma_paint_bit(b: u8, ink: u8, op: MaskOp, k: u8)
    requires
        k < 8,
    ensures
        bit_of(paint(b, ink, op), k) == if bit_of(ink, k) {
            op == MaskOp::PaintWhite
        } else {
            bit_of(b, k)
        },
{
    match op {
        MaskOp::PaintBlack => {
            assert(k < 8 ==> (((b & !ink) >> k) & 1u8 == 1u8) == if (ink >> k) & 1u8 == 1u8 {
                false
            } else {
                (b >> k) & 1u8 == 1u8
            }) by (bit_vector);
        },
        MaskOp::PaintWhite => {
            assert(k < 8 ==> (((b | ink) >> k) & 1u8 == 1u8) == if (ink >> k) & 1u8 == 1u8 {
                true
            } else {
                (b >> k) & 1u8 == 1u8
            }) by (bit_vector);
        },
    }
}

proof fn lemma_ink_byte_bit(x: int, mask: Seq<u8>, width: int, j: int, k: u8)
    requires
        k < 8,
    ensures
        bit_of(ink_byte(x, mask, width, j), k) == covered(x, mask, width, 8 * j + k),
{
    lemma_byte_from_bits(
        k,
        covered(x, mask, width, 8 * j),
        covered(x, mask, width, 8 * j + 1),
        covered(x, mask, width, 8 * j + 2),
        covered(x, mask, width, 8 * j + 3),
        covered(x, mask, width, 8 * j + 4),
        covered(x, mask, width, 8 * j + 5),
        covered(x, mask, width, 8 * j + 6),
        covered(x, mask, width, 8 * j + 7),
    );
}

/// Blending sets exactly the covered pixels to the colour of `op` (a set
/// bit is white), leaves every other pixel of the row as it was, and keeps
/// the row's length: the mask is clipped to the row.
pub proof fn lemma_blend_row_pixels(
    row: Seq<u8>,
    x: int,
    mask: Seq<u8>,
    width: int,
    op: MaskOp,
    p: int,
)
    ensures
        blend_row(row, x, mask, width, op).len() == row.len(),
        pixel(blend_row(row, x, mask, width, op), p) == if 0 <= p < row.len() * 8 && covered(
            x,
            mask,
            width,
            p,
        ) {
            op == MaskOp::PaintWhite
        } else {
            pixel(row, p)
        },
{
    if 0 <= p < row.len() * 8 {
        let j = p / 8;
        let k = (p % 8) as u8;
        lemma_ink_byte_bit(x, mask, width, j, k);
        lemma_paint_bit(row[j], ink_byte(x, mask, width, j), op, k);
        assert(8 * j + k == p);
    }
}

/// A byte painted with no ink is unchanged.
proof fn lemma_paint_no_ink(b: u8, op: MaskOp)
    ensures
        paint(b, 0, op) == b,
{
    assert(b & !0u8 == b) by (bit_vector);
    assert(b | 0u8 == b) by (bit_vector);
}

/// A byte none of whose pixels is covered receives no ink.
proof fn lemma_ink_byte_empty(x: int, mask: Seq<u8>, width: int, j: int)
    requires
        forall|p: int| 8 * j <= p < 8 * j + 8 ==> !#[trigger] covered(x, mask, width, p),
    ensures
        ink_byte(x, mask, width, j) == 0,
{
    assert(!covered(x, mask, width, 8 * j + 0));
    assert(!covered(x, mask, width, 8 * j + 1));
    assert(!covered(x, mask, width, 8 * j + 2));
    assert(!covered(x, mask, width, 8 * j + 3));
    assert(!covered(x, mask, width, 8 * j + 4));
    assert(!covered(x, mask, width, 8 * j + 5));
    assert(!covered(x, mask, width, 8 * j + 6));
    assert(!covered(x, mask, width, 8 * j + 7));
    assert(byte_from_bits(false, false, false, false, false, false, false, false) == 0) by (
    bit_vector);
}

/// Inside the row, a pixel is covered exactly when it lies in the clipped
/// span of the mask and its mask bit is set.
proof fn lemma_covered_clip(x: int, mask: Seq<u8>, width: int, row_len: int, p: int)
    requires
        0 <= p < row_len * 8,
        width >= 0,
    ensures
        covered(x, mask, width, p) == ({
            let w: int = if width < mask.len() * 8 {
                width
            } else {
                mask.len() * 8 as int
            };
            let cl = if x > 0 {
                x
            } else {
                0
            };
            let cr = if x + w < row_len * 8 {
                x + w
            } else {
                row_len * 8
            };
            cl <= p < cr && pixel(mask, p - x)
        }),
{
}

proof fn lemma_ink_bits(window: u8, shift: u8, count: u16, k: u8)
    requires
        1 <= count,
        shift as int + count as int <= 8,
        k < 8,
    ensures
        bit_of(
            (window << shift) & (((((1u16 << count) - 1u16) as u16) << (shift as u16)) & 0xffu16) as u8,
            k,
        ) == (shift <= k < shift as int + count as int && bit_of(window, (k - shift) as u8)),
{
    assert(1 <= count && shift as int + count as int <= 8 && k < 8 ==> ((((window << shift) & (((
    ((1u16 << count) - 1u16) as u16) << (shift as u16)) & 0xffu16) as u8) >> k) & 1u8 == 1u8) == (shift
        <= k && k < shift + count && (window >> ((k - shift) as u8)) & 1u8 == 1u8)) by (bit_vector);
}

/// The ink for destination byte `b` of a row, given the mask span clipped to
/// the row, `clipped_left..clipped_right`, and the mask bit at `clipped_left`.
fn byte_ink(
    mask: &[u8],
    x: i32,
    width: usize,
    clipped_left: usize,
    clipped_right: usize,
    source_start: usize,
    b: usize,
) -> (ink: u8)
    requires
        clipped_left < clipped_right,
        clipped_left / 8 <= b <= (clipped_right - 1) / 8,
        source_start == clipped_left - x,
        clipped_right <= x + width,
        b * 8 + 8 <= usize::MAX,
        forall|p: int|
            8 * b <= p < 8 * b + 8 ==> covered(x as int, mask@, width as int, p) == (clipped_left
                <= p < clipped_right && pixel(mask@, p - x)),
    ensures
        ink == ink_byte(x as int, mask@, width as int, b as int),
{
    let destination_left = b * 8;
    let overlap_left = if clipped_left > destination_left {
        clipped_left
    } else {
        destination_left
    };
    let overlap_right = if clipped_right < destination_left + 8 {
        clipped_right
    } else {
        destination_left + 8
    };
    let bit_count = overlap_right - overlap_left;
    let destination_shift = overlap_left - destination_left;
    let source_bit = source_start + (overlap_left - clipped_left);
    let bc16 = bit_count as u16;
    assert(1u16 <= bc16 <= 8u16 ==> (1u16 << bc16) >= 1u16) by (bit_vector);
    let valid_bits = ((((1u16 << bc16) - 1u16) << (destination_shift as u16)) & 0xffu16) as u8;
    let window = mask_window(mask, source_bit);
    let ink = (window << (destination_shift as u8)) & valid_bits;
    proof {
        assert forall|k: u8| k < 8 implies bit_of(ink, k) == bit_of(
            ink_byte(x as int, mask@, width as int, b as int),
            k,
        ) by {
            lemma_ink_bits(window, destination_shift as u8, bit_count as u16, k);
            lemma_ink_byte_bit(x as int, mask@, width as int, b as int, k);
            if destination_shift <= k < destination_shift + bit_count {
                assert(source_bit + (k - destination_shift) == 8 * b + k - x);
            }
            assert(covered(x as int, mask@, width as int, 8 * b + k) == (clipped_left <= 8 * b + k
                < clipped_right && pixel(mask@, 8 * b + k - x)));
        }
        lemma_bits_determine_byte(ink, ink_byte(x as int, mask@, width as int, b as int));
    }
    ink
}

/// Blend `width` LSB-first bits of `mask` into an LSB-left one-bit row whose
/// set bits are white, with the mask's first bit at column `x`. Only set mask
/// bits change the row, and the mask is clipped to it. Returns true exactly
/// when the row changed.
pub fn blend_mask_into_row(
    destination: &mut [u8],
    x: i32,
    mask: &[u8],
    width: usize,
    op: MaskOp,
) -> (changed: bool)
    requires
        old(destination)@.len() * 8 <= usize::MAX,
    ensures
        final(destination)@ == blend_row(old(destination)@, x as int, mask@, width as int, op),
        changed == (final(destination)@ != old(destination)@),
{
    let ghost old_row = destination@;
    let ghost dlen = destination@.len() as int;
    let mask_bits: i128 = mask.len() as i128 * 8;
    let w: i128 = if (width as i128) < mask_bits {
        width as i128
    } else {
        mask_bits
    };
    let mask_left = x as i128;
    let mask_right = mask_left + w;
    let dest_bits = destination.len() as i128 * 8;
    let cl: i128 = if mask_left > 0 {
        mask_left
    } else {
        0
    };
    let cr: i128 = if mask_right < dest_bits {
        mask_right
    } else {
        dest_bits
    };
    proof {
        assert forall|p: int| 0 <= p < dlen * 8 implies covered(
            x as int,
            mask@,
            width as int,
            p,
        ) == (cl <= p < cr && pixel(mask@, p - x)) by {
            lemma_covered_clip(x as int, mask@, width as int, dlen, p);
        }
    }
    if w == 0 || destination.len() == 0 || cl >= cr {
        proof {
            assert forall|j: int| 0 <= j < dlen implies paint(
                old_row[j],
                ink_byte(x as int, mask@, width as int, j),
                op,
            ) == old_row[j] by {
                assert forall|p: int| 8 * j <= p < 8 * j + 8 implies !#[trigger] covered(
                    x as int,
                    mask@,
                    width as int,
                    p,
                ) by {
                    if w == 0 {
                        if width == 0 {
                        } else {
                            assert(mask@.len() == 0);
                        }
                    }
                }
                lemma_ink_byte_empty(x as int, mask@, width as int, j);
                lemma_paint_no_ink(old_row[j], op);
            }
            assert(blend_row(old_row, x as int, mask@, width as int, op) =~= old_row);
        }
        return false;
    }
    let clipped_left = cl as usize;
    let clipped_right = cr as usize;
    let source_start = (cl - mask_left) as usize;
    let first_byte = clipped_left / 8;
    let last_byte = (clipped_right - 1) / 8;
    let mut changed = false;
    let mut b = first_byte;
    while b <= last_byte
        invariant
            destination@.len() == dlen,
            dlen == old_row.len(),
            dlen * 8 <= usize::MAX,
            0 <= cl < cr <= dlen * 8,
            cr <= x + width,
            clipped_left == cl,
            clipped_right == cr,
            source_start == cl - x,
            first_byte == clipped_left / 8,
            last_byte == (clipped_right - 1) / 8,
            first_byte <= b <= last_byte + 1,
            forall|p: int|
                0 <= p < dlen * 8 ==> covered(x as int, mask@, width as int, p) == (cl <= p < cr
                    && pixel(mask@, p - x)),
            forall|j: int|
                0 <= j < dlen ==> #[trigger] destination@[j] == if first_byte <= j < b {
                    paint(old_row[j], ink_byte(x as int, mask@, width as int, j), op)
                } else {
                    old_row[j]
                },
            changed == (destination@ != old_row),
        decreases last_byte + 1 - b,
    {
        let ink = byte_ink(mask, x, width, clipped_left, clipped_right, source_start, b);
        let old = destination[b];
        let new = match op {
            MaskOp::PaintBlack => old & !ink,
            MaskOp::PaintWhite => old | ink,
        };
        if new != old {
            destination[b] = new;
            changed = true;
        }
        b += 1;
    }
    proof {
        assert forall|j: int| 0 <= j < dlen implies #[trigger] destination@[j] == paint(
            old_row[j],
            ink_byte(x as int, mask@, width as int, j),
            op,
        ) by {
            if !(first_byte <= j < b) {
                assert forall|p: int| 8 * j <= p < 8 * j + 8 implies !#[trigger] covered(
                    x as int,
                    mask@,
                    width as int,
                    p,
                ) by {}
                lemma_ink_byte_empty(x as int, mask@, width as int, j);
                lemma_paint_no_ink(old_row[j], op);
            }
        }
        assert(destination@ =~= blend_row(old_row, x as int, mask@, width as int, op));
    }
    changed
}

} // verus!
