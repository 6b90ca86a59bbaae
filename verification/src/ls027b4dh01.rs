//! Frame buffer and line protocol of the Sharp LS027B4DH01 memory LCD:
//! 400 x 240 one-bit pixels, sent line by line, with a VCOM bit that must be
//! toggled regularly.
use vstd::prelude::*;

use crate::draw::{
    apply_rows, glyph_draws, glyph_rows, lemma_apply_rows_concat, lemma_stretched_pixel, min_int, scaled_chunk, scaled_chunks, scaled_row, stretched_bit,
    MaskRow, TextTarget,
};
use crate::font::Font;
use crate::layout::{effective_scale, sat_i32, PlacedGlyph, TextOptions};
use crate::mask::{blend_mask_into_row, blend_row, covered, pixel, MaskOp};

verus! {

pub const SHARP_COLS: usize = 400;

pub const SHARP_LINE_BYTES: usize = SHARP_COLS / 8;

pub const SHARP_ROWS: usize = 240;

/// Bytes of one line as sent to the panel: mode byte, line address, pixel
/// data, and two trailer bytes.
pub const SHARP_LINE_FRAME_BYTES: usize = SHARP_LINE_BYTES + 4;

/// One panel line in the order it is sent.
#[derive(Copy, Clone)]
pub struct SharpDisplayLine {
    modes: u8,
    line_addr: u8,
    data: [u8; SHARP_LINE_BYTES],
    padding: u16,
}

/// The frame buffer of the panel with per-line dirty tracking.
pub struct SharpDisplayDriver {
    lines: [SharpDisplayLine; SHARP_ROWS],
    dirty: [bool; SHARP_ROWS],
    current_vcom: bool,
    dirty_line_iter: Option<usize>,
}

/// What the driver holds, line by line.
pub struct DisplayState {
    /// Pixel data of each line, LSB-left, set bits white.
    pub rows: Seq<Seq<u8>>,
    /// Mode byte of each line as last sent.
    pub modes: Seq<u8>,
    /// Lines changed since they were last sent.
    pub dirty: Seq<bool>,
    /// The VCOM level currently signalled to the panel.
    pub vcom: bool,
    /// The line most recently handed out by the dirty-line scan, if a scan
    /// is under way.
    pub scan: Option<usize>,
}

/// A line with every pixel white.
pub open spec fn white_row() -> Seq<u8> {
    Seq::new(SHARP_LINE_BYTES as nat, |j: int| 0xffu8)
}

/// `row` with pixel `p` set to white (`white`) or black.
pub open spec fn with_pixel(row: Seq<u8>, p: int, white: bool) -> Seq<u8> {
    let mask = 1u8 << ((p % 8) as u8);
    row.update(
        p / 8,
        if white {
            row[p / 8] | mask
        } else {
            row[p / 8] & !mask
        },
    )
}

/// The mode byte of a line write: the write-line command plus the VCOM bit.
pub open spec fn write_mode(vcom: bool) -> u8 {
    if vcom {
        3
    } else {
        1
    }
}

/// The bytes that send a line: mode, address (line + 1), data, two zero
/// trailer bytes.
pub open spec fn line_frame(mode: u8, line: int, data: Seq<u8>) -> Seq<u8> {
    seq![mode, (line + 1) as u8] + data + seq![0u8, 0u8]
}

/// Where the dirty-line scan resumes.
pub open spec fn scan_start(scan: Option<usize>) -> int {
    match scan {
        None => 0,
        Some(i) => i + 1,
    }
}

/// The first dirty line at or after `start`.
pub open spec fn next_dirty_from(dirty: Seq<bool>, start: int) -> Option<int>
    decreases dirty.len() - start,
{
    if start < 0 || start >= dirty.len() {
        None
    } else if dirty[start] {
        Some(start)
    } else {
        next_dirty_from(dirty, start + 1)
    }
}

/// The VCOM command: the VCOM bit alone.
pub open spec fn vcom_bytes(vcom: bool) -> Seq<u8> {
    seq![if vcom { 2u8 } else { 0u8 }, 0u8]
}

/// The all-clear command: the clear bit plus the VCOM bit.
pub open spec fn all_clear_bytes(vcom: bool) -> Seq<u8> {
    seq![if vcom { 6u8 } else { 4u8 }, 0u8]
}

impl View for SharpDisplayDriver {
    type V = DisplayState;

    closed spec fn view(&self) -> DisplayState {
        DisplayState {
            rows: Seq::new(SHARP_ROWS as nat, |i: int| self.lines@[i].data@),
            modes: Seq::new(SHARP_ROWS as nat, |i: int| self.lines@[i].modes),
            dirty: self.dirty@,
            vcom: self.current_vcom,
            scan: self.dirty_line_iter,
        }
    }
}

impl SharpDisplayDriver {
    #[verifier::type_invariant]
    spec fn well_formed(self) -> bool {
        &&& forall|i: int|
            0 <= i < SHARP_ROWS ==> (#[trigger] self.lines@[i]).line_addr == i + 1
                && self.lines@[i].padding == 0
        &&& match self.dirty_line_iter {
            Some(i) => i < SHARP_ROWS,
            None => true,
        }
    }

    /// An all-white frame buffer with nothing dirty and VCOM low.
    pub fn new() -> (driver: SharpDisplayDriver)
        ensures
            driver@ == (DisplayState {
                rows: Seq::new(SHARP_ROWS as nat, |i: int| white_row()),
                modes: Seq::new(SHARP_ROWS as nat, |i: int| 0u8),
                dirty: Seq::new(SHARP_ROWS as nat, |i: int| false),
                vcom: false,
                scan: None,
            }),
    {
        let blank = SharpDisplayLine {
            modes: 0,
            line_addr: 0,
            data: [0xff; SHARP_LINE_BYTES],
            padding: 0,
        };
        let mut lines = [blank; SHARP_ROWS];
        let mut i: usize = 0;
        while i < SHARP_ROWS
            invariant
                i <= SHARP_ROWS,
                forall|k: int| 0 <= k < SHARP_ROWS ==> (#[trigger] lines@[k]).data@ == white_row(),
                forall|k: int| 0 <= k < SHARP_ROWS ==> (#[trigger] lines@[k]).modes == 0,
                forall|k: int| 0 <= k < SHARP_ROWS ==> (#[trigger] lines@[k]).padding == 0,
                forall|k: int| 0 <= k < i ==> (#[trigger] lines@[k]).line_addr == k + 1,
            decreases SHARP_ROWS - i,
        {
            let mut line = lines[i];
            line.line_addr = (i + 1) as u8;
            lines[i] = line;
            i += 1;
        }
        assert forall|k: int| 0 <= k < SHARP_ROWS implies #[trigger] lines@[k].line_addr == k + 1
            && lines@[k].padding == 0 by {}
        let driver = SharpDisplayDriver {
            lines,
            dirty: [false; SHARP_ROWS],
            current_vcom: false,
            dirty_line_iter: None,
        };
        proof {
            assert(driver@.rows =~= Seq::new(SHARP_ROWS as nat, |i: int| white_row()));
            assert(driver@.modes =~= Seq::new(SHARP_ROWS as nat, |i: int| 0u8));
            assert(driver@.dirty =~= Seq::new(SHARP_ROWS as nat, |i: int| false));
        }
        driver
    }
}


impl SharpDisplayDriver {
    /// Sets pixel `(px, py)` black or white, marking its line dirty when the
    /// pixel changes.
    pub fn set_pixel(&mut self, px: usize, py: usize, black: bool)
        requires
            px < SHARP_COLS,
            py < SHARP_ROWS,
        ensures
            ({
                let before = old(self)@;
                let row = with_pixel(before.rows[py as int], px as int, !black);
                final(self)@ == DisplayState {
                    rows: before.rows.update(py as int, row),
                    dirty: before.dirty.update(
                        py as int,
                        before.dirty[py as int] || row != before.rows[py as int],
                    ),
                    ..before
                }
            }),
    {
        proof {
            use_type_invariant(&*self);
        }
        let ghost before = self@;
        let byte_index = px / 8;
        let bit: u8 = 1u8 << ((px % 8) as u8);
        let mut line = self.lines[py];
        let byte = line.data[byte_index];
        let ghost row = with_pixel(before.rows[py as int], px as int, !black);
        assert(byte == before.rows[py as int][byte_index as int]);
        if !black && bit & byte == 0 {
            line.data[byte_index] = byte | bit;
            self.lines[py] = line;
            self.dirty[py] = true;
            proof {
                assert(line.data@ =~= row);
                assert(((px % 8) as u8) < 8 ==> ((1u8 << ((px % 8) as u8)) & byte == 0 ==> byte | (
                1u8 << ((px % 8) as u8)) != byte)) by (bit_vector);
                assert(row[byte_index as int] != before.rows[py as int][byte_index as int]);
            }
        } else if black && bit & byte != 0 {
            line.data[byte_index] = byte & !bit;
            self.lines[py] = line;
            self.dirty[py] = true;
            proof {
                assert(line.data@ =~= row);
                assert(((px % 8) as u8) < 8 ==> ((1u8 << ((px % 8) as u8)) & byte != 0 ==> byte & !(
                1u8 << ((px % 8) as u8)) != byte)) by (bit_vector);
                assert(row[byte_index as int] != before.rows[py as int][byte_index as int]);
            }
        } else {
            proof {
                let k = (px % 8) as u8;
                assert(k < 8 ==> ((1u8 << k) & byte == 0 ==> byte & !(1u8 << k) == byte) && ((1u8
                    << k) & byte != 0 ==> byte | (1u8 << k) == byte)) by (bit_vector);
                assert(row =~= before.rows[py as int]);
                assert(before.dirty.update(py as int, before.dirty[py as int]) =~= before.dirty);
            }
        }
        proof {
            assert(self@.rows =~= before.rows.update(py as int, row));
            assert(self@.modes =~= before.modes);
        }
    }

    /// Reserved for byte-wide writes; changes nothing.
    pub fn set_byte(&mut self, bx: usize, py: usize, b: u8)
        ensures
            final(self)@ == old(self)@,
    {
    }

    /// Replaces the whole frame with `b`, line after line, and marks every
    /// line dirty; the dirty-line scan starts over.
    pub fn set_fullscreen(&mut self, b: &[u8])
        requires
            b@.len() == SHARP_ROWS * SHARP_LINE_BYTES,
        ensures
            final(self)@ == (DisplayState {
                rows: Seq::new(
                    SHARP_ROWS as nat,
                    |y: int| b@.subrange(y * SHARP_LINE_BYTES, y * SHARP_LINE_BYTES + SHARP_LINE_BYTES),
                ),
                dirty: Seq::new(SHARP_ROWS as nat, |y: int| true),
                scan: None,
                ..old(self)@
            }),
    {
        proof {
            use_type_invariant(&*self);
        }
        let ghost before = self@;
        let mut y: usize = 0;
        while y < SHARP_ROWS
            invariant
                b@.len() == SHARP_ROWS * SHARP_LINE_BYTES,
                y <= SHARP_ROWS,
                self.current_vcom == before.vcom,
                self.dirty@ == before.dirty,
                self.dirty_line_iter == before.scan,
                forall|k: int|
                    0 <= k < SHARP_ROWS ==> (#[trigger] self.lines@[k]).modes == before.modes[k],
                before.modes.len() == SHARP_ROWS,
                forall|k: int|
                    0 <= k < y ==> (#[trigger] self.lines@[k]).data@ == b@.subrange(
                        k * SHARP_LINE_BYTES,
                        k * SHARP_LINE_BYTES + SHARP_LINE_BYTES,
                    ),
            decreases SHARP_ROWS - y,
        {
            proof {
                use_type_invariant(&*self);
            }
            assert(y * SHARP_LINE_BYTES + SHARP_LINE_BYTES <= SHARP_ROWS * SHARP_LINE_BYTES) by (
            nonlinear_arith)
                requires
                    y < SHARP_ROWS,
            ;
            let start = y * SHARP_LINE_BYTES;
            let mut line = self.lines[y];
            let mut j: usize = 0;
            while j < SHARP_LINE_BYTES
                invariant
                    b@.len() == SHARP_ROWS * SHARP_LINE_BYTES,
                    y < SHARP_ROWS,
                    start == y * SHARP_LINE_BYTES,
                    start + SHARP_LINE_BYTES <= b@.len(),
                    j <= SHARP_LINE_BYTES,
                    forall|q: int| 0 <= q < j ==> line.data@[q] == b@[start + q],
                    line.modes == before.modes[y as int],
                    line.line_addr == y + 1,
                    line.padding == 0,
                decreases SHARP_LINE_BYTES - j,
            {
                line.data[j] = b[start + j];
                j += 1;
            }
            assert(line.data@ =~= b@.subrange(start as int, start + SHARP_LINE_BYTES));
            self.lines[y] = line;
            y += 1;
        }
        proof {
            use_type_invariant(&*self);
        }
        self.dirty = [true; SHARP_ROWS];
        self.dirty_line_iter = None;
        proof {
            assert(self@.rows =~= Seq::new(
                SHARP_ROWS as nat,
                |y: int| b@.subrange(y * SHARP_LINE_BYTES, y * SHARP_LINE_BYTES + SHARP_LINE_BYTES),
            ));
            assert(self@.modes =~= before.modes);
            assert(self@.dirty =~= Seq::new(SHARP_ROWS as nat, |y: int| true));
        }
    }

    fn set_vcom_bit(current_vcom: bool, b: &mut u8)
        ensures
            *final(b) == if current_vcom {
                *old(b) | 2
            } else {
                *old(b) & !2u8
            },
    {
        if current_vcom {
            *b = *b | 2;
        } else {
            *b = *b & !2u8;
        }
    }

    /// The VCOM command for the current VCOM level.
    pub fn vcom_cmd(&self) -> (r: [u8; 2])
        ensures
            r@ == vcom_bytes(self@.vcom),
    {
        let mut ret = [0u8; 2];
        let mut first = ret[0];
        Self::set_vcom_bit(self.current_vcom, &mut first);
        ret[0] = first;
        assert(0u8 | 2u8 == 2u8 && 0u8 & !2u8 == 0u8) by (bit_vector);
        assert(ret@ =~= vcom_bytes(self@.vcom));
        ret
    }

    /// Flips the VCOM level.
    pub fn swap_vcom(&mut self)
        ensures
            final(self)@ == (DisplayState { vcom: !old(self)@.vcom, ..old(self)@ }),
    {
        proof {
            use_type_invariant(&*self);
        }
        self.current_vcom = !self.current_vcom;
    }

    /// Makes every line white and clean, ends any scan, and returns the
    /// all-clear command with the current VCOM bit.
    pub fn all_clear_cmd(&mut self) -> (r: [u8; 2])
        ensures
            r@ == all_clear_bytes(old(self)@.vcom),
            final(self)@ == (DisplayState {
                rows: Seq::new(SHARP_ROWS as nat, |i: int| white_row()),
                dirty: Seq::new(SHARP_ROWS as nat, |i: int| false),
                scan: None,
                ..old(self)@
            }),
    {
        proof {
            use_type_invariant(&*self);
        }
        let ghost before = self@;
        let mut i: usize = 0;
        while i < SHARP_ROWS
            invariant
                i <= SHARP_ROWS,
                self.current_vcom == before.vcom,
                self.dirty@ == before.dirty,
                self.dirty_line_iter == before.scan,
                forall|k: int|
                    0 <= k < SHARP_ROWS ==> (#[trigger] self.lines@[k]).modes == before.modes[k],
                before.modes.len() == SHARP_ROWS,
                forall|k: int| 0 <= k < i ==> (#[trigger] self.lines@[k]).data@ == white_row(),
            decreases SHARP_ROWS - i,
        {
            proof {
                use_type_invariant(&*self);
            }
            let mut line = self.lines[i];
            line.data = [0xff; SHARP_LINE_BYTES];
            self.lines[i] = line;
            i += 1;
        }
        proof {
            use_type_invariant(&*self);
        }
        self.dirty = [false; SHARP_ROWS];
        self.dirty_line_iter = None;
        let mut ret = [0u8; 2];
        let mut first = ret[0];
        Self::set_vcom_bit(self.current_vcom, &mut first);
        ret[0] = first | 0x4;
        assert((0u8 | 2u8) | 4u8 == 6u8 && (0u8 & !2u8) | 4u8 == 4u8) by (bit_vector);
        proof {
            assert(ret@ =~= all_clear_bytes(before.vcom));
            assert(self@.rows =~= Seq::new(SHARP_ROWS as nat, |i: int| white_row()));
            assert(self@.modes =~= before.modes);
            assert(self@.dirty =~= Seq::new(SHARP_ROWS as nat, |i: int| false));
        }
        ret
    }
}


impl SharpDisplayDriver {
    /// Continues the dirty-line scan: hands out the next dirty line after the
    /// one handed out last (from line 0 when no scan is under way) as the
    /// bytes that send it, marks it clean and records the mode byte sent.
    /// When no dirty line is left, the scan ends and nothing is returned.
    pub fn next_dirty_bytes(&mut self) -> (r: Option<[u8; SHARP_LINE_FRAME_BYTES]>)
        ensures
            ({
                let before = old(self)@;
                match next_dirty_from(before.dirty, scan_start(before.scan)) {
                    None => r is None && final(self)@ == DisplayState { scan: None, ..before },
                    Some(i) => {
                        &&& r is Some
                        &&& r->0@ == line_frame(write_mode(before.vcom), i, before.rows[i])
                        &&& final(self)@ == DisplayState {
                            modes: before.modes.update(i, write_mode(before.vcom)),
                            dirty: before.dirty.update(i, false),
                            scan: Some(i as usize),
                            ..before
                        }
                    },
                }
            }),
    {
        proof {
            use_type_invariant(&*self);
        }
        let ghost before = self@;
        let start_idx: usize = match self.dirty_line_iter {
            None => 0,
            Some(x) => x + 1,
        };
        let mut idx = start_idx;
        while idx < SHARP_ROWS && !self.dirty[idx]
            invariant
                start_idx <= idx <= SHARP_ROWS,
                start_idx == scan_start(before.scan),
                self@ == before,
                before.dirty.len() == SHARP_ROWS,
                next_dirty_from(before.dirty, start_idx as int) == next_dirty_from(
                    before.dirty,
                    idx as int,
                ),
            decreases SHARP_ROWS - idx,
        {
            idx += 1;
        }
        if idx >= SHARP_ROWS {
            self.dirty_line_iter = None;
            return None;
        }
        self.dirty_line_iter = Some(idx);
        self.dirty[idx] = false;
        let vcom = self.current_vcom;
        let mut line = self.lines[idx];
        line.modes = 1;
        Self::set_vcom_bit(vcom, &mut line.modes);
        assert(1u8 | 2u8 == 3u8 && 1u8 & !2u8 == 1u8) by (bit_vector);
        self.lines[idx] = line;
        let mut frame = [0u8; SHARP_LINE_FRAME_BYTES];
        frame[0] = line.modes;
        frame[1] = line.line_addr;
        let mut j: usize = 0;
        while j < SHARP_LINE_BYTES
            invariant
                j <= SHARP_LINE_BYTES,
                frame@.len() == SHARP_LINE_FRAME_BYTES,
                frame@[0] == line.modes,
                frame@[1] == line.line_addr,
                forall|q: int| 0 <= q < j ==> frame@[q + 2] == line.data@[q],
                forall|q: int| j + 2 <= q < SHARP_LINE_FRAME_BYTES ==> frame@[q] == 0,
            decreases SHARP_LINE_BYTES - j,
        {
            frame[j + 2] = line.data[j];
            j += 1;
        }
        // The trailer is the line's padding word, little-endian.
        frame[SHARP_LINE_BYTES + 2] = (line.padding & 0xff) as u8;
        frame[SHARP_LINE_BYTES + 3] = (line.padding >> 8) as u8;
        proof {
            assert(line.padding == 0);
            assert(0u16 & 0xffu16 == 0u16 && 0u16 >> 8u16 == 0u16) by (bit_vector);
            let expected = line_frame(write_mode(before.vcom), idx as int, before.rows[idx as int]);
            assert(line.line_addr == idx + 1);
            assert forall|i: int| 0 <= i < SHARP_LINE_FRAME_BYTES implies frame@[i] == expected[i] by {
                if 2 <= i < SHARP_LINE_BYTES + 2 {
                    assert(frame@[(i - 2) + 2] == line.data@[i - 2]);
                }
            }
            assert(frame@ =~= expected);
            assert(self@.rows =~= before.rows);
            assert(self@.modes =~= before.modes.update(idx as int, write_mode(before.vcom)));
        }
        Some(frame)
    }
}

impl TextTarget for SharpDisplayDriver {
    /// A blend into a row on the panel changes that row as `blend_row` says
    /// and marks it dirty when it changed; rows off the panel are clipped.
    open spec fn blended(state: DisplayState, row: MaskRow) -> DisplayState {
        if 0 <= row.y < SHARP_ROWS {
            let y = row.y as int;
            let new_row = blend_row(state.rows[y], row.x as int, row.mask, row.width as int, row.op);
            DisplayState {
                rows: state.rows.update(y, new_row),
                dirty: state.dirty.update(y, state.dirty[y] || new_row != state.rows[y]),
                ..state
            }
        } else {
            state
        }
    }

    fn blend_mask_row(&mut self, x: i32, y: i32, mask: &[u8], width: usize, op: MaskOp) {
        proof {
            use_type_invariant(&*self);
        }
        let ghost before = self@;
        if y < 0 || y >= SHARP_ROWS as i32 {
            return ;
        }
        let row = y as usize;
        let mut line = self.lines[row];
        let changed = blend_mask_into_row(&mut line.data, x, mask, width, op);
        if changed {
            self.lines[row] = line;
            self.dirty[row] = true;
        }
        proof {
            let new_row = blend_row(
                before.rows[y as int],
                x as int,
                mask@,
                width as int,
                op,
            );
            assert(self@.rows =~= before.rows.update(y as int, new_row));
            assert(self@.modes =~= before.modes);
            if !changed {
                assert(before.dirty.update(y as int, before.dirty[y as int]) =~= before.dirty);
            }
        }
    }
}


/// Setting a pixel changes that pixel to the colour asked for and no other.
pub proof fn lemma_with_pixel(row: Seq<u8>, p: int, white: bool, q: int)
    requires
        0 <= p < row.len() * 8,
    ensures
        with_pixel(row, p, white).len() == row.len(),
        pixel(with_pixel(row, p, white), q) == if q == p {
            white
        } else {
            pixel(row, q)
        },
{
    if 0 <= q < row.len() * 8 {
        let k = (p % 8) as u8;
        let k2 = (q % 8) as u8;
        let b = row[p / 8];
        assert(k < 8 && k2 < 8 ==> ((((b | (1u8 << k)) >> k2) & 1u8 == 1u8) == (k2 == k || (b
            >> k2) & 1u8 == 1u8))) by (bit_vector);
        assert(k < 8 && k2 < 8 ==> ((((b & !(1u8 << k)) >> k2) & 1u8 == 1u8) == (k2 != k && (b
            >> k2) & 1u8 == 1u8))) by (bit_vector);
        if q / 8 == p / 8 && q != p {
            assert(k != k2);
        }
    }
}

/// The dirty-line scan hands out the first dirty line at or after where it
/// resumes, skipping only clean lines; it ends when no line from there on is
/// dirty.
pub proof fn lemma_next_dirty_is_first(dirty: Seq<bool>, start: int)
    requires
        0 <= start,
    ensures
        match next_dirty_from(dirty, start) {
            Some(i) => start <= i < dirty.len() && dirty[i] && forall|k: int|
                start <= k < i ==> !dirty[k],
            None => forall|k: int| start <= k < dirty.len() ==> !dirty[k],
        },
    decreases dirty.len() - start,
{
    if start < dirty.len() && !dirty[start] {
        lemma_next_dirty_is_first(dirty, start + 1);
    }
}

/// Text drawn into the display changes only the row blended into, and in
/// it only the pixels the mask covers, which take the colour painted; a
/// row off the panel changes nothing.
pub proof fn lemma_display_blend_pixels(state: DisplayState, row: MaskRow, y: int, p: int)
    requires
        state.rows.len() == SHARP_ROWS,
        state.dirty.len() == SHARP_ROWS,
        forall|r: int| 0 <= r < SHARP_ROWS ==> (#[trigger] state.rows[r]).len() == SHARP_LINE_BYTES,
        0 <= y < SHARP_ROWS,
    ensures
        <SharpDisplayDriver as TextTarget>::blended(state, row).rows.len() == SHARP_ROWS,
        pixel(<SharpDisplayDriver as TextTarget>::blended(state, row).rows[y], p) == if y == row.y
            && 0 <= p < SHARP_COLS && covered(row.x as int, row.mask, row.width as int, p) {
            row.op == MaskOp::PaintWhite
        } else {
            pixel(state.rows[y], p)
        },
{
    crate::mask::lemma_blend_row_pixels(
        state.rows[y],
        row.x as int,
        row.mask,
        row.width as int,
        row.op,
        p,
    );
}


/// A display model of the panel's shape: 240 lines of 50 bytes, 240 flags.
pub open spec fn display_shape(state: DisplayState) -> bool {
    &&& state.rows.len() == SHARP_ROWS
    &&& state.dirty.len() == SHARP_ROWS
    &&& forall|r: int| 0 <= r < SHARP_ROWS ==> (#[trigger] state.rows[r]).len() == SHARP_LINE_BYTES
}

/// A blend never cleans a line: afterwards each line is dirty exactly when
/// it was dirty before or the blend changed it; the panel keeps its shape.
pub proof fn lemma_blend_keeps_dirty(state: DisplayState, row: MaskRow, r: int)
    requires
        display_shape(state),
        0 <= r < SHARP_ROWS,
    ensures
        display_shape(<SharpDisplayDriver as TextTarget>::blended(state, row)),
        <SharpDisplayDriver as TextTarget>::blended(state, row).dirty[r] == (state.dirty[r]
            || <SharpDisplayDriver as TextTarget>::blended(state, row).rows[r] != state.rows[r]),
{
    let after = <SharpDisplayDriver as TextTarget>::blended(state, row);
    assert forall|q: int| 0 <= q < SHARP_ROWS implies (#[trigger] after.rows[q]).len()
        == SHARP_LINE_BYTES by {}
}

/// A line that is dirty stays dirty through any sequence of blends, such as
/// drawing text, until the dirty-line scan hands it out.
pub proof fn lemma_blends_keep_dirty(state: DisplayState, rows: Seq<MaskRow>, r: int)
    requires
        display_shape(state),
        0 <= r < SHARP_ROWS,
    ensures
        display_shape(apply_rows::<SharpDisplayDriver>(state, rows)),
        state.dirty[r] ==> apply_rows::<SharpDisplayDriver>(state, rows).dirty[r],
    decreases rows.len(),
{
    if rows.len() > 0 {
        lemma_blends_keep_dirty(state, rows.drop_last(), r);
        lemma_blend_keeps_dirty(
            apply_rows::<SharpDisplayDriver>(state, rows.drop_last()),
            rows.last(),
            r,
        );
    }
}

proof fn lemma_div_shift(c: int, b: int, scale: int)
    requires
        scale >= 1,
        b >= 0,
        c >= 0,
    ensures
        (8 * c * scale + b) / scale == 8 * c + b / scale,
{
    let q = b / scale;
    let rem = b % scale;
    vstd::arithmetic::div_mod::lemma_fundamental_div_mod(b, scale);
    assert(8 * c * scale + b == (8 * c + q) * scale + rem) by (nonlinear_arith)
        requires
            b == scale * q + rem,
    ;
    vstd::arithmetic::div_mod::lemma_fundamental_div_mod_converse(
        8 * c * scale + b,
        scale,
        8 * c + q,
        rem,
    );
}

proof fn lemma_scaled_chunks_pixels(
    state: DisplayState,
    x: i32,
    y: i32,
    mask: Seq<u8>,
    width: int,
    scale: int,
    op: MaskOp,
    n: nat,
    r: int,
    p: int,
)
    requires
        display_shape(state),
        1 <= scale <= 255,
        0 <= width,
        width * scale <= i32::MAX,
        x + width * scale <= i32::MAX,
        8 * n <= width + 7,
        0 <= r < SHARP_ROWS,
    ensures
        display_shape(
            apply_rows::<SharpDisplayDriver>(
                state,
                scaled_chunks(x, y, mask, width, scale, op, n),
            ),
        ),
        pixel(
            apply_rows::<SharpDisplayDriver>(
                state,
                scaled_chunks(x, y, mask, width, scale, op, n),
            ).rows[r],
            p,
        ) == if r == y && 0 <= p < SHARP_COLS && x <= p < x + min_int((8 * n) as int, width) * scale
            && pixel(mask, (p - x) / scale) {
            op == MaskOp::PaintWhite
        } else {
            pixel(state.rows[r], p)
        },
    decreases n,
{
    if n == 0 {
        assert(apply_rows::<SharpDisplayDriver>(state, scaled_chunks(x, y, mask, width, scale, op, n))
            == state);
        assert(min_int((8 * n) as int, width) == 0);
        assert(min_int((8 * n) as int, width) * scale == 0);
        assert(pixel(
            apply_rows::<SharpDisplayDriver>(
                state,
                scaled_chunks(x, y, mask, width, scale, op, n),
            ).rows[r],
            p,
        ) == if r == y && 0 <= p < SHARP_COLS && x <= p < x + min_int((8 * n) as int, width) * scale
            && pixel(mask, (p - x) / scale) {
            op == MaskOp::PaintWhite
        } else {
            pixel(state.rows[r], p)
        });
    } else {
        let c = n - 1;
        lemma_scaled_chunks_pixels(state, x, y, mask, width, scale, op, (n - 1) as nat, r, p);
        let prev_rows = scaled_chunks(x, y, mask, width, scale, op, (n - 1) as nat);
        let prev = apply_rows::<SharpDisplayDriver>(state, prev_rows);
        let chunk = scaled_chunk(x, y, mask, width, scale, op, c);
        assert(scaled_chunks(x, y, mask, width, scale, op, n).drop_last() =~= prev_rows);
        assert(apply_rows::<SharpDisplayDriver>(state, scaled_chunks(x, y, mask, width, scale, op, n))
            == <SharpDisplayDriver as TextTarget>::blended(prev, chunk));
        lemma_blend_keeps_dirty(prev, chunk, r);
        lemma_display_blend_pixels(prev, chunk, r, p);
        let cw = min_int(width - 8 * c, 8);
        assert(0 < cw <= 8);
        assert(8 * c * scale <= width * scale) by (nonlinear_arith)
            requires
                8 * c <= width,
                scale >= 1,
        ;
        assert(8 * c * scale >= 0) by (nonlinear_arith)
            requires
                c >= 0,
                scale >= 1,
        ;
        assert((8 * c + cw) * scale == 8 * c * scale + cw * scale) by (nonlinear_arith);
        assert(8 * c * scale + cw * scale <= width * scale) by (nonlinear_arith)
            requires
                8 * c + cw <= width,
                scale >= 1,
        ;
        let xc = x + 8 * c * scale;
        assert(min_int((8 * ((n - 1) as nat)) as int, width) == 8 * c);
        assert(min_int((8 * n) as int, width) == 8 * c + cw);
        assert(x + (8 * c + cw) * scale == xc + cw * scale);
        assert(x + 8 * c * scale == xc);
        assert(chunk.y == y);
        assert(chunk.x == xc);
        assert(chunk.width == cw * scale);
        let after = apply_rows::<SharpDisplayDriver>(
            state,
            scaled_chunks(x, y, mask, width, scale, op, n),
        );
        let white = op == MaskOp::PaintWhite;
        let old_px = pixel(state.rows[r], p);
        assert(pixel(after.rows[r], p) == if r == y && 0 <= p < SHARP_COLS && covered(
            chunk.x as int,
            chunk.mask,
            chunk.width as int,
            p,
        ) {
            white
        } else {
            pixel(prev.rows[r], p)
        });
        assert(pixel(prev.rows[r], p) == if r == y && 0 <= p < SHARP_COLS && x <= p < x + 8 * c
            * scale && pixel(mask, (p - x) / scale) {
            white
        } else {
            old_px
        });
        if r == y && 0 <= p < SHARP_COLS {
            if xc <= p < xc + cw * scale {
                let b = p - xc;
                lemma_stretched_pixel(mask, 8 * c, cw, scale, b);
                lemma_div_shift(c, b, scale);
                assert(p - x == 8 * c * scale + b);
                assert(covered(chunk.x as int, chunk.mask, chunk.width as int, p) == pixel(
                    mask,
                    (p - x) / scale,
                ));
                assert(pixel(after.rows[r], p) == if pixel(mask, (p - x) / scale) {
                    white
                } else {
                    old_px
                });
            } else {
                assert(!covered(chunk.x as int, chunk.mask, chunk.width as int, p));
                assert(pixel(after.rows[r], p) == if x <= p < xc + cw * scale && pixel(
                    mask,
                    (p - x) / scale,
                ) {
                    white
                } else {
                    old_px
                });
            }
        }

    }
}

/// Drawing one mask row of `width` bits at column `x` of line `y`, scaled
/// `scale` times: display pixel `p` of that line with `x <= p < x + width *
/// scale` is inked (takes the colour of `op`) exactly when source bit
/// `(p - x) / scale` is set; every other pixel of the panel keeps its
/// colour, and the panel keeps its shape.
pub proof fn lemma_scaled_row_pixels(
    state: DisplayState,
    x: i32,
    y: i32,
    mask: Seq<u8>,
    width: int,
    scale: int,
    op: MaskOp,
    r: int,
    p: int,
)
    requires
        display_shape(state),
        1 <= scale <= 255,
        0 <= width,
        width * scale <= i32::MAX,
        x + width * scale <= i32::MAX,
        0 <= r < SHARP_ROWS,
    ensures
        display_shape(
            apply_rows::<SharpDisplayDriver>(state, scaled_row(x, y, mask, width, scale, op)),
        ),
        pixel(
            apply_rows::<SharpDisplayDriver>(state, scaled_row(x, y, mask, width, scale, op)).rows[r],
            p,
        ) == if r == y && 0 <= p < SHARP_COLS && x <= p < x + width * scale && pixel(
            mask,
            (p - x) / scale,
        ) {
            op == MaskOp::PaintWhite
        } else {
            pixel(state.rows[r], p)
        },
{
    if scale == 1 {
        let one = scaled_row(x, y, mask, width, scale, op);
        assert(one.drop_last() =~= Seq::<MaskRow>::empty());
        assert(apply_rows::<SharpDisplayDriver>(state, one.drop_last()) == state);
        lemma_blend_keeps_dirty(state, one.last(), r);
        lemma_display_blend_pixels(state, one.last(), r, p);
        assert((p - x) / 1 == p - x);
    } else {
        let n = ((width + 7) / 8) as nat;
        lemma_scaled_chunks_pixels(state, x, y, mask, width, scale, op, n, r, p);
        assert(min_int((8 * n) as int, width) == width);
    }
}


proof fn lemma_glyph_rows_pixels(
    state: DisplayState,
    font: &Font,
    glyph: Seq<u8>,
    x: i32,
    first_y: i32,
    scale: int,
    op: MaskOp,
    n: nat,
    r: int,
    p: int,
)
    requires
        display_shape(state),
        1 <= scale <= 255,
        font.row_repeat >= 1,
        font.width * scale + x <= i32::MAX,
        first_y + n <= i32::MAX,
        n <= i32::MAX,
        0 <= r < SHARP_ROWS,
    ensures
        display_shape(
            apply_rows::<SharpDisplayDriver>(state, glyph_rows(font, glyph, x, first_y, scale, op, n)),
        ),
        pixel(
            apply_rows::<SharpDisplayDriver>(
                state,
                glyph_rows(font, glyph, x, first_y, scale, op, n),
            ).rows[r],
            p,
        ) == if first_y <= r < first_y + n && 0 <= p < SHARP_COLS && x <= p < x + font.width
            * scale && pixel(
            glyph.subrange(
                (r - first_y) / (font.row_repeat * scale) * font.spec_row_bytes(),
                (r - first_y) / (font.row_repeat * scale) * font.spec_row_bytes()
                    + font.spec_row_bytes(),
            ),
            (p - x) / scale,
        ) {
            op == MaskOp::PaintWhite
        } else {
            pixel(state.rows[r], p)
        },
    decreases n,
{
    let vr = font.row_repeat * scale;
    assert(vr >= 1) by (nonlinear_arith)
        requires
            vr == font.row_repeat * scale,
            font.row_repeat >= 1,
            scale >= 1,
    ;
    assert(0 <= font.width * scale <= 255 * 255) by (nonlinear_arith)
        requires
            1 <= scale <= 255,
            font.width <= 255,
    ;
    if n == 0 {
        assert(apply_rows::<SharpDisplayDriver>(state, glyph_rows(font, glyph, x, first_y, scale, op, n))
            == state);
    } else {
        let t = n - 1;
        lemma_glyph_rows_pixels(state, font, glyph, x, first_y, scale, op, (n - 1) as nat, r, p);
        let prev_rows = glyph_rows(font, glyph, x, first_y, scale, op, (n - 1) as nat);
        let prev = apply_rows::<SharpDisplayDriver>(state, prev_rows);
        let sy = t / vr;
        let rb = font.spec_row_bytes();
        let row = glyph.subrange(sy * rb, sy * rb + rb);
        vstd::arithmetic::div_mod::lemma_fundamental_div_mod(t, vr);
        vstd::arithmetic::div_mod::lemma_div_pos_is_pos(t, vr);
        vstd::arithmetic::div_mod::lemma_mod_pos_bound(t, vr);
        assert(vr * sy == sy * vr) by (nonlinear_arith);
        assert(sy * vr <= t);
        let y_t = crate::draw::glyph_row_y(first_y, sy, t % vr, vr);
        assert(0 <= sy * vr) by (nonlinear_arith)
            requires
                sy >= 0,
                vr >= 1,
        ;
        assert(y_t == first_y + t);
        let new_rows = crate::draw::scaled_row(x, y_t, row, font.width as int, scale, op);
        assert(glyph_rows(font, glyph, x, first_y, scale, op, n) == prev_rows + new_rows);
        lemma_apply_rows_concat::<SharpDisplayDriver>(state, prev_rows, new_rows);
        lemma_scaled_row_pixels(prev, x, y_t, row, font.width as int, scale, op, r, p);
        if r == first_y + t {
            assert((r - first_y) / vr == sy);
        }
    }
}

/// What drawing one glyph does to the panel: with `s` the scale, `rr` the
/// font's row repeat and `fy = y + top * s`, display pixel `(p, r)` with
/// `fy <= r < fy + rows * rr * s` and `x <= p < x + width * s` takes the
/// drawing colour (black when `options.black`) exactly when bit `(p - x) / s`
/// of stored row `(r - fy) / (rr * s)` of the glyph's bitmap is set; every
/// other pixel keeps its colour.
pub proof fn lemma_glyph_pixels(
    state: DisplayState,
    font: &Font,
    glyph: PlacedGlyph,
    options: TextOptions,
    r: int,
    p: int,
)
    requires
        display_shape(state),
        font.spec_glyph_data(glyph.index) is Some,
        font.row_repeat >= 1,
        glyph.x + font.width * effective_scale(options) <= i32::MAX,
        glyph.y + font.top * effective_scale(options) + font.rows * font.row_repeat
            * effective_scale(options) <= i32::MAX,
        0 <= r < SHARP_ROWS,
    ensures
        ({
            let s = effective_scale(options);
            let fy = glyph.y + font.top * s;
            let bitmap = font.spec_glyph_data(glyph.index)->0;
            pixel(
                apply_rows::<SharpDisplayDriver>(state, glyph_draws(font, glyph, options)).rows[r],
                p,
            ) == if fy <= r < fy + font.rows * font.row_repeat * s && 0 <= p < SHARP_COLS && glyph.x
                <= p < glyph.x + font.width * s && pixel(
                bitmap,
                (r - fy) / (font.row_repeat * s) * font.spec_row_bytes() * 8 + (p - glyph.x) / s,
            ) {
                !options.black
            } else {
                pixel(state.rows[r], p)
            }
        }),
{
    let s = effective_scale(options);
    let bitmap = font.spec_glyph_data(glyph.index)->0;
    let rb = font.spec_row_bytes();
    let vr = font.row_repeat * s;
    assert(font.top * s >= 0) by (nonlinear_arith)
        requires
            s >= 1,
    ;
    assert(font.rows * vr == font.rows * font.row_repeat * s) by (nonlinear_arith)
        requires
            vr == font.row_repeat * s,
    ;
    assert(0 <= font.rows * vr <= 255 * (255 * 255)) by (nonlinear_arith)
        requires
            vr == font.row_repeat * s,
            1 <= s <= 255,
            font.rows <= 255,
            font.row_repeat <= 255,
    ;
    let fy = glyph.y + font.top * s;
    let n = (font.rows * vr) as nat;
    lemma_glyph_rows_pixels(
        state,
        font,
        bitmap,
        glyph.x,
        sat_i32(fy),
        s,
        crate::draw::mask_op(options),
        n,
        r,
        p,
    );
    if fy <= r < fy + n && glyph.x <= p < glyph.x + font.width * s {
        let sy = (r - fy) / vr;
        let q = (p - glyph.x) / s;
        vstd::arithmetic::div_mod::lemma_div_pos_is_pos(r - fy, vr);
        vstd::arithmetic::div_mod::lemma_div_pos_is_pos(p - glyph.x, s);
        assert(sy < font.rows) by {
            vstd::arithmetic::div_mod::lemma_div_is_ordered(r - fy, n - 1, vr);
            assert(n - 1 == (font.rows - 1) * vr + (vr - 1)) by (nonlinear_arith)
                requires
                    n == font.rows * vr,
            ;
            vstd::arithmetic::div_mod::lemma_fundamental_div_mod_converse(
                n - 1,
                vr,
                font.rows - 1,
                vr - 1,
            );
        }
        assert(q < font.width) by {
            vstd::arithmetic::div_mod::lemma_div_is_ordered(
                p - glyph.x,
                font.width * s - 1,
                s,
            );
            assert(font.width * s - 1 == (font.width - 1) * s + (s - 1)) by (nonlinear_arith);
            vstd::arithmetic::div_mod::lemma_fundamental_div_mod_converse(
                font.width * s - 1,
                s,
                font.width - 1,
                s - 1,
            );
        }
        assert(font.width <= rb * 8);
        assert(bitmap.len() == rb * font.rows) by {
            assert((glyph.index + 1) * (rb * font.rows) - glyph.index * (rb * font.rows) == rb
                * font.rows) by (nonlinear_arith);
        }
        assert(sy * rb + rb <= rb * font.rows) by (nonlinear_arith)
            requires
                sy < font.rows,
                rb >= 0,
        ;
        assert(sy * rb * 8 == (sy * rb) * 8);
        let row = bitmap.subrange(sy * rb, sy * rb + rb);
        assert(pixel(row, q) == pixel(bitmap, sy * rb * 8 + q)) by {
            assert((sy * rb * 8 + q) / 8 == sy * rb + q / 8);
            assert((sy * rb * 8 + q) % 8 == q % 8);
        }
    }
}

} // verus!
