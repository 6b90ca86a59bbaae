use vstd::prelude::*;

pub use crate::draw::{draw_text, TextTarget};
pub use crate::layout::{measure_text, TextMeasurement, TextOptions};
pub use crate::mask::MaskOp;

verus! {

/// How far the pen moves after each glyph, before tracking.
pub enum FontAdvances {
    /// Every glyph advances by the same number of pixels.
    Fixed(u8),
    /// One advance per glyph, indexed like the glyphs.
    Variable(&'static [u8]),
}

/// A one-bit bitmap font covering a contiguous run of code points.
pub struct Font {
    /// Cell width in pixels.
    pub width: u8,
    /// Stored rows per glyph.
    pub rows: u8,
    /// Offset from the top of the line box to the first stored row.
    pub top: u8,
    /// Untrimmed line height.
    pub line_height: u8,
    /// Baseline (bottom of text) measured from the top of the line box.
    pub baseline: u8,
    /// Number of display rows drawn for each stored bitmap row.
    pub row_repeat: u8,
    /// Extra pixels added between glyphs of a line.
    pub tracking: i8,
    /// First code point covered by the font.
    pub first: u32,
    /// Number of glyphs.
    pub count: u16,
    pub advances: FontAdvances,
    /// Glyph-major, row-major, LSB-left, one-bit ink masks.
    pub data: &'static [u8],
}

impl Font {
    /// Bytes in one stored glyph row.
    pub open spec fn spec_row_bytes(&self) -> int {
        (self.width as int + 7) / 8
    }

    /// Bytes in one stored glyph.
    pub open spec fn spec_glyph_bytes(&self) -> int {
        self.spec_row_bytes() * self.rows as int
    }

    pub fn row_bytes(&self) -> (r: usize)
        ensures
            r == self.spec_row_bytes(),
    {
        (self.width as usize + 7) / 8
    }

    pub fn glyph_bytes(&self) -> (r: usize)
        ensures
            r == self.spec_glyph_bytes(),
            r <= 8160,
    {
        let rb = self.row_bytes();
        assert(rb * (self.rows as int) <= 32 * 255) by (nonlinear_arith)
            requires
                rb <= 32,
                self.rows <= 255,
        ;
        rb * self.rows as usize
    }
}


impl Font {
    /// The glyph that covers `ch`, if any.
    pub open spec fn spec_glyph_index(&self, ch: char) -> Option<usize> {
        let c = ch as u32;
        if self.first <= c && c - self.first < self.count {
            Some((c - self.first) as usize)
        } else {
            None
        }
    }

    /// The bitmap of glyph `index`, if the glyph exists and its bytes lie in `data`.
    pub open spec fn spec_glyph_data(&self, index: usize) -> Option<Seq<u8>> {
        if index < self.count && (index + 1) * self.spec_glyph_bytes() <= self.data@.len() {
            Some(
                self.data@.subrange(
                    index * self.spec_glyph_bytes(),
                    (index + 1) * self.spec_glyph_bytes(),
                ),
            )
        } else {
            None
        }
    }

    /// The advance of glyph `index`, if the glyph exists and has one.
    pub open spec fn spec_glyph_advance(&self, index: usize) -> Option<u8> {
        if index >= self.count {
            None
        } else {
            match self.advances {
                FontAdvances::Fixed(advance) => Some(advance),
                FontAdvances::Variable(advances) => if index < advances@.len() {
                    Some(advances@[index as int])
                } else {
                    None
                },
            }
        }
    }

    /// The glyph drawn for `ch`: its own, else that of '?', else that of ' '.
    pub open spec fn spec_resolve_glyph(&self, ch: char) -> Option<usize> {
        if self.spec_glyph_index(ch) is Some {
            self.spec_glyph_index(ch)
        } else if self.spec_glyph_index('?') is Some {
            self.spec_glyph_index('?')
        } else {
            self.spec_glyph_index(' ')
        }
    }

    pub fn glyph_index(&self, ch: char) -> (r: Option<usize>)
        ensures
            r == self.spec_glyph_index(ch),
    {
        let c = ch as u32;
        if c < self.first {
            return None;
        }
        let index = c - self.first;
        if index < self.count as u32 {
            Some(index as usize)
        } else {
            None
        }
    }

    pub fn glyph_data(&self, index: usize) -> (r: Option<&[u8]>)
        ensures
            match r {
                Some(d) => self.spec_glyph_data(index) == Some(d@),
                None => self.spec_glyph_data(index) is None,
            },
    {
        if index >= self.count as usize {
            return None;
        }
        let glyph_bytes = self.glyph_bytes();
        assert(index * glyph_bytes <= (index + 1) * glyph_bytes <= 65535 * 8160) by (
        nonlinear_arith)
            requires
                index < 65535,
                glyph_bytes <= 8160,
        ;
        let start = index * glyph_bytes;
        let end = start + glyph_bytes;
        assert(end == (index + 1) * glyph_bytes) by (nonlinear_arith)
            requires
                start == index * glyph_bytes,
                end == start + glyph_bytes,
        ;
        if end <= self.data.len() {
            Some(&self.data[start..end])
        } else {
            None
        }
    }

    pub fn glyph_advance(&self, index: usize) -> (r: Option<u8>)
        ensures
            r == self.spec_glyph_advance(index),
    {
        if index >= self.count as usize {
            return None;
        }
        match &self.advances {
            FontAdvances::Fixed(advance) => Some(*advance),
            FontAdvances::Variable(advances) => {
                if index < advances.len() {
                    Some(advances[index])
                } else {
                    None
                }
            },
        }
    }

    pub(crate) fn resolve_glyph(&self, ch: char) -> (r: Option<usize>)
        ensures
            r == self.spec_resolve_glyph(ch),
    {
        match self.glyph_index(ch) {
            Some(index) => Some(index),
            None => match self.glyph_index('?') {
                Some(index) => Some(index),
                None => self.glyph_index(' '),
            },
        }
    }
}


/// Glyph `i` is the character with code point `first + i`, for `i < count`,
/// and no other character has a glyph.
pub proof fn lemma_glyph_index_code_point(font: &Font, ch: char)
    ensures
        font.spec_glyph_index(ch) is Some <==> (font.first <= ch as u32 && (ch as u32) < font.first
            + font.count),
        font.spec_glyph_index(ch) is Some ==> font.first + font.spec_glyph_index(ch)->0 == ch
            as u32,
{
}

/// A glyph's bitmap is its `rows * row_bytes` bytes in `data`, glyph after
/// glyph; and every glyph of a fixed-advance font advances by that amount.
pub proof fn lemma_glyph_bitmap_bytes(font: &Font, index: usize, k: int)
    ensures
        font.spec_glyph_data(index) is Some ==> font.spec_glyph_data(index)->0.len()
            == font.spec_row_bytes() * font.rows,
        font.spec_glyph_data(index) is Some && 0 <= k < font.spec_row_bytes() * font.rows
            ==> font.spec_glyph_data(index)->0[k] == font.data@[index * (font.spec_row_bytes()
            * font.rows) + k],
        index < font.count && (index + 1) * (font.spec_row_bytes() * font.rows) <= font.data@.len()
            ==> font.spec_glyph_data(index) is Some,
        font.advances matches FontAdvances::Fixed(a) ==> (index < font.count
            <==> font.spec_glyph_advance(index) == Some(a)),
{
    let gb = font.spec_row_bytes() * font.rows;
    assert((index + 1) * gb - index * gb == gb) by (nonlinear_arith);
}

} // verus!
