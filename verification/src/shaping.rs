use vstd::prelude::*;
use crate::geometry::{Pixels, COUNT_LIMIT, extent_ok};
use crate::style::SharedString;
use crate::text::utf8_len;

verus! {

/// A shaped glyph: the byte index of the text it starts at and its x offset.
#[derive(Clone, Copy, Debug, PartialEq, Eq, Structural)]
pub struct ShapedGlyph {
    /// Byte index of the glyph's first byte in the shaped text.
    pub index: usize,
    /// Horizontal offset of the glyph from the start of the line.
    pub x: Pixels,
}

/// A run of text shaped into glyphs.
#[derive(Clone, Debug, PartialEq, Eq)]
pub struct ShapedLine {
    /// The shaped text.
    pub text: SharedString,
    /// Advance width of the whole text.
    pub width: Pixels,
    /// Height above the baseline.
    pub ascent: Pixels,
    /// Depth below the baseline.
    pub descent: Pixels,
    /// The glyphs, in text order.
    pub glyphs: Vec<ShapedGlyph>,
    /// Byte length of the text.
    pub len: usize,
}

/// The x offset of the first glyph from the `k`-th on that starts at or after
/// byte `index`, or `width` when there is none.
pub open spec fn glyph_x_from(glyphs: Seq<ShapedGlyph>, index: int, width: int, k: int) -> int
    decreases glyphs.len() - k,
{
    if k < 0 || k >= glyphs.len() {
        width
    } else if glyphs[k].index >= index {
        glyphs[k].x as int
    } else {
        glyph_x_from(glyphs, index, width, k + 1)
    }
}

/// The byte index of the last of the first `k` glyphs that starts at or before
/// offset `x`, or zero when there is none.
pub open spec fn glyph_index_upto(glyphs: Seq<ShapedGlyph>, x: int, k: int) -> usize
    decreases k,
{
    if k <= 0 || k > glyphs.len() {
        0
    } else if glyphs[k - 1].x <= x {
        glyphs[k - 1].index
    } else {
        glyph_index_upto(glyphs, x, k - 1)
    }
}

impl ShapedLine {
    /// The shaped line is consistent: its length is the byte length of its
    /// text, its metrics are within bounds, and its glyphs lie within the
    /// text and the width, in order.
    pub open spec fn wf(&self) -> bool {
        &&& self.len == utf8_len(self.text@)
        &&& self.len <= COUNT_LIMIT
        &&& extent_ok(self.width as int)
        &&& extent_ok(self.ascent as int)
        &&& extent_ok(self.descent as int)
        &&& forall|k: int|
            0 <= k < self.glyphs@.len() ==> #[trigger] self.glyphs@[k].index <= self.len && 0
                <= self.glyphs@[k].x <= self.width
    }

    /// The x offset of byte `index`: that of the first glyph starting at or
    /// after it, or the full width.
    pub open spec fn spec_x_for_index(&self, index: int) -> int {
        glyph_x_from(self.glyphs@, index, self.width as int, 0)
    }

    /// The byte index at offset `x`: none at or past the full width, else the
    /// index of the last glyph starting at or before `x`, or zero.
    pub open spec fn spec_index_for_x(&self, x: int) -> Option<usize> {
        if x >= self.width {
            None
        } else {
            Some(glyph_index_upto(self.glyphs@, x, self.glyphs@.len() as int))
        }
    }

    /// `self` and `other` hold the same text, metrics and glyphs.
    pub open spec fn same_as(&self, other: &ShapedLine) -> bool {
        &&& self.text == other.text
        &&& self.width == other.width
        &&& self.ascent == other.ascent
        &&& self.descent == other.descent
        &&& self.glyphs@ == other.glyphs@
        &&& self.len == other.len
    }

    /// A copy of this shaped line.
    pub fn duplicate(&self) -> (r: ShapedLine)
        ensures
            r.same_as(self),
    {
        ShapedLine {
            text: self.text.clone(),
            width: self.width,
            ascent: self.ascent,
            descent: self.descent,
            glyphs: crate::geometry::copy_vec(&self.glyphs),
            len: self.len,
        }
    }

    /// Byte length of the shaped text.
    pub fn len(&self) -> (r: usize)
        ensures
            r == self.len,
    {
        self.len
    }

    /// The x offset of byte `index`.
    pub fn x_for_index(&self, index: usize) -> (r: Pixels)
        requires
            self.wf(),
        ensures
            r == self.spec_x_for_index(index as int),
            0 <= r <= self.width,
    {
        let n = self.glyphs.len();
        let mut k: usize = 0;
        while k < n
            invariant
                self.wf(),
                n == self.glyphs@.len(),
                k <= n,
                glyph_x_from(self.glyphs@, index as int, self.width as int, 0) == glyph_x_from(
                    self.glyphs@,
                    index as int,
                    self.width as int,
                    k as int,
                ),
            decreases n - k,
        {
            let g = self.glyphs[k];
            if g.index >= index {
                return g.x;
            }
            k = k + 1;
        }
        self.width
    }

    /// The byte index at offset `x`, or `None` at or past the full width.
    pub fn index_for_x(&self, x: Pixels) -> (r: Option<usize>)
        requires
            self.wf(),
        ensures
            r == self.spec_index_for_x(x as int),
            r matches Some(i) ==> i <= self.len,
    {
        if x >= self.width {
            return None;
        }
        let mut k: usize = self.glyphs.len();
        while k > 0
            invariant
                self.wf(),
                x < self.width,
                k <= self.glyphs@.len(),
                glyph_index_upto(self.glyphs@, x as int, self.glyphs@.len() as int)
                    == glyph_index_upto(self.glyphs@, x as int, k as int),
            decreases k,
        {
            let g = self.glyphs[k - 1];
            if g.x <= x {
                return Some(g.index);
            }
            k = k - 1;
        }
        Some(0)
    }
}

} // verus!
