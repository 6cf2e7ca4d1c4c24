use vstd::prelude::*;
use crate::geometry::{Pixels, Size, AvailableSize, PX_LIMIT, COUNT_LIMIT, extent_ok, wide_limit};
use crate::style::{Font, TextRun};
use crate::text::{utf8_len, cell_offset, text_chars, char_len_utf8, lemma_cell_offset_step, lemma_cell_offset_strict, lemma_cell_offset_end, lemma_ceil_cell_unique, lemma_cell_offset_mono};
use crate::shaping::{ShapedLine, ShapedGlyph};
use crate::slices::{LineFragment, line_bytes_before, line_fragment_bytes, lemma_line_bytes_before_mono};
use crate::content::InlineElementContext;
use crate::host::{LayoutHost, Boundary, boundaries_wf, is_break_position, fragment_break};

verus! {

/// A layout host for fixed-advance text, as on a character grid: every
/// character advances `cell_width`, shaped text stands `ascent` above and
/// `descent` below its baseline, an element is as large as the size it
/// carries, and lines break before the first character or element that would
/// pass the wrap width. Lengths outside `[0, PX_LIMIT]` are clamped to it.
#[derive(Clone, Copy, Debug, PartialEq, Eq, Structural)]
pub struct MonospaceHost {
    /// Advance of every character.
    pub cell_width: Pixels,
    /// Height of text above the baseline.
    pub ascent: Pixels,
    /// Depth of text below the baseline.
    pub descent: Pixels,
}

/// `v` clamped to `[0, PX_LIMIT]`.
pub open spec fn clamp_extent(v: int) -> int {
    if v < 0 {
        0
    } else if v > PX_LIMIT {
        PX_LIMIT as int
    } else {
        v
    }
}

/// `v` clamped to `[0, PX_LIMIT]`.
pub fn clamp_extent_px(v: Pixels) -> (r: Pixels)
    ensures
        r == clamp_extent(v as int),
        extent_ok(r as int),
{
    if v < 0 {
        0
    } else if v > PX_LIMIT {
        PX_LIMIT
    } else {
        v
    }
}

/// The x offset of the `k`-th character when each advances `cw`, clamped.
pub open spec fn cell_x(k: int, cw: int) -> int {
    if k * cw > PX_LIMIT { PX_LIMIT as int } else { k * cw }
}

/// A new line width after adding `w` to `x`, saturating at the widest extent.
pub open spec fn grow(x: int, w: int) -> int {
    if x + w > wide_limit() { wide_limit() } else { x + w }
}


/// The wrapper's state after an item: the width of the current line, the
/// byte where the current line starts, and the breaks so far.
pub type WrapState = (int, int, Seq<Boundary>);

/// The wrapper's state after an item of width `w` at byte `pos`: when the
/// item may start a line, the current line is not empty and the item would
/// pass the wrap width, a new line starts at `pos` with the item; otherwise
/// the item joins the current line.
pub open spec fn wrap_step(st: WrapState, pos: int, w: int, breakable: bool, wrap_width: int) -> WrapState {
    if breakable && pos > st.1 && st.0 + w > wrap_width {
        (grow(0, w), pos, st.2.push(Boundary { ix: pos as usize, next_indent: 0 }))
    } else {
        (grow(st.0, w), st.1, st.2)
    }
}

/// The wrapper's state after the first `k` characters of `text`, which
/// starts at byte `base`, each `cw` wide, from state `st`.
pub open spec fn wrap_text(st: WrapState, base: int, text: Seq<char>, k: int, cw: int, wrap_width: int) -> WrapState
    decreases k,
{
    if k <= 0 {
        st
    } else {
        wrap_step(
            wrap_text(st, base, text, k - 1, cw, wrap_width),
            base + cell_offset(text, k - 1),
            cw,
            true,
            wrap_width,
        )
    }
}

/// The wrapper's state after the first `i` fragments, characters `cw` wide.
pub open spec fn wrap_fragments(fs: Seq<LineFragment>, i: int, cw: int, wrap_width: int) -> WrapState
    decreases i,
{
    if i <= 0 {
        (0, 0, Seq::empty())
    } else {
        let prev = wrap_fragments(fs, i - 1, cw, wrap_width);
        let base = line_bytes_before(fs, i - 1) as int;
        match fs[i - 1] {
            LineFragment::Text { text } => wrap_text(prev, base, text@, text@.len() as int, cw, wrap_width),
            LineFragment::Element { width, len_utf8 } => wrap_step(
                prev,
                base,
                clamp_extent(width as int),
                len_utf8 > 0,
                wrap_width,
            ),
        }
    }
}

/// The breaks the grid wrapper reports for `fs` with characters `cw` wide.
pub open spec fn grid_breaks(fs: Seq<LineFragment>, cw: int, wrap_width: int) -> Seq<Boundary> {
    wrap_fragments(fs, fs.len() as int, cw, wrap_width).2
}

impl MonospaceHost {
    /// A host whose characters advance `cell_width` and whose text stands
    /// `ascent` above and `descent` below its baseline.
    pub fn new(cell_width: Pixels, ascent: Pixels, descent: Pixels) -> (r: MonospaceHost)
        ensures
            r == (MonospaceHost { cell_width, ascent, descent }),
    {
        MonospaceHost { cell_width, ascent, descent }
    }

    /// Shapes `text` on the grid: glyph `k` starts at the byte offset of
    /// character `k` and at `k` advances.
    pub fn shape(&self, text: &str) -> (r: ShapedLine)
        requires
            utf8_len(text@) <= COUNT_LIMIT,
        ensures
            r.wf(),
            r.text@ == text@,
            r.width == cell_x(text@.len() as int, clamp_extent(self.cell_width as int)),
            r.ascent == clamp_extent(self.ascent as int),
            r.descent == clamp_extent(self.descent as int),
            r.glyphs@.len() == text@.len(),
            forall|k: int|
                0 <= k < text@.len() ==> (#[trigger] r.glyphs@[k]).index == cell_offset(text@, k) && r.glyphs@[k].x
                    == cell_x(k, clamp_extent(self.cell_width as int)),
    {
        let chars = text_chars(text);
        let cw = clamp_extent_px(self.cell_width);
        let n = chars.len();
        proof {
            crate::text::lemma_chars_le_bytes(text@);
        }
        let mut glyphs: Vec<ShapedGlyph> = Vec::new();
        let mut byte: usize = 0;
        let mut i: usize = 0;
        while i < n
            invariant
                chars@ == text@,
                n == text@.len(),
                n <= COUNT_LIMIT,
                utf8_len(text@) <= COUNT_LIMIT,
                0 <= cw <= PX_LIMIT,
                cw == clamp_extent(self.cell_width as int),
                i <= n,
                byte == cell_offset(text@, i as int),
                glyphs@.len() == i,
                forall|k: int|
                    0 <= k < i ==> (#[trigger] glyphs@[k]).index == cell_offset(text@, k) && glyphs@[k].x
                        == cell_x(k, cw as int),
            decreases n - i,
        {
            proof {
                assert(i * cw <= COUNT_LIMIT * PX_LIMIT) by (nonlinear_arith)
                    requires i <= COUNT_LIMIT, 0 <= cw <= PX_LIMIT;
                lemma_cell_offset_step(text@, i as int);
                lemma_cell_offset_mono(text@, i as int + 1, n as int);
                lemma_cell_offset_end(text@);
            }
            let prod: i64 = (i as i64) * cw;
            let x = if prod > PX_LIMIT { PX_LIMIT } else { prod };
            glyphs.push(ShapedGlyph { index: byte, x });
            byte = byte + char_len_utf8(chars[i]);
            i = i + 1;
        }
        proof {
            lemma_cell_offset_end(text@);
            assert(n * cw <= COUNT_LIMIT * PX_LIMIT) by (nonlinear_arith)
                requires n <= COUNT_LIMIT, 0 <= cw <= PX_LIMIT;
            assert forall|k: int| 0 <= k < glyphs@.len() implies #[trigger] glyphs@[k].index <= byte && 0
                <= glyphs@[k].x <= cell_x(n as int, cw as int) by {
                lemma_cell_offset_mono(text@, k, n as int);
                assert(k * cw <= n * cw) by (nonlinear_arith)
                    requires 0 <= k <= n, 0 <= cw;
                assert(0 <= k * cw) by (nonlinear_arith)
                    requires 0 <= k, 0 <= cw;
            }
        }
        let total: i64 = (n as i64) * cw;
        let width = if total > PX_LIMIT { PX_LIMIT } else { total };
        ShapedLine {
            text: text.to_owned(),
            width,
            ascent: clamp_extent_px(self.ascent),
            descent: clamp_extent_px(self.descent),
            glyphs,
            len: byte,
        }
    }

    /// The places where `fragments` break into lines no wider than
    /// `wrap_width` on the grid: before each character or element (of at
    /// least one byte) that would make a non-empty line pass the wrap width.
    pub fn wrap(&self, fragments: &Vec<LineFragment>, wrap_width: Pixels) -> (r: Vec<Boundary>)
        requires
            fragments@.len() <= COUNT_LIMIT,
            line_bytes_before(fragments@, fragments@.len() as int) <= COUNT_LIMIT,
        ensures
            r@ == grid_breaks(fragments@, clamp_extent(self.cell_width as int), wrap_width as int),
            boundaries_wf(r@, fragments@),
            forall|q: int| 0 <= q < r@.len() ==> (#[trigger] r@[q]).next_indent == 0,
    {
        let ghost fs = fragments@;
        let ghost total = line_bytes_before(fs, fs.len() as int);
        let cw = clamp_extent_px(self.cell_width);
        let n = fragments.len();
        let mut out: Vec<Boundary> = Vec::new();
        let mut base: usize = 0;
        let mut line_start: usize = 0;
        let mut x: i64 = 0;
        let mut i: usize = 0;
        while i < n
            invariant
                fs == fragments@,
                n == fs.len(),
                total == line_bytes_before(fs, n as int),
                total <= COUNT_LIMIT,
                0 <= cw <= PX_LIMIT,
                i <= n,
                base == line_bytes_before(fs, i as int),
                line_start <= base,
                0 <= x <= wide_limit(),
                cw == clamp_extent(self.cell_width as int),
                (x as int, line_start as int, out@) == wrap_fragments(fs, i as int, cw as int, wrap_width as int),
                forall|q: int|
                    0 <= q < out@.len() ==> 0 < (#[trigger] out@[q]).ix < total && is_break_position(fs, out@[q].ix as int)
                        && out@[q].next_indent == 0 && out@[q].ix <= line_start,
                forall|a: int, b: int| 0 <= a < b < out@.len() ==> out@[a].ix < out@[b].ix,
                out@.len() > 0 ==> out@.last().ix == line_start,
            decreases n - i,
        {
            proof {
                lemma_line_bytes_before_mono(fs, i as int + 1, n as int);
                assert(line_bytes_before(fs, i as int + 1) == base + line_fragment_bytes(fs[i as int]));
            }
            match &fragments[i] {
                LineFragment::Text { text } => {
                    let chars = text_chars(text.as_str());
                    let m = chars.len();
                    let mut off: usize = 0;
                    let mut k: usize = 0;
                    while k < m
                        invariant
                            fs == fragments@,
                            n == fs.len(),
                            i < n,
                            fs[i as int] == (LineFragment::Text { text: *text }),
                            chars@ == text@,
                            m == text@.len(),
                            total == line_bytes_before(fs, n as int),
                            total <= COUNT_LIMIT,
                            base == line_bytes_before(fs, i as int),
                            base + utf8_len(text@) <= total,
                            0 <= cw <= PX_LIMIT,
                            k <= m,
                            off == cell_offset(text@, k as int),
                            line_start <= base + off,
                            0 <= x <= wide_limit(),
                            (x as int, line_start as int, out@) == wrap_text(
                                wrap_fragments(fs, i as int, cw as int, wrap_width as int),
                                base as int,
                                text@,
                                k as int,
                                cw as int,
                                wrap_width as int,
                            ),
                            forall|q: int|
                                0 <= q < out@.len() ==> 0 < (#[trigger] out@[q]).ix < total && is_break_position(
                                    fs,
                                    out@[q].ix as int,
                                ) && out@[q].next_indent == 0 && out@[q].ix <= line_start,
                            forall|a: int, b: int| 0 <= a < b < out@.len() ==> out@[a].ix < out@[b].ix,
                            out@.len() > 0 ==> out@.last().ix == line_start,
                        decreases m - k,
                    {
                        proof {
                            lemma_cell_offset_step(text@, k as int);
                            lemma_cell_offset_mono(text@, k as int + 1, m as int);
                            lemma_cell_offset_end(text@);
                        }
                        let pos = base + off;
                        if pos > line_start && x + cw > wrap_width {
                            proof {
                                assert forall|j: int| 0 <= j < k implies cell_offset(text@, j) < cell_offset(text@, k as int) by {
                                    lemma_cell_offset_strict(text@, j, k as int);
                                }
                                lemma_ceil_cell_unique(text@, off as int, k as int);
                                assert(fragment_break(fs[i as int], pos - line_bytes_before(fs, i as int)));
                                assert(is_break_position(fs, pos as int));
                            }
                            out.push(Boundary { ix: pos, next_indent: 0 });
                            line_start = pos;
                            x = 0;
                        }
                        x = if x + cw > crate::geometry::WIDE_LIMIT { crate::geometry::WIDE_LIMIT } else { x + cw };
                        off = off + char_len_utf8(chars[k]);
                        k = k + 1;
                    }
                    proof {
                        lemma_cell_offset_end(text@);
                    }
                    base = base + off;
                },
                LineFragment::Element { width, len_utf8 } => {
                    let w = clamp_extent_px(*width);
                    let pos = base;
                    if *len_utf8 > 0 && pos > line_start && x + w > wrap_width {
                        proof {
                            assert(fragment_break(fs[i as int], pos - line_bytes_before(fs, i as int)));
                            assert(is_break_position(fs, pos as int));
                        }
                        out.push(Boundary { ix: pos, next_indent: 0 });
                        line_start = pos;
                        x = 0;
                    }
                    x = if x + w > crate::geometry::WIDE_LIMIT { crate::geometry::WIDE_LIMIT } else { x + w };
                    base = base + *len_utf8;
                },
            }
            i = i + 1;
        }
        out
    }
}

impl LayoutHost<Size> for MonospaceHost {
    type Model = MonospaceHost;

    /// The host is its own model: its cell width and metrics.
    open spec fn model(&self) -> MonospaceHost {
        *self
    }

    /// An element is as large as the size it carries, clamped.
    open spec fn measures(
        m: MonospaceHost,
        element: Size,
        context: InlineElementContext,
        space: AvailableSize,
        r: Size,
    ) -> bool {
        r.width == clamp_extent(element.width as int) && r.height == clamp_extent(element.height as int)
    }

    /// The breaks are those of grid wrapping with the host's clamped cell
    /// width.
    open spec fn wraps(
        m: MonospaceHost,
        fragments: Seq<LineFragment>,
        wrap_width: Pixels,
        font: Font,
        font_size: Pixels,
        r: Seq<Boundary>,
    ) -> bool {
        r == grid_breaks(fragments, clamp_extent(m.cell_width as int), wrap_width as int)
    }

    /// Each character takes one cell of the host's clamped cell width, the
    /// glyphs start at the characters' cells, and the text stands the host's
    /// clamped ascent above and descent below the baseline.
    open spec fn shapes(m: MonospaceHost, text: Seq<char>, font_size: Pixels, run: TextRun, r: ShapedLine) -> bool {
        let cw = clamp_extent(m.cell_width as int);
        &&& r.width == cell_x(text.len() as int, cw)
        &&& r.ascent == clamp_extent(m.ascent as int)
        &&& r.descent == clamp_extent(m.descent as int)
        &&& r.glyphs@.len() == text.len()
        &&& forall|k: int|
            0 <= k < text.len() ==> (#[trigger] r.glyphs@[k]).index == cell_offset(text, k) && r.glyphs@[k].x
                == cell_x(k, cw)
    }

    /// Every character advances by the host's clamped cell width.
    open spec fn advances(m: MonospaceHost, font: Font, font_size: Pixels, ch: char, r: Option<Size>) -> bool {
        r == Some(Size { width: clamp_extent(m.cell_width as int) as Pixels, height: 0 })
    }

    fn layout_element(&mut self, element: &Size, context: &InlineElementContext, space: AvailableSize) -> (r: Size)
        ensures
            r.width == clamp_extent(element.width as int),
            r.height == clamp_extent(element.height as int),
    {
        Size { width: clamp_extent_px(element.width), height: clamp_extent_px(element.height) }
    }

    fn shape_line(&mut self, text: &str, font_size: Pixels, run: &TextRun) -> (r: ShapedLine)
        ensures
            r.width == cell_x(text@.len() as int, clamp_extent(old(self).cell_width as int)),
            r.ascent == clamp_extent(old(self).ascent as int),
            r.descent == clamp_extent(old(self).descent as int),
    {
        self.shape(text)
    }

    fn wrap_line(&mut self, fragments: &Vec<LineFragment>, wrap_width: Pixels, font: &Font, font_size: Pixels) -> (r:
        Vec<Boundary>)
        ensures
            r@ == grid_breaks(fragments@, clamp_extent(old(self).cell_width as int), wrap_width as int),
    {
        self.wrap(fragments, wrap_width)
    }

    fn advance(&mut self, font: &Font, font_size: Pixels, ch: char) -> (r: Option<Size>)
        ensures
            r == Some(Size { width: clamp_extent(old(self).cell_width as int) as Pixels, height: 0 }),
    {
        Some(Size { width: clamp_extent_px(self.cell_width), height: 0 })
    }
}

} // verus!
