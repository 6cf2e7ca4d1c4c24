use vstd::prelude::*;
use crate::geometry::{Pixels, PX_LIMIT, COUNT_LIMIT, WIDE_LIMIT, extent_ok, coord_ok, wide_limit, tall_limit};
use crate::text::{utf8_len, text_chars, char_len_utf8, lemma_utf8_len_concat};
use crate::shaping::ShapedLine;
use crate::content::InlineElementInstance;
use crate::slices::InlineFragmentLayout;
use crate::wrap_line::{InlineWrapLine, ShapedSegment};
use crate::layout::{InlineSpanLayout, lines_stacked, heights_before, prepared_in_bounds};
use crate::line_build::layouts_in_bounds;

verus! {

/// Whether `v` is a length the layout accepts as an extent.
pub fn extent_in_range(v: Pixels) -> (r: bool)
    ensures
        r == extent_ok(v as int),
{
    0 <= v && v <= PX_LIMIT
}

/// Whether `v` is a coordinate within the range layout positions may take.
pub fn coord_in_range(v: Pixels) -> (r: bool)
    ensures
        r == coord_ok(v as int),
{
    assert(2 * tall_limit() == 0x2000_0000_0000_0000);
    -0x2000_0000_0000_0000 <= v && v <= 0x2000_0000_0000_0000
}

/// The UTF-8 length of `text` when it is at most `limit`, else `None`.
pub fn utf8_len_within(text: &str, limit: usize) -> (r: Option<usize>)
    requires
        limit <= COUNT_LIMIT,
    ensures
        match r {
            Some(n) => n == utf8_len(text@) && n <= limit,
            None => utf8_len(text@) > limit,
        },
{
    let chars = text_chars(text);
    let n = chars.len();
    let mut total: usize = 0;
    let mut i: usize = 0;
    while i < n
        invariant
            chars@ == text@,
            n == chars@.len(),
            i <= n,
            limit <= COUNT_LIMIT,
            total == utf8_len(chars@.take(i as int)),
            total <= limit,
        decreases n - i,
    {
        let w = char_len_utf8(chars[i]);
        proof {
            assert(chars@.take(i + 1).drop_last() =~= chars@.take(i as int));
            assert(chars@.take(i + 1).last() == chars@[i as int]);
        }
        total = total + w;
        if total > limit {
            proof {
                lemma_utf8_len_concat(chars@.take(i + 1), chars@.skip(i + 1));
                assert(chars@.take(i + 1) + chars@.skip(i + 1) =~= chars@);
            }
            return None;
        }
        i = i + 1;
    }
    proof {
        assert(chars@.take(n as int) =~= chars@);
    }
    Some(total)
}

impl ShapedLine {
    /// Whether the shaped line is consistent (`wf`).
    pub fn is_wf(&self) -> (r: bool)
        ensures
            r == self.wf(),
    {
        match utf8_len_within(self.text.as_str(), COUNT_LIMIT) {
            None => false,
            Some(n) => {
                if n != self.len || !extent_in_range(self.width) || !extent_in_range(self.ascent)
                    || !extent_in_range(self.descent) {
                    return false;
                }
                let mut k: usize = 0;
                while k < self.glyphs.len()
                    invariant
                        k <= self.glyphs@.len(),
                        forall|m: int|
                            0 <= m < k ==> #[trigger] self.glyphs@[m].index <= self.len && 0 <= self.glyphs@[m].x
                                <= self.width,
                    decreases self.glyphs@.len() - k,
                {
                    let g = self.glyphs[k];
                    if g.index > self.len || g.x < 0 || g.x > self.width {
                        return false;
                    }
                    k = k + 1;
                }
                true
            },
        }
    }
}

impl ShapedSegment {
    /// Whether the segment is consistent (`wf`).
    pub fn is_wf(&self) -> (r: bool)
        ensures
            r == self.wf(),
    {
        match self {
            ShapedSegment::Text { shaped, start_in_fragment, logical_start, logical_end, .. } => shaped.is_wf()
                && *start_in_fragment <= COUNT_LIMIT && *logical_start <= *logical_end && *logical_end
                <= COUNT_LIMIT,
            ShapedSegment::Element { width, logical_start, logical_end, .. } => extent_in_range(*width)
                && *logical_start <= *logical_end && *logical_end <= COUNT_LIMIT,
        }
    }
}

impl InlineWrapLine {
    /// Whether the line's segments are consistent and its horizontal extent
    /// is within bounds (`geometry_ok`).
    pub fn is_geometry_ok(&self) -> (r: bool)
        ensures
            r == self.geometry_ok(),
    {
        assert(wide_limit() == WIDE_LIMIT);
        if self.shaped_segments.len() > COUNT_LIMIT || self.line_origin.x < -WIDE_LIMIT || self.line_origin.x
            > WIDE_LIMIT || self.width < -WIDE_LIMIT || self.width > WIDE_LIMIT {
            return false;
        }
        let mut k: usize = 0;
        while k < self.shaped_segments.len()
            invariant
                k <= self.shaped_segments@.len(),
                forall|m: int| 0 <= m < k ==> (#[trigger] self.shaped_segments@[m]).wf(),
            decreases self.shaped_segments@.len() - k,
        {
            if !self.shaped_segments[k].is_wf() {
                return false;
            }
            k = k + 1;
        }
        true
    }

    /// Whether the line box is within bounds (`box_ok`).
    pub fn is_box_ok(&self) -> (r: bool)
        ensures
            r == self.box_ok(),
    {
        assert(tall_limit() == 0x1000_0000_0000_0000);
        0 <= self.line_origin.y && self.line_origin.y <= 0x1000_0000_0000_0000 && 0 <= self.line_origin.x && 0
            <= self.width && 0 <= self.height && self.height <= 4 * PX_LIMIT && 0 <= self.baseline_above_top
            && self.baseline_above_top <= 4 * PX_LIMIT
    }
}

impl InlineElementInstance {
    /// Whether the instance is within bounds (`in_bounds`).
    pub fn is_in_bounds(&self) -> (r: bool)
        ensures
            r == self.in_bounds(),
    {
        extent_in_range(self.size.width) && extent_in_range(self.size.height) && match self.baseline_offset {
            Some(b) => -PX_LIMIT <= b && b <= PX_LIMIT,
            None => true,
        } && coord_in_range(self.bounds.origin.x) && coord_in_range(self.bounds.origin.y)
    }
}

impl InlineSpanLayout {
    /// Whether the layout is consistent (`wf`): what its queries and painting
    /// require.
    pub fn is_wf(&self) -> (r: bool)
        ensures
            r == self.wf(),
    {
        let lines = &self.lines;
        if lines.len() > COUNT_LIMIT {
            return false;
        }
        let mut y: Pixels = 0;
        let mut j: usize = 0;
        while j < lines.len()
            invariant
                lines@ == self.lines@,
                lines@.len() <= COUNT_LIMIT,
                j <= lines@.len(),
                y == heights_before(lines@, j as int),
                0 <= y <= j * (4 * PX_LIMIT),
                forall|i: int|
                    0 <= i < j ==> (#[trigger] lines@[i]).geometry_ok() && lines@[i].box_ok()
                        && lines@[i].line_origin.y == heights_before(lines@, i) && lines@[i].indent_px
                        == lines@[i].line_origin.x,
            decreases lines@.len() - j,
        {
            let line = &lines[j];
            if !line.is_geometry_ok() || !line.is_box_ok() || line.line_origin.y != y || line.indent_px
                != line.line_origin.x {
                proof {
                    assert(lines@[j as int] == *line);
                    assert(!lines_stacked(lines@));
                }
                return false;
            }
            proof {
                assert((j + 1) * (4 * PX_LIMIT) == j * (4 * PX_LIMIT) + 4 * PX_LIMIT) by (nonlinear_arith);
                assert(j * (4 * PX_LIMIT) <= COUNT_LIMIT * (4 * PX_LIMIT)) by (nonlinear_arith)
                    requires j <= COUNT_LIMIT;
            }
            y = y + line.height;
            j = j + 1;
        }
        let layouts = &self.fragment_layouts;
        let mut i: usize = 0;
        while i < layouts.len()
            invariant
                layouts@ == self.fragment_layouts@,
                lines_stacked(self.lines@),
                i <= layouts@.len(),
                forall|m: int|
                    0 <= m < i ==> (#[trigger] layouts@[m] matches InlineFragmentLayout::Element { instance }
                        ==> instance.in_bounds()),
            decreases layouts@.len() - i,
        {
            match &layouts[i] {
                InlineFragmentLayout::Element { instance } => {
                    if !instance.is_in_bounds() {
                        proof {
                            assert(layouts@[i as int] == InlineFragmentLayout::Element { instance: *instance });
                            assert(!layouts_in_bounds(layouts@));
                        }
                        return false;
                    }
                },
                InlineFragmentLayout::Text => {},
            }
            i = i + 1;
        }
        let prepared = &self.prepared_elements;
        let mut p: usize = 0;
        while p < prepared.len()
            invariant
                prepared@ == self.prepared_elements@,
                lines_stacked(self.lines@),
                layouts_in_bounds(self.fragment_layouts@),
                p <= prepared@.len(),
                forall|m: int| 0 <= m < p ==> (#[trigger] prepared@[m] matches Some(inst) ==> inst.in_bounds()),
            decreases prepared@.len() - p,
        {
            match &prepared[p] {
                Some(inst) => {
                    if !inst.is_in_bounds() {
                        proof {
                            assert(prepared@[p as int] == Some(*inst));
                            assert(!prepared_in_bounds(prepared@));
                        }
                        return false;
                    }
                },
                None => {},
            }
            p = p + 1;
        }
        true
    }
}

} // verus!
