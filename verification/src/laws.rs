use vstd::prelude::*;
use crate::geometry::{Pixels, px_ok, spec_half};
use crate::text::{cell_offset, ceil_cell, lemma_ceil_cell_unique, lemma_cell_offset_strict};
use crate::content::{InlineElementAlign, InlineElementInstance, CaretAffinity};
use crate::wrap_line::{InlineWrapLine, ShapedSegment, seg_stop_x, seg_stop_index};
use crate::line_build::placed;
use crate::layout::{InlineSpanLayout, layout_reusable};
use crate::queries::{selections_upto, spec_rects, rects_upto, target_line_from, position_from, line_rect};
use crate::coverage::lines_chain;
use crate::slices::spec_intersect;
use crate::wrap_line::{widths_before, x_walk, lemma_x_walk_bounds};
use crate::layout::lines_stacked;
use crate::coverage::elements_single_cell;
use crate::builder::{InlineSpanBuilder, InlineSpanChild, ElementChild, IntoInlineChild};
use crate::content::{InlineFragment, InlineElementSlot};
use crate::style::TextStyle;
use crate::wrap_line::{SelectionSegment, selection_upto, index_walk, seg_selection};
use crate::shaping::{ShapedGlyph, ShapedLine, glyph_x_from, glyph_index_upto};
use crate::text::{lemma_cell_offset_mono, lemma_cell_offset_end};
use crate::line_build::{spec_text_font_size, spec_text_run};
use crate::content::InlineContent;
use crate::style::TextRun;

verus! {

/// Converting a cell index of a text to its byte offset and back gives the
/// cell index again.
pub proof fn law_cell_byte_round_trip(t: Seq<char>, c: int)
    requires
        0 <= c <= t.len(),
    ensures
        ceil_cell(t, cell_offset(t, c) as int) == c,
{
    assert forall|j: int| 0 <= j < c implies cell_offset(t, j) < cell_offset(t, c) by {
        lemma_cell_offset_strict(t, j, c);
    }
    lemma_ceil_cell_unique(t, cell_offset(t, c) as int, c);
}

/// A layout marked for recomputation is never reused by a measurement,
/// whatever the constraints.
pub proof fn law_dirty_layout_is_recomputed(layout: InlineSpanLayout, wrap_width: Option<Pixels>, hint: Pixels)
    requires
        layout.dirty,
    ensures
        !layout_reusable(layout, wrap_width, hint),
{
}

/// Where an element is placed on a line: a `Top` element's top edge is the
/// line's top, a `Bottom` element's bottom edge is the line's bottom, a
/// `Middle` element is centered in the line (rounding toward the top), and
/// an `Auto` element with a baseline offset has its baseline on the line's
/// baseline; its left edge is where it is placed.
pub proof fn law_element_alignment(inst: InlineElementInstance, x: Pixels, line: InlineWrapLine)
    requires
        line.box_ok(),
        inst.size.is_extent(),
        inst.baseline_offset matches Some(o) ==> px_ok(o as int),
    ensures
        ({
            let p = placed(inst, x as int, line);
            let top = p.bounds.origin.y as int;
            let h = inst.size.height as int;
            &&& p.bounds.origin.x == x
            &&& p.bounds.size == inst.size
            &&& inst.align == InlineElementAlign::Top ==> top == line.line_origin.y
            &&& inst.align == InlineElementAlign::Bottom ==> top + h == line.line_origin.y + line.height
            &&& inst.align == InlineElementAlign::Middle ==> top == line.line_origin.y + spec_half(line.height - h)
            &&& (inst.align == InlineElementAlign::Auto && inst.baseline_offset is Some) ==> top
                + inst.baseline_offset->0 == line.line_origin.y + line.baseline_above_top
        }),
{
}

/// Hit testing clamps to the line: a point at or before its left edge gives
/// its first index, one past its left edge and at or past its right edge (on
/// a line with segments) its end index.
pub proof fn law_index_for_x_clamps(line: InlineWrapLine, x: int, affinity: CaretAffinity)
    ensures
        x <= line.line_origin.x ==> line.spec_index_for_x(x, affinity) == line.logical_start,
        line.shaped_segments@.len() > 0 && x > line.line_origin.x && x >= line.line_origin.x + line.width ==> line.spec_index_for_x(
            x,
            affinity,
        ) == line.logical_end,
{
}

/// An empty logical range selects nothing and has no selection rectangles.
pub proof fn law_empty_range_selects_nothing(lines: Seq<InlineWrapLine>, start: int, end: int, j: int)
    requires
        start >= end,
    ensures
        selections_upto(lines, start, end, j).len() == 0,
        spec_rects(lines, start, end).len() == 0,
    decreases j,
{
    if j > 0 {
        law_empty_range_selects_nothing(lines, start, end, j - 1);
    }
}

/// At a logical index inside an inline element, the downstream caret is one
/// element width to the right of the upstream caret.
pub proof fn law_element_caret_sides(seg: ShapedSegment, idx: int)
    requires
        seg is Element,
        seg.spec_logical_start() <= idx < seg.spec_logical_end(),
    ensures
        seg_stop_x(seg, idx, CaretAffinity::Upstream) == Some(0int),
        seg_stop_x(seg, idx, CaretAffinity::Downstream) == Some(seg.spec_width()),
{
}

/// A point on an inline element hits the index before it when left of its
/// middle, the index after it when right of its middle, and at the middle
/// the side the affinity prefers.
pub proof fn law_element_hit_sides(seg: ShapedSegment, x: int, affinity: CaretAffinity, cursor: int)
    requires
        seg is Element,
        x <= cursor + seg.spec_width(),
    ensures
        ({
            let mid = cursor + spec_half(seg.spec_width());
            let hit = seg_stop_index(seg, x, affinity, cursor);
            &&& x < mid ==> hit == Some(seg.spec_logical_start())
            &&& x > mid ==> hit == Some(seg.spec_logical_end())
            &&& x == mid ==> hit == Some(
                if affinity == CaretAffinity::Upstream { seg.spec_logical_start() } else { seg.spec_logical_end() },
            )
        }),
{
}

/// Hit testing by height clamps to the lines: a point at or above the first
/// line's bottom falls on the first line, one below every line on the last.
pub proof fn law_points_outside_fall_on_edge_lines(lines: Seq<InlineWrapLine>, y: int)
    requires
        lines.len() > 0,
        lines_stacked(lines),
    ensures
        y <= lines[0].line_origin.y + lines[0].height ==> target_line_from(lines, y, 0) == Some(0int),
        (forall|j: int| 0 <= j < lines.len() ==> y > (#[trigger] lines[j]).line_origin.y + lines[j].height)
            ==> target_line_from(lines, y, 0) == Some(lines.len() - 1),
{
    if forall|j: int| 0 <= j < lines.len() ==> y > (#[trigger] lines[j]).line_origin.y + lines[j].height {
        lemma_below_all(lines, y, 0);
    }
}

proof fn lemma_below_all(lines: Seq<InlineWrapLine>, y: int, j: int)
    requires
        0 <= j <= lines.len(),
        lines.len() > 0,
        lines_stacked(lines),
        forall|k: int| 0 <= k < lines.len() ==> y > (#[trigger] lines[k]).line_origin.y + lines[k].height,
    ensures
        target_line_from(lines, y, j) == Some(lines.len() - 1),
    decreases lines.len() - j,
{
    if j < lines.len() {
        assert(lines[j].box_ok());
        lemma_below_all(lines, y, j + 1);
    }
}

/// A selected part is one cell wide when it is an element.
pub open spec fn selection_single_cell(seg: SelectionSegment) -> bool {
    match seg {
        SelectionSegment::Element { logical_range, .. } => logical_range.end == logical_range.start + 1,
        SelectionSegment::Text { .. } => true,
    }
}

/// On lines whose elements occupy one cell each, every selected element
/// covers exactly its one cell.
pub proof fn law_selected_elements_are_single_cells(lines: Seq<InlineWrapLine>, start: int, end: int, j: int)
    requires
        elements_single_cell(lines),
        0 <= j <= lines.len(),
    ensures
        forall|q: int, m: int|
            #![trigger selections_upto(lines, start, end, j)[q].3[m]]
            0 <= q < selections_upto(lines, start, end, j).len() && 0 <= m < selections_upto(lines, start, end, j)[q].3.len()
                ==> selection_single_cell(selections_upto(lines, start, end, j)[q].3[m]),
    decreases j,
{
    if j > 0 {
        law_selected_elements_are_single_cells(lines, start, end, j - 1);
        let line = lines[j - 1];
        let prev = selections_upto(lines, start, end, j - 1);
        let cur = selections_upto(lines, start, end, j);
        match line.spec_selection(start, end) {
            Some((overlap, segs)) => {
                lemma_line_selection_single_cell(lines, j - 1, overlap, line.shaped_segments@.len() as int);
                assert forall|q: int, m: int|
                    #![trigger cur[q].3[m]]
                    0 <= q < cur.len() && 0 <= m < cur[q].3.len() implies selection_single_cell(cur[q].3[m]) by {
                    if q < prev.len() {
                        assert(cur[q] == prev[q]);
                    }
                }
            },
            None => {},
        }
    }
}

proof fn lemma_line_selection_single_cell(lines: Seq<InlineWrapLine>, j: int, overlap: (int, int), k: int)
    requires
        elements_single_cell(lines),
        0 <= j < lines.len(),
        0 <= k <= lines[j].shaped_segments@.len(),
    ensures
        forall|m: int|
            0 <= m < selection_upto(lines[j].shaped_segments@, overlap, k).len() ==> selection_single_cell(
                #[trigger] selection_upto(lines[j].shaped_segments@, overlap, k)[m],
            ),
    decreases k,
{
    if k > 0 {
        lemma_line_selection_single_cell(lines, j, overlap, k - 1);
        let segs = lines[j].shaped_segments@;
        let prev = selection_upto(segs, overlap, k - 1);
        let cur = selection_upto(segs, overlap, k);
        let seg = segs[k - 1];
        assert(seg is Element ==> seg.spec_logical_end() == seg.spec_logical_start() + 1) by {
            assert(lines[j].shaped_segments@[k - 1] == seg);
        }
        assert forall|m: int| 0 <= m < cur.len() implies selection_single_cell(#[trigger] cur[m]) by {
            if m < prev.len() {
                assert(cur[m] == prev[m]);
            }
        }
    }
}

/// A span child with an alignment adds its element with that alignment, and
/// leaves the builder's alignment as it was.
pub proof fn law_span_child_aligns_its_element<E>(
    before: InlineSpanBuilder<E>,
    after: InlineSpanBuilder<E>,
    element: E,
    align: InlineElementAlign,
)
    requires
        (InlineSpanChild { content: ElementChild(element), alignment: Some(align), style: None }).added(
            before,
            after,
        ),
    ensures
        after.fragments@ == before.fragments@.push(
            InlineFragment::Element { slot: InlineElementSlot { element, align } },
        ),
        after.inline_align == before.inline_align,
{
}

/// A span child with a style adds its text in that style, whatever the
/// builder's default style.
pub proof fn law_span_child_styles_its_text<'a, E>(
    before: InlineSpanBuilder<E>,
    after: InlineSpanBuilder<E>,
    text: &'a str,
    style: TextStyle,
)
    requires
        (InlineSpanChild { content: text, alignment: None, style: Some(style) }).added(before, after),
    ensures
        after.fragments@.len() == before.fragments@.len() + 1,
        after.fragments@.last() matches InlineFragment::Text { text: t, style: s } && t@ == text@ && s == Some(style),
        after.inline_align == before.inline_align,
{
}

/// On a line whose width is the advance of its segments, a caret position
/// lies between the line's left and right edges, and an index before the
/// line is at its left edge.
pub proof fn law_x_for_index_range(line: InlineWrapLine, idx: int, affinity: CaretAffinity)
    requires
        line.geometry_ok(),
        line.width == widths_before(line.shaped_segments@, line.shaped_segments@.len() as int),
    ensures
        idx < line.logical_start ==> line.spec_x_for_index(idx, affinity) == Some(line.line_origin.x as int),
        line.spec_x_for_index(idx, affinity) matches Some(x) ==> line.line_origin.x <= x <= line.line_origin.x
            + line.width,
{
    let segs = line.shaped_segments@;
    assert(widths_before(segs, 0) == 0);
    crate::wrap_line::lemma_widths_bounds(segs, segs.len() as int);
    lemma_x_walk_bounds(segs, idx, affinity, 0, line.line_origin.x as int);
}

/// Caret positioning and hit testing agree at a line's edges: the caret of
/// an index before the line is at its left edge, which hits the line's
/// first index; a caret at the right edge of a line with segments and
/// width hits the line's end index.
pub proof fn law_caret_and_hit_agree_at_edges(line: InlineWrapLine, idx: int, affinity: CaretAffinity)
    requires
        line.width >= 0,
    ensures
        idx < line.logical_start ==> line.spec_x_for_index(idx, affinity) == Some(line.line_origin.x as int)
            && line.spec_index_for_x(line.line_origin.x as int, affinity) == line.logical_start,
        line.shaped_segments@.len() > 0 && line.width > 0 && line.spec_x_for_index(idx, affinity) == Some(
            line.line_origin.x + line.width,
        ) ==> line.spec_index_for_x(line.line_origin.x + line.width, affinity) == line.logical_end,
{
}

/// Along chained lines, logical ends grow.
proof fn lemma_chain_ends(lines: Seq<InlineWrapLine>, total: int, k: int, m: int)
    requires
        lines_chain(lines, total),
        0 <= k <= m < lines.len(),
    ensures
        lines[k].logical_end <= lines[m].logical_end,
        lines[k].logical_start <= lines[m].logical_start,
    decreases m - k,
{
    if k < m {
        lemma_chain_ends(lines, total, k, m - 1);
        assert(lines[m - 1].logical_end == lines[m].logical_start);
        assert(lines[m - 1].logical_start < lines[m - 1].logical_end);
    }
}

/// The caret position of a logical index among chained lines is taken on
/// the first line that reaches it, from its left edge to its end.
pub proof fn law_position_uses_first_line_reaching_index(
    lines: Seq<InlineWrapLine>,
    total: int,
    idx: int,
    affinity: CaretAffinity,
    j: int,
)
    requires
        lines_chain(lines, total),
        0 <= j < lines.len(),
        lines[j].logical_start <= idx <= lines[j].logical_end,
        forall|k: int| 0 <= k < j ==> (#[trigger] lines[k]).logical_end < idx,
    ensures
        position_from(lines, idx, affinity, 0) == match lines[j].spec_x_for_index(idx, affinity) {
            Some(x) => Some((x, lines[j].line_origin.y + lines[j].baseline_above_top)),
            None => None::<(int, int)>,
        },
{
    lemma_position_walk(lines, total, idx, affinity, j, 0);
}

proof fn lemma_position_walk(lines: Seq<InlineWrapLine>, total: int, idx: int, affinity: CaretAffinity, j: int, k: int)
    requires
        lines_chain(lines, total),
        0 <= k <= j < lines.len(),
        lines[j].logical_start <= idx <= lines[j].logical_end,
        forall|m: int| 0 <= m < j ==> (#[trigger] lines[m]).logical_end < idx,
    ensures
        position_from(lines, idx, affinity, k) == match lines[j].spec_x_for_index(idx, affinity) {
            Some(x) => Some((x, lines[j].line_origin.y + lines[j].baseline_above_top)),
            None => None::<(int, int)>,
        },
    decreases j - k,
{
    if k < j {
        lemma_position_walk(lines, total, idx, affinity, j, k + 1);
        lemma_chain_ends(lines, total, k, j);
        assert(lines[k].logical_end < idx);
        assert(lines[k].logical_start < lines[k].logical_end);
    }
}

/// Among chained lines covering `[0, total)`, an index past the end has no
/// caret position.
pub proof fn law_position_none_past_end(lines: Seq<InlineWrapLine>, total: int, idx: int, affinity: CaretAffinity)
    requires
        lines_chain(lines, total),
        idx > total,
    ensures
        position_from(lines, idx, affinity, 0) is None,
{
    lemma_position_past(lines, total, idx, affinity, 0);
}

proof fn lemma_position_past(lines: Seq<InlineWrapLine>, total: int, idx: int, affinity: CaretAffinity, k: int)
    requires
        lines_chain(lines, total),
        idx > total,
        0 <= k <= lines.len(),
    ensures
        position_from(lines, idx, affinity, k) is None,
    decreases lines.len() - k,
{
    if k < lines.len() {
        lemma_position_past(lines, total, idx, affinity, k + 1);
        lemma_chain_ends(lines, total, k, lines.len() - 1);
        assert(lines[k].logical_start < lines[k].logical_end);
    }
}

/// Each selection of a range is on a distinct line, in order, covers the
/// range's overlap with that line, and has at least one selected part.
pub proof fn law_selections_per_line(lines: Seq<InlineWrapLine>, start: int, end: int, j: int)
    requires
        0 <= j <= lines.len(),
        lines.len() <= crate::geometry::COUNT_LIMIT,
    ensures
        forall|q: int|
            0 <= q < selections_upto(lines, start, end, j).len() ==> {
                let sel = #[trigger] selections_upto(lines, start, end, j)[q];
                &&& sel.0 < j
                &&& sel.3.len() > 0
                &&& spec_intersect((start, end), (lines[sel.0 as int].logical_start as int, lines[sel.0 as int].logical_end as int))
                    == Some((sel.1 as int, sel.2 as int))
            },
        forall|a: int, b: int|
            0 <= a < b < selections_upto(lines, start, end, j).len() ==> selections_upto(lines, start, end, j)[a].0
                < selections_upto(lines, start, end, j)[b].0,
    decreases j,
{
    if j > 0 {
        law_selections_per_line(lines, start, end, j - 1);
        let prev = selections_upto(lines, start, end, j - 1);
        let cur = selections_upto(lines, start, end, j);
        assert forall|q: int| 0 <= q < cur.len() implies {
            let sel = #[trigger] cur[q];
            &&& sel.0 < j
            &&& sel.3.len() > 0
            &&& spec_intersect((start, end), (lines[sel.0 as int].logical_start as int, lines[sel.0 as int].logical_end as int))
                == Some((sel.1 as int, sel.2 as int))
        } by {
            if q < prev.len() {
                assert(cur[q] == prev[q]);
            } else {
                let line = lines[j - 1];
                match spec_intersect((start, end), (line.logical_start as int, line.logical_end as int)) {
                    Some(ov) => {
                        assert(line.logical_start <= ov.0 < ov.1 <= line.logical_end);
                    },
                    None => {},
                }
            }
        }
        assert forall|a: int, b: int| 0 <= a < b < cur.len() implies cur[a].0 < cur[b].0 by {
            assert(cur[a] == prev[a]);
            if b < prev.len() {
                assert(cur[b] == prev[b]);
            }
        }
    }
}

/// The lines among the first `j` that a logical range meets, in order.
pub open spec fn lines_meeting(lines: Seq<InlineWrapLine>, start: int, end: int, j: int) -> Seq<int>
    decreases j,
{
    if j <= 0 || j > lines.len() {
        Seq::empty()
    } else {
        let prev = lines_meeting(lines, start, end, j - 1);
        if spec_intersect((start, end), (lines[j - 1].logical_start as int, lines[j - 1].logical_end as int)) is Some {
            prev.push(j - 1)
        } else {
            prev
        }
    }
}

/// A non-empty range has one selection rectangle per line it meets, in
/// order, at that line's top and as tall as the line.
pub proof fn law_rects_per_line(lines: Seq<InlineWrapLine>, start: int, end: int, j: int)
    requires
        start < end,
        0 <= j <= lines.len(),
    ensures
        rects_upto(lines, start, end, j).len() == lines_meeting(lines, start, end, j).len(),
        forall|q: int|
            0 <= q < rects_upto(lines, start, end, j).len() ==> {
                let line = lines[lines_meeting(lines, start, end, j)[q]];
                &&& (#[trigger] rects_upto(lines, start, end, j)[q]).origin.y == line.line_origin.y
                &&& rects_upto(lines, start, end, j)[q].size.height == line.height
            },
    decreases j,
{
    if j > 0 {
        law_rects_per_line(lines, start, end, j - 1);
        let prev = rects_upto(lines, start, end, j - 1);
        let cur = rects_upto(lines, start, end, j);
        let mp = lines_meeting(lines, start, end, j - 1);
        let mc = lines_meeting(lines, start, end, j);
        assert forall|q: int| 0 <= q < cur.len() implies {
            let line = lines[mc[q]];
            &&& (#[trigger] cur[q]).origin.y == line.line_origin.y
            &&& cur[q].size.height == line.height
        } by {
            if q < prev.len() {
                assert(cur[q] == prev[q]);
                assert(mc[q] == mp[q]);
            }
        }
    }
}

/// The glyphs start at strictly increasing bytes and strictly increasing
/// offsets.
pub open spec fn glyphs_ordered(glyphs: Seq<ShapedGlyph>) -> bool {
    forall|a: int, b: int|
        #![trigger glyphs[a], glyphs[b]]
        0 <= a < b < glyphs.len() ==> glyphs[a].index < glyphs[b].index && glyphs[a].x < glyphs[b].x
}

/// The offset found for a glyph's first byte is that glyph's offset.
proof fn lemma_glyph_x_from_at(glyphs: Seq<ShapedGlyph>, j: int, width: int, k: int)
    requires
        glyphs_ordered(glyphs),
        0 <= k <= j < glyphs.len(),
    ensures
        glyph_x_from(glyphs, glyphs[j].index as int, width, k) == glyphs[j].x,
    decreases j - k,
{
    if k < j {
        assert(glyphs[k].index < glyphs[j].index);
        lemma_glyph_x_from_at(glyphs, j, width, k + 1);
    }
}

/// The glyph found at a glyph's offset is that glyph.
proof fn lemma_glyph_index_upto_at(glyphs: Seq<ShapedGlyph>, j: int, k: int)
    requires
        glyphs_ordered(glyphs),
        0 <= j < k <= glyphs.len(),
    ensures
        glyph_index_upto(glyphs, glyphs[j].x as int, k) == glyphs[j].index,
    decreases k,
{
    if k - 1 > j {
        assert(glyphs[j].x < glyphs[k - 1].x);
        lemma_glyph_index_upto_at(glyphs, j, k - 1);
    }
}

/// On shaped text whose glyphs are in strict order, the offset of a glyph's
/// first byte hits that byte again, for a glyph that starts before the
/// text's full width.
pub proof fn law_shaped_round_trip(shaped: ShapedLine, j: int)
    requires
        glyphs_ordered(shaped.glyphs@),
        0 <= j < shaped.glyphs@.len(),
        shaped.glyphs@[j].x < shaped.width,
    ensures
        shaped.spec_x_for_index(shaped.glyphs@[j].index as int) == shaped.glyphs@[j].x,
        shaped.spec_index_for_x(shaped.spec_x_for_index(shaped.glyphs@[j].index as int)) == Some(
            shaped.glyphs@[j].index,
        ),
{
    lemma_glyph_x_from_at(shaped.glyphs@, j, shaped.width as int, 0);
    lemma_glyph_index_upto_at(shaped.glyphs@, j, shaped.glyphs@.len() as int);
}

/// The caret walk passes over segments that end before the index.
proof fn lemma_x_walk_skip(segs: Seq<ShapedSegment>, idx: int, affinity: CaretAffinity, m: int, k: int, base: int)
    requires
        forall|i: int| 0 <= i < segs.len() ==> (#[trigger] segs[i]).wf(),
        0 <= m <= k < segs.len(),
        forall|i: int| m <= i < k ==> (#[trigger] segs[i]).spec_logical_end() < idx,
    ensures
        x_walk(segs, idx, affinity, m, base + widths_before(segs, m)) == x_walk(
            segs,
            idx,
            affinity,
            k,
            base + widths_before(segs, k),
        ),
    decreases k - m,
{
    if m < k {
        assert(segs[m].spec_logical_end() < idx);
        assert(segs[m].wf());
        assert(seg_stop_x(segs[m], idx, affinity) is None);
        lemma_x_walk_skip(segs, idx, affinity, m + 1, k, base);
    }
}

/// The hit walk passes over segments that end before the offset.
proof fn lemma_index_walk_skip(segs: Seq<ShapedSegment>, x: int, affinity: CaretAffinity, m: int, k: int, base: int)
    requires
        forall|i: int| 0 <= i < segs.len() ==> (#[trigger] segs[i]).wf(),
        0 <= m <= k < segs.len(),
        x > base + widths_before(segs, k),
    ensures
        index_walk(segs, x, affinity, m, base + widths_before(segs, m)) == index_walk(
            segs,
            x,
            affinity,
            k,
            base + widths_before(segs, k),
        ),
    decreases k - m,
{
    if m < k {
        crate::wrap_line::lemma_widths_bounds(segs, k);
        assert(widths_before(segs, m + 1) <= widths_before(segs, k));
        assert(seg_stop_index(segs[m], x, affinity, base + widths_before(segs, m)) is None);
        lemma_index_walk_skip(segs, x, affinity, m + 1, k, base);
    }
}

/// Caret positioning and hit testing agree inside text: on a line whose
/// width is the advance of its segments, take a logical index strictly
/// inside a text segment that lies after every earlier segment, whose
/// character starts a glyph strictly inside the segment (glyphs in strict
/// order); hitting the caret's x position gives the index back, whatever
/// the affinity.
pub proof fn law_caret_and_hit_round_trip(line: InlineWrapLine, idx: int, k: int, j: int, affinity: CaretAffinity)
    requires
        line.geometry_ok(),
        line.width == widths_before(line.shaped_segments@, line.shaped_segments@.len() as int),
        line.logical_start <= idx,
        0 <= k < line.shaped_segments@.len(),
        forall|i: int| 0 <= i < k ==> (#[trigger] line.shaped_segments@[i]).spec_logical_end() < idx,
        line.shaped_segments@[k] matches ShapedSegment::Text { logical_start, logical_end, shaped, .. } && {
            &&& logical_end - logical_start == shaped.text@.len()
            &&& logical_start < idx < logical_end
            &&& glyphs_ordered(shaped.glyphs@)
            &&& 0 <= j < shaped.glyphs@.len()
            &&& shaped.glyphs@[j].index == cell_offset(shaped.text@, idx - logical_start)
            &&& 0 < shaped.glyphs@[j].x < shaped.width
        },
    ensures
        line.spec_x_for_index(idx, affinity) matches Some(x) && line.spec_index_for_x(x, affinity) == idx,
{
    let segs = line.shaped_segments@;
    let seg = segs[k];
    let origin = line.line_origin.x as int;
    if let ShapedSegment::Text { logical_start, logical_end, shaped, .. } = seg {
        let c = idx - logical_start;
        let t = shaped.text@;
        assert(seg.wf());
        lemma_cell_offset_mono(t, c, t.len() as int);
        lemma_cell_offset_end(t);
        law_shaped_round_trip(shaped, j);
        law_cell_byte_round_trip(t, c);
        crate::wrap_line::lemma_widths_bounds(segs, segs.len() as int);
        crate::wrap_line::lemma_widths_bounds(segs, k + 1);
        crate::wrap_line::lemma_widths_bounds(segs, k);
        assert(widths_before(segs, k + 1) <= widths_before(segs, segs.len() as int));
        assert(widths_before(segs, 0) == 0);
        assert(widths_before(segs, k + 1) == widths_before(segs, k) + shaped.width);
        let cursor = origin + widths_before(segs, k);
        let x = cursor + shaped.glyphs@[j].x;
        lemma_x_walk_skip(segs, idx, affinity, 0, k, origin);
        assert(seg_stop_x(seg, idx, affinity) == Some(shaped.glyphs@[j].x as int));
        assert(x_walk(segs, idx, affinity, k, cursor) == Some(x));
        assert(x_walk(segs, idx, affinity, 0, origin) == Some(x));
        assert(origin < x < origin + line.width);
        lemma_index_walk_skip(segs, x, affinity, 0, k, origin);
        assert(seg_stop_index(seg, x, affinity, cursor) == Some(idx));
        assert(index_walk(segs, x, affinity, 0, origin) == Some(idx));
    }
}

/// Fragments with no styled text give no first text style.
proof fn lemma_no_text_style<E>(fs: Seq<InlineFragment<E>>)
    requires
        forall|i: int| 0 <= i < fs.len() ==> !(#[trigger] fs[i] matches InlineFragment::Text { style: Some(_), .. }),
    ensures
        crate::content::first_text_style(fs) is None,
    decreases fs.len(),
{
    if fs.len() > 0 {
        assert(!(fs[0] matches InlineFragment::Text { style: Some(_), .. }));
        assert forall|i: int| 0 <= i < fs.drop_first().len() implies !(#[trigger] fs.drop_first()[i] matches InlineFragment::Text {
            style: Some(_),
            ..
        }) by {
            assert(fs.drop_first()[i] == fs[i + 1]);
        }
        lemma_no_text_style(fs.drop_first());
    }
}

/// Text inherits the window's style: in content with no default style and
/// no style on any text fragment, an unstyled text piece is shaped at the
/// window's font size, in the window's font and colors.
pub proof fn law_unstyled_text_inherits_window_style<E>(
    content: InlineContent<E>,
    window_style: TextStyle,
    rem_size: int,
    len: usize,
)
    requires
        content.default_style is None,
        forall|i: int|
            0 <= i < content.fragments@.len() ==> !(#[trigger] content.fragments@[i] matches InlineFragment::Text {
                style: Some(_),
                ..
            }),
    ensures
        content.spec_resolved_style() is None,
        spec_text_font_size(content, None, window_style, rem_size) == window_style.font_size.spec_to_pixels(rem_size),
        spec_text_run(content, None, window_style, len) == (TextRun {
            len,
            font: window_style.spec_font(),
            color: window_style.color,
            background_color: window_style.background_color,
            underline: window_style.underline,
        }),
{
    lemma_no_text_style(content.fragments@);
}

/// The caret walk passes over segments where it does not stop.
proof fn lemma_x_walk_pass(segs: Seq<ShapedSegment>, idx: int, affinity: CaretAffinity, m: int, k: int, base: int)
    requires
        0 <= m <= k <= segs.len(),
        forall|i: int| m <= i < k ==> seg_stop_x(#[trigger] segs[i], idx, affinity) is None,
    ensures
        x_walk(segs, idx, affinity, m, base + widths_before(segs, m)) == x_walk(
            segs,
            idx,
            affinity,
            k,
            base + widths_before(segs, k),
        ),
    decreases k - m,
{
    if m < k {
        assert(seg_stop_x(segs[m], idx, affinity) is None);
        lemma_x_walk_pass(segs, idx, affinity, m + 1, k, base);
    }
}

/// The caret walk for an index past every segment finds nothing.
proof fn lemma_x_walk_none(segs: Seq<ShapedSegment>, idx: int, affinity: CaretAffinity, base: int)
    requires
        forall|i: int| 0 <= i < segs.len() ==> seg_stop_x(#[trigger] segs[i], idx, affinity) is None,
    ensures
        x_walk(segs, idx, affinity, 0, base) is None,
{
    lemma_x_walk_pass(segs, idx, affinity, 0, segs.len() as int, base);
    assert(widths_before(segs, 0) == 0);
}

/// A line's segments are consistent and lie within the line's logical range.
pub open spec fn segments_within(line: InlineWrapLine) -> bool {
    &&& line.logical_start <= line.logical_end
    &&& forall|m: int|
        0 <= m < line.shaped_segments@.len() ==> (#[trigger] line.shaped_segments@[m]).wf() && line.logical_start
            <= line.shaped_segments@[m].spec_logical_start() && line.shaped_segments@[m].spec_logical_end()
            <= line.logical_end
}

/// An index past the end of a line has no caret position on it.
pub proof fn law_x_for_index_past_end(line: InlineWrapLine, idx: int, affinity: CaretAffinity)
    requires
        segments_within(line),
        idx > line.logical_end,
    ensures
        line.spec_x_for_index(idx, affinity) is None,
{
    let segs = line.shaped_segments@;
    assert forall|i: int| 0 <= i < segs.len() implies seg_stop_x(#[trigger] segs[i], idx, affinity) is None by {
        assert(segs[i].wf());
    }
    lemma_x_walk_none(segs, idx, affinity, line.line_origin.x as int);
}

/// The caret of a line's end index is at the line's right edge, where no
/// segment but the last reaches the end.
pub proof fn law_x_for_index_at_end(line: InlineWrapLine, affinity: CaretAffinity)
    requires
        segments_within(line),
        line.width == widths_before(line.shaped_segments@, line.shaped_segments@.len() as int),
        forall|m: int|
            0 <= m < line.shaped_segments@.len() - 1 ==> (#[trigger] line.shaped_segments@[m]).spec_logical_end()
                < line.logical_end,
    ensures
        line.spec_x_for_index(line.logical_end as int, affinity) == Some(line.line_origin.x + line.width),
{
    let segs = line.shaped_segments@;
    let idx = line.logical_end as int;
    let origin = line.line_origin.x as int;
    let n = segs.len() as int;
    if n == 0 {
        lemma_x_walk_none(segs, idx, affinity, origin);
    } else {
        assert forall|i: int| 0 <= i < n - 1 implies seg_stop_x(#[trigger] segs[i], idx, affinity) is None by {
            assert(segs[i].wf());
        }
        lemma_x_walk_pass(segs, idx, affinity, 0, n - 1, origin);
        assert(widths_before(segs, 0) == 0);
        assert(segs[n - 1].wf());
        assert(widths_before(segs, n) == widths_before(segs, n - 1) + segs[n - 1].spec_width());
        match segs[n - 1] {
            ShapedSegment::Text { .. } => {
                if segs[n - 1].spec_logical_end() == idx {
                    assert(x_walk(segs, idx, affinity, n - 1, origin + widths_before(segs, n - 1)) == Some(
                        origin + line.width,
                    ));
                } else {
                    assert(seg_stop_x(segs[n - 1], idx, affinity) is None);
                    lemma_x_walk_pass(segs, idx, affinity, 0, n, origin);
                }
            },
            ShapedSegment::Element { .. } => {
                assert(seg_stop_x(segs[n - 1], idx, affinity) is None);
                lemma_x_walk_pass(segs, idx, affinity, 0, n, origin);
            },
        }
    }
}

/// On a line, the caret of an element's index is at the element's left
/// edge with upstream affinity and at its right edge with downstream
/// affinity, where every earlier segment ends before the element (an
/// element may end where it starts).
pub proof fn law_element_caret_edges(line: InlineWrapLine, k: int)
    requires
        segments_within(line),
        0 <= k < line.shaped_segments@.len(),
        line.shaped_segments@[k] is Element,
        line.shaped_segments@[k].spec_logical_start() < line.shaped_segments@[k].spec_logical_end(),
        forall|m: int|
            0 <= m < k ==> {
                let seg = #[trigger] line.shaped_segments@[m];
                seg.spec_logical_end() < line.shaped_segments@[k].spec_logical_start() || seg is Element
                    && seg.spec_logical_end() <= line.shaped_segments@[k].spec_logical_start()
            },
    ensures
        ({
            let segs = line.shaped_segments@;
            let s = segs[k].spec_logical_start();
            let left = line.line_origin.x + widths_before(segs, k);
            &&& line.spec_x_for_index(s, CaretAffinity::Upstream) == Some(left)
            &&& line.spec_x_for_index(s, CaretAffinity::Downstream) == Some(left + segs[k].spec_width())
        }),
{
    let segs = line.shaped_segments@;
    let s = segs[k].spec_logical_start();
    let origin = line.line_origin.x as int;
    assert(widths_before(segs, 0) == 0);
    assert forall|i: int| 0 <= i < k implies seg_stop_x(#[trigger] segs[i], s, CaretAffinity::Upstream) is None
        && seg_stop_x(segs[i], s, CaretAffinity::Downstream) is None by {
        assert(segs[i].wf());
    }
    lemma_x_walk_pass(segs, s, CaretAffinity::Upstream, 0, k, origin);
    lemma_x_walk_pass(segs, s, CaretAffinity::Downstream, 0, k, origin);
}

/// The hit walk gives an index within the segments' logical ranges.
proof fn lemma_index_walk_within(line: InlineWrapLine, x: int, affinity: CaretAffinity, k: int, cursor: int)
    requires
        segments_within(line),
        0 <= k,
    ensures
        index_walk(line.shaped_segments@, x, affinity, k, cursor) matches Some(i) ==> line.logical_start <= i
            <= line.logical_end,
    decreases line.shaped_segments@.len() - k,
{
    let segs = line.shaped_segments@;
    if k < segs.len() {
        assert(segs[k].wf());
        lemma_index_walk_within(line, x, affinity, k + 1, cursor + segs[k].spec_width());
    }
}

/// Hit testing gives an index within the line's logical range.
pub proof fn law_index_for_x_in_range(line: InlineWrapLine, x: int, affinity: CaretAffinity)
    requires
        segments_within(line),
    ensures
        line.logical_start <= line.spec_index_for_x(x, affinity) <= line.logical_end,
{
    lemma_index_walk_within(line, x, affinity, 0, line.line_origin.x as int);
}

/// Hitting a point strictly inside an element on a line gives the
/// element's index left of its midpoint, the index after it right of the
/// midpoint, and at the midpoint the side the affinity asks for.
pub proof fn law_element_hit_midpoint(line: InlineWrapLine, k: int, x: int, affinity: CaretAffinity)
    requires
        line.geometry_ok(),
        line.width == widths_before(line.shaped_segments@, line.shaped_segments@.len() as int),
        0 <= k < line.shaped_segments@.len(),
        line.shaped_segments@[k] is Element,
        line.line_origin.x + widths_before(line.shaped_segments@, k) < x < line.line_origin.x + widths_before(
            line.shaped_segments@,
            k,
        ) + line.shaped_segments@[k].spec_width(),
    ensures
        ({
            let seg = line.shaped_segments@[k];
            let mid = line.line_origin.x + widths_before(line.shaped_segments@, k) + spec_half(seg.spec_width());
            line.spec_index_for_x(x, affinity) == if x < mid || x == mid && affinity == CaretAffinity::Upstream {
                seg.spec_logical_start()
            } else {
                seg.spec_logical_end()
            }
        }),
{
    let segs = line.shaped_segments@;
    let origin = line.line_origin.x as int;
    crate::wrap_line::lemma_widths_bounds(segs, segs.len() as int);
    crate::wrap_line::lemma_widths_bounds(segs, k + 1);
    crate::wrap_line::lemma_widths_bounds(segs, k);
    assert(widths_before(segs, k + 1) <= widths_before(segs, segs.len() as int));
    assert(widths_before(segs, 0) == 0);
    lemma_index_walk_skip(segs, x, affinity, 0, k, origin);
}

/// On a line of elements only, each one cell after the other and each with
/// some width, the upstream caret of every index on the line hits that
/// index again, whatever the affinity of the hit.
pub proof fn law_element_caret_and_hit_round_trip(line: InlineWrapLine, idx: int, affinity: CaretAffinity)
    requires
        line.geometry_ok(),
        line.width == widths_before(line.shaped_segments@, line.shaped_segments@.len() as int),
        line.logical_end == line.logical_start + line.shaped_segments@.len(),
        forall|m: int|
            0 <= m < line.shaped_segments@.len() ==> {
                let seg = #[trigger] line.shaped_segments@[m];
                &&& seg is Element
                &&& seg.spec_logical_start() == line.logical_start + m
                &&& seg.spec_logical_end() == line.logical_start + m + 1
                &&& seg.spec_width() > 0
            },
        line.logical_start <= idx <= line.logical_end,
    ensures
        line.spec_x_for_index(idx, CaretAffinity::Upstream) matches Some(x) && line.spec_index_for_x(x, affinity)
            == idx,
{
    let segs = line.shaped_segments@;
    let n = segs.len() as int;
    let origin = line.line_origin.x as int;
    let up = CaretAffinity::Upstream;
    let m = idx - line.logical_start;
    assert(widths_before(segs, 0) == 0);
    crate::wrap_line::lemma_widths_bounds(segs, n);
    assert forall|i: int| 0 <= i < m && i < n implies seg_stop_x(#[trigger] segs[i], idx, up) is None by {
        assert(segs[i].spec_logical_end() <= idx);
    }
    if m == n {
        lemma_x_walk_none(segs, idx, up, origin);
        if n > 0 {
            assert(segs[0].spec_width() > 0);
            assert(widths_before(segs, 1) == segs[0].spec_width());
            assert(widths_before(segs, 1) <= widths_before(segs, n));
        }
    } else {
        lemma_x_walk_pass(segs, idx, up, 0, m, origin);
        let x = origin + widths_before(segs, m);
        assert(seg_stop_x(segs[m], idx, up) == Some(0int));
        assert(x_walk(segs, idx, up, 0, origin) == Some(x));
        assert(widths_before(segs, m + 1) == widths_before(segs, m) + segs[m].spec_width());
        assert(widths_before(segs, m + 1) <= widths_before(segs, n));
        if m > 0 {
            crate::wrap_line::lemma_widths_bounds(segs, m - 1);
            assert(widths_before(segs, m) == widths_before(segs, m - 1) + segs[m - 1].spec_width());
            assert(segs[m - 1].wf());
            assert(x > origin);
            lemma_index_walk_skip(segs, x, affinity, 0, m - 1, origin);
            assert(spec_half(segs[m - 1].spec_width()) < segs[m - 1].spec_width());
            assert(seg_stop_index(segs[m - 1], x, affinity, origin + widths_before(segs, m - 1)) == Some(idx));
        }
    }
}

/// Every selection rectangle of a range over stacked lines has a width of
/// at least zero.
pub proof fn law_rect_widths_non_negative(lines: Seq<InlineWrapLine>, start: int, end: int, j: int)
    requires
        lines_stacked(lines),
        0 <= j <= lines.len(),
    ensures
        forall|q: int|
            0 <= q < rects_upto(lines, start, end, j).len() ==> (#[trigger] rects_upto(lines, start, end, j)[q]).size.width
                >= 0,
    decreases j,
{
    if j > 0 {
        law_rect_widths_non_negative(lines, start, end, j - 1);
        let prev = rects_upto(lines, start, end, j - 1);
        let cur = rects_upto(lines, start, end, j);
        let line = lines[j - 1];
        assert(line.geometry_ok() && line.box_ok());
        match spec_intersect((start, end), (line.logical_start as int, line.logical_end as int)) {
            Some((s, e)) => {
                crate::queries::lemma_line_x_bounded(line, s, CaretAffinity::Upstream);
                crate::queries::lemma_line_x_bounded(line, e, CaretAffinity::Downstream);
            },
            None => {},
        }
        assert forall|q: int| 0 <= q < cur.len() implies (#[trigger] cur[q]).size.width >= 0 by {
            if q < prev.len() {
                assert(cur[q] == prev[q]);
            }
        }
    }
}

/// The logical range a selected part covers.
pub open spec fn selected_range(sel: SelectionSegment) -> (int, int) {
    match sel {
        SelectionSegment::Text { logical_range, .. } => (logical_range.start as int, logical_range.end as int),
        SelectionSegment::Element { logical_range, .. } => (logical_range.start as int, logical_range.end as int),
    }
}

/// A selected part covers part of `overlap` and of segment range `[a, b)`,
/// and a selected text part starts no later in its fragment than it ends.
pub open spec fn selected_part_ok(sel: SelectionSegment, overlap: (int, int), a: int, b: int) -> bool {
    &&& overlap.0 <= selected_range(sel).0 < selected_range(sel).1 <= overlap.1
    &&& a <= selected_range(sel).0 && selected_range(sel).1 <= b
    &&& sel matches SelectionSegment::Text { start_in_fragment, end_in_fragment, .. } ==> start_in_fragment
        <= end_in_fragment
}

/// The segments of a line are consistent and in logical order.
pub open spec fn segments_in_order(segs: Seq<ShapedSegment>) -> bool {
    &&& forall|m: int| 0 <= m < segs.len() ==> (#[trigger] segs[m]).wf()
    &&& forall|a: int, b: int| 0 <= a < b < segs.len() ==> #[trigger] segs[a].spec_logical_end() <= #[trigger] segs[b].spec_logical_start()
}

proof fn lemma_selection_upto_in_order(segs: Seq<ShapedSegment>, overlap: (int, int), k: int)
    requires
        segments_in_order(segs),
        0 <= k <= segs.len(),
    ensures
        forall|q: int|
            0 <= q < selection_upto(segs, overlap, k).len() ==> exists|m: int|
                0 <= m < k && selected_part_ok(
                    #[trigger] selection_upto(segs, overlap, k)[q],
                    overlap,
                    segs[m].spec_logical_start(),
                    segs[m].spec_logical_end(),
                ),
        k > 0 ==> forall|q: int|
            0 <= q < selection_upto(segs, overlap, k).len() ==> selected_range(
                #[trigger] selection_upto(segs, overlap, k)[q],
            ).1 <= segs[k - 1].spec_logical_end(),
        forall|a: int, b: int|
            0 <= a < b < selection_upto(segs, overlap, k).len() ==> selected_range(
                #[trigger] selection_upto(segs, overlap, k)[a],
            ).1 <= selected_range(#[trigger] selection_upto(segs, overlap, k)[b]).0,
    decreases k,
{
    if k > 0 {
        lemma_selection_upto_in_order(segs, overlap, k - 1);
        let prev = selection_upto(segs, overlap, k - 1);
        let cur = selection_upto(segs, overlap, k);
        let seg = segs[k - 1];
        assert(seg.wf());
        if k > 1 {
            assert(segs[k - 2].spec_logical_end() <= segs[k - 1].spec_logical_start());
        }
        match seg_selection(seg, overlap) {
            Some(sel) => {
                assert(cur == prev.push(sel));
                match seg {
                    ShapedSegment::Text { logical_start, logical_end, shaped, start_in_fragment, .. } => {
                        let t = shaped.text@;
                        let n = t.len() as int;
                        let (s, e) = spec_intersect(overlap, (logical_start as int, logical_end as int))->0;
                        let ls = s - logical_start;
                        let le = e - logical_start;
                        let cs = if ls <= n { ls } else { n };
                        let ce = if le <= n { le } else { n };
                        lemma_cell_offset_mono(t, cs, ce);
                        lemma_cell_offset_mono(t, ce, n);
                        lemma_cell_offset_end(t);
                    },
                    ShapedSegment::Element { .. } => {},
                }
                assert(selected_part_ok(sel, overlap, seg.spec_logical_start(), seg.spec_logical_end()));
                assert forall|q: int| 0 <= q < cur.len() implies exists|m: int|
                    0 <= m < k && selected_part_ok(
                        #[trigger] cur[q],
                        overlap,
                        segs[m].spec_logical_start(),
                        segs[m].spec_logical_end(),
                    ) by {
                    if q < prev.len() {
                        assert(cur[q] == prev[q]);
                    } else {
                        assert(cur[q] == sel);
                        assert(selected_part_ok(cur[q], overlap, segs[k - 1].spec_logical_start(), segs[k - 1].spec_logical_end()));
                    }
                }
                assert forall|a: int, b: int| 0 <= a < b < cur.len() implies selected_range(#[trigger] cur[a]).1
                    <= selected_range(#[trigger] cur[b]).0 by {
                    if b < prev.len() {
                        assert(cur[a] == prev[a] && cur[b] == prev[b]);
                    } else {
                        assert(cur[a] == prev[a]);
                        assert(cur[b] == sel);
                    }
                }
                assert forall|q: int| 0 <= q < cur.len() implies selected_range(#[trigger] cur[q]).1
                    <= segs[k - 1].spec_logical_end() by {
                    if q < prev.len() {
                        assert(cur[q] == prev[q]);
                    }
                }
            },
            None => {
                assert(cur == prev);
                assert forall|q: int| 0 <= q < cur.len() implies selected_range(#[trigger] cur[q]).1
                    <= segs[k - 1].spec_logical_end() by {
                    assert(cur[q] == prev[q]);
                }
            },
        }
    }
}

/// The selection of a range on a line whose segments are in logical order
/// lists the selected parts left to right: each covers a non-empty part of
/// the overlap with the line and of one segment, each starts where or after
/// the one before it ends, and a selected text part starts no later in its
/// fragment than it ends.
pub proof fn law_selection_parts_in_order(line: InlineWrapLine, start: int, end: int)
    requires
        segments_in_order(line.shaped_segments@),
    ensures
        line.spec_selection(start, end) matches Some((overlap, parts)) ==> {
            &&& forall|q: int|
                0 <= q < parts.len() ==> exists|m: int|
                    0 <= m < line.shaped_segments@.len() && selected_part_ok(
                        #[trigger] parts[q],
                        overlap,
                        line.shaped_segments@[m].spec_logical_start(),
                        line.shaped_segments@[m].spec_logical_end(),
                    )
            &&& forall|a: int, b: int|
                0 <= a < b < parts.len() ==> selected_range(#[trigger] parts[a]).1 <= selected_range(
                    #[trigger] parts[b],
                ).0
        },
{
    if start < end {
        if let Some(overlap) = spec_intersect((start, end), (line.logical_start as int, line.logical_end as int)) {
            lemma_selection_upto_in_order(line.shaped_segments@, overlap, line.shaped_segments@.len() as int);
        }
    }
}

/// Where the caret walk stops in a consistent segment lies within it.
proof fn lemma_seg_stop_within(seg: ShapedSegment, idx: int, affinity: CaretAffinity)
    requires
        seg.wf(),
    ensures
        seg_stop_x(seg, idx, affinity) matches Some(o) ==> 0 <= o <= seg.spec_width(),
{
    match seg {
        ShapedSegment::Text { shaped, logical_start, .. } => {
            let local_cell = idx - logical_start;
            let n = shaped.text@.len() as int;
            let byte = cell_offset(shaped.text@, if local_cell <= n { local_cell } else { n });
            let byte = if byte <= shaped.len { byte as int } else { shaped.len as int };
            crate::wrap_line::lemma_glyph_x_bounds(shaped, byte, 0);
        },
        ShapedSegment::Element { .. } => {},
    }
}

/// The caret walk stops no further right than where segment `k` would put
/// the caret, when segment `k` has a place for it.
proof fn lemma_x_walk_upto(segs: Seq<ShapedSegment>, idx: int, affinity: CaretAffinity, m: int, k: int, base: int)
    requires
        forall|i: int| 0 <= i < segs.len() ==> (#[trigger] segs[i]).wf(),
        0 <= m <= k < segs.len(),
        seg_stop_x(segs[k], idx, affinity) is Some,
    ensures
        x_walk(segs, idx, affinity, m, base + widths_before(segs, m)) matches Some(x) && x <= base + widths_before(
            segs,
            k,
        ) + seg_stop_x(segs[k], idx, affinity)->0,
    decreases k - m,
{
    lemma_seg_stop_within(segs[k], idx, affinity);
    lemma_seg_stop_within(segs[m], idx, affinity);
    assert(segs[m].wf());
    if m < k {
        crate::wrap_line::lemma_widths_bounds(segs, k);
        assert(widths_before(segs, m + 1) == widths_before(segs, m) + segs[m].spec_width());
        assert(widths_before(segs, m + 1) <= widths_before(segs, k));
        if seg_stop_x(segs[m], idx, affinity) is None {
            lemma_x_walk_upto(segs, idx, affinity, m + 1, k, base);
        }
    }
}

/// Where the caret walk from segment `m` stops, it is no further left than
/// segment `m`'s left edge.
proof fn lemma_x_walk_from_right(segs: Seq<ShapedSegment>, idx: int, affinity: CaretAffinity, m: int, base: int)
    requires
        forall|i: int| 0 <= i < segs.len() ==> (#[trigger] segs[i]).wf(),
        0 <= m <= segs.len(),
    ensures
        x_walk(segs, idx, affinity, m, base + widths_before(segs, m)) matches Some(x) ==> x >= base + widths_before(
            segs,
            m,
        ),
        x_walk(segs, idx, affinity, m, base + widths_before(segs, m)) is None && m < segs.len() ==> seg_stop_x(
            segs[segs.len() - 1],
            idx,
            affinity,
        ) is None,
    decreases segs.len() - m,
{
    if m < segs.len() {
        assert(segs[m].wf());
        lemma_seg_stop_within(segs[m], idx, affinity);
        assert(widths_before(segs, m + 1) == widths_before(segs, m) + segs[m].spec_width());
        lemma_x_walk_from_right(segs, idx, affinity, m + 1, base);
    }
}

/// A selected element lies inside its line's selection rectangle: on a line
/// whose segments are in logical order, cover the line up to its end and
/// make up its width, the rectangle of a range that covers an element's
/// cell starts at or left of the element's left edge and ends at or right
/// of its right edge, at the line's top and in the line's height.
pub proof fn law_selected_element_inside_rect(line: InlineWrapLine, start: int, end: int, k: int)
    requires
        line.geometry_ok(),
        line.box_ok(),
        segments_in_order(line.shaped_segments@),
        line.width == widths_before(line.shaped_segments@, line.shaped_segments@.len() as int),
        0 <= k < line.shaped_segments@.len(),
        line.shaped_segments@.last().spec_logical_end() == line.logical_end,
        line.shaped_segments@[k] is Element,
        line.logical_start <= line.shaped_segments@[k].spec_logical_start(),
        start <= line.shaped_segments@[k].spec_logical_start() < line.shaped_segments@[k].spec_logical_end() <= end,
    ensures
        ({
            let segs = line.shaped_segments@;
            let left = line.line_origin.x + widths_before(segs, k);
            line_rect(line, start, end) matches Some(r) && r.origin.x <= left && r.origin.x + r.size.width >= left
                + segs[k].spec_width() && r.origin.y == line.line_origin.y && r.size.height == line.height
        }),
{
    let segs = line.shaped_segments@;
    let n = segs.len() as int;
    let origin = line.line_origin.x as int;
    let sk = segs[k].spec_logical_start();
    let ek = segs[k].spec_logical_end();
    assert(segs[k].wf());
    assert(segs[n - 1].wf());
    if k < n - 1 {
        assert(segs[k].spec_logical_end() <= segs[n - 1].spec_logical_start());
    }
    assert(ek <= line.logical_end);
    let s0 = if start >= line.logical_start as int { start } else { line.logical_start as int };
    let e0 = if end <= line.logical_end as int { end } else { line.logical_end as int };
    assert(spec_intersect((start, end), (line.logical_start as int, line.logical_end as int)) == Some((s0, e0)));
    assert(widths_before(segs, 0) == 0);
    crate::wrap_line::lemma_widths_bounds(segs, n);
    crate::wrap_line::lemma_widths_bounds(segs, k + 1);
    assert(widths_before(segs, k + 1) == widths_before(segs, k) + segs[k].spec_width());
    // the left edge: the walk stops at or before the element
    assert(seg_stop_x(segs[k], s0, CaretAffinity::Upstream) == Some(0int));
    lemma_x_walk_upto(segs, s0, CaretAffinity::Upstream, 0, k, origin);
    // the right edge: the walk passes the element and what comes before it
    assert forall|i: int| 0 <= i < k + 1 implies seg_stop_x(#[trigger] segs[i], e0, CaretAffinity::Downstream) is None by {
        assert(segs[i].wf());
        if i < k {
            assert(segs[i].spec_logical_end() <= segs[k].spec_logical_start());
        }
    }
    lemma_x_walk_pass(segs, e0, CaretAffinity::Downstream, 0, k + 1, origin);
    lemma_x_walk_from_right(segs, e0, CaretAffinity::Downstream, k + 1, origin);
    crate::queries::lemma_line_x_bounded(line, s0, CaretAffinity::Upstream);
    crate::queries::lemma_line_x_bounded(line, e0, CaretAffinity::Downstream);
}

} // verus!
