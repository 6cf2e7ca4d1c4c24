use vstd::prelude::*;
use crate::geometry::{Bounds, Point};
use crate::layout::{InlineSpanLayout, InlineDecoration};
use crate::slices::InlineFragmentLayout;
use crate::wrap_line::InlineWrapLine;
use crate::queries::spec_rects;
use crate::paint::{
    PaintCommand, spec_paint_commands, decoration_fills, segment_commands, line_commands, line_outlines,
    element_outlines,
};

verus! {

/// Every command is a fill.
pub open spec fn all_fills(s: Seq<PaintCommand>) -> bool {
    forall|i: int| 0 <= i < s.len() ==> (#[trigger] s[i]) is Fill
}

/// No command is a fill.
pub open spec fn no_fills(s: Seq<PaintCommand>) -> bool {
    forall|i: int| 0 <= i < s.len() ==> !((#[trigger] s[i]) is Fill)
}

/// The decoration fills are fills.
pub proof fn lemma_fills_are_fills(decorations: Seq<InlineDecoration>, lines: Seq<InlineWrapLine>, origin: Point, d: int)
    ensures
        all_fills(decoration_fills(decorations, lines, origin, d)),
    decreases d,
{
    if d > 0 && d <= decorations.len() {
        lemma_fills_are_fills(decorations, lines, origin, d - 1);
        let dec = decorations[d - 1];
        let prev = decoration_fills(decorations, lines, origin, d - 1);
        let more = spec_rects(lines, dec.range.start as int, dec.range.end as int).map_values(
            |r: Bounds| PaintCommand::Fill { bounds: crate::paint::offset_bounds(origin, r), color: dec.style.background },
        );
        assert(all_fills(more));
        assert(decoration_fills(decorations, lines, origin, d) == prev + more);
    }
}

proof fn lemma_segments_paint_no_fills(
    line: InlineWrapLine,
    j: int,
    layouts: Seq<InlineFragmentLayout>,
    origin: Point,
    k: int,
)
    ensures
        no_fills(segment_commands(line, j, layouts, origin, k)),
    decreases k,
{
    if k > 0 && k <= line.shaped_segments@.len() {
        lemma_segments_paint_no_fills(line, j, layouts, origin, k - 1);
    }
}

proof fn lemma_lines_paint_no_fills(lines: Seq<InlineWrapLine>, layouts: Seq<InlineFragmentLayout>, origin: Point, j: int)
    ensures
        no_fills(line_commands(lines, layouts, origin, j)),
    decreases j,
{
    if j > 0 && j <= lines.len() {
        lemma_lines_paint_no_fills(lines, layouts, origin, j - 1);
        lemma_segments_paint_no_fills(lines[j - 1], j - 1, layouts, origin, lines[j - 1].shaped_segments@.len() as int);
    }
}

proof fn lemma_line_outlines_no_fills(lines: Seq<InlineWrapLine>, origin: Point, j: int)
    ensures
        no_fills(line_outlines(lines, origin, j)),
    decreases j,
{
    if j > 0 && j <= lines.len() {
        lemma_line_outlines_no_fills(lines, origin, j - 1);
    }
}

proof fn lemma_element_outlines_no_fills(layouts: Seq<InlineFragmentLayout>, origin: Point, i: int)
    ensures
        no_fills(element_outlines(layouts, origin, i)),
    decreases i,
{
    if i > 0 && i <= layouts.len() {
        lemma_element_outlines_no_fills(layouts, origin, i - 1);
    }
}

/// Decorations are painted first: the paint plan opens with the decoration
/// backgrounds, and nothing after them is a fill, so every line's text and
/// elements (and any outline) are drawn over the decorations.
pub proof fn law_decorations_paint_first(layout: InlineSpanLayout, bounds: Bounds, debug_outlines: bool)
    ensures
        ({
            let cmds = spec_paint_commands(layout, bounds, debug_outlines);
            let fills = decoration_fills(
                layout.decorations@,
                layout.lines@,
                bounds.origin,
                layout.decorations@.len() as int,
            );
            &&& fills.len() <= cmds.len()
            &&& forall|i: int| 0 <= i < fills.len() ==> cmds[i] == #[trigger] fills[i]
            &&& all_fills(fills)
            &&& forall|i: int| fills.len() <= i < cmds.len() ==> !((#[trigger] cmds[i]) is Fill)
        }),
{
    let origin = bounds.origin;
    let lines = layout.lines@;
    let layouts = layout.fragment_layouts@;
    lemma_fills_are_fills(layout.decorations@, lines, origin, layout.decorations@.len() as int);
    lemma_lines_paint_no_fills(lines, layouts, origin, lines.len() as int);
    lemma_line_outlines_no_fills(lines, origin, lines.len() as int);
    lemma_element_outlines_no_fills(layouts, origin, layouts.len() as int);
    let fills = decoration_fills(layout.decorations@, lines, origin, layout.decorations@.len() as int);
    let body = fills + line_commands(lines, layouts, origin, lines.len() as int);
    let outl = line_outlines(lines, origin, lines.len() as int) + element_outlines(layouts, origin, layouts.len() as int);
    assert(no_fills(outl));
    let cmds = spec_paint_commands(layout, bounds, debug_outlines);
    if debug_outlines {
        assert(cmds == body + outl);
    } else {
        assert(cmds == body);
    }
}

} // verus!
