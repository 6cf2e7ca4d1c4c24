use vstd::prelude::*;
use crate::geometry::{Pixels, KnownSize, AvailableSize, AvailableSpace};
use crate::style::{TextStyle, WhiteSpace};
use crate::layout::{InlineSpanLayout, lines_stacked, heights_before, layout_reusable, spec_wrap_width, spec_line_height_hint};
use crate::content::InlineContent;
use crate::style::AbsoluteLength;
use crate::wrap_line::InlineWrapLine;
use crate::queries::{target_line_from, InlineFragmentGeometry, line_geometries_upto, fragment_geometries_upto};
use crate::geometry::{Bounds, Point, PX_LIMIT, COUNT_LIMIT, coord_ok, wide_limit, tall_limit};
use crate::slices::InlineFragmentLayout;
use crate::wrap_line::{ShapedSegment, widths_before};
use crate::line_build::placement_before;
use crate::paint::{PaintCommand, spec_paint_commands, segment_commands, line_commands, decoration_fills, line_outlines, element_outlines};

verus! {

/// A measured layout is computed for the width the span is given: with
/// normal white space, a known width is the wrap width whatever space is
/// available; without one, a definite available width is; otherwise, and
/// whenever white space does not wrap, there is no wrap width.
pub proof fn law_measure_wraps_at_given_width(
    new: InlineSpanLayout,
    window_style: TextStyle,
    known: KnownSize,
    available: AvailableSize,
    hint: Pixels,
)
    requires
        layout_reusable(new, spec_wrap_width(window_style, known, available), hint),
    ensures
        window_style.white_space == WhiteSpace::Normal && known.width is Some ==> new.last_wrap_width == known.width,
        window_style.white_space == WhiteSpace::Normal && known.width is None ==> new.last_wrap_width == match available.width {
            AvailableSpace::Definite(w) => Some(w),
            _ => None,
        },
        window_style.white_space != WhiteSpace::Normal ==> new.last_wrap_width is None,
        !new.dirty,
        new.last_line_height == Some(hint),
{
}

/// A span is measured with the window's line height taken at the span's
/// default font size: that of its default style when it has one.
pub proof fn law_line_height_hint_at_default_font_size<E>(content: InlineContent<E>, window_style: TextStyle, rem_size: int)
    ensures
        content.default_style matches Some(d) ==> spec_line_height_hint(content, window_style, rem_size)
            == window_style.line_height.spec_to_pixels(
            AbsoluteLength::Pixels(d.font_size.spec_to_pixels(rem_size) as Pixels),
            rem_size,
        ),
{
}

/// Line tops do not decrease down the lines.
proof fn lemma_tops_grow(lines: Seq<InlineWrapLine>, a: int, b: int)
    requires
        lines_stacked(lines),
        0 <= a <= b <= lines.len(),
    ensures
        heights_before(lines, a) <= heights_before(lines, b),
    decreases b - a,
{
    if a < b {
        lemma_tops_grow(lines, a, b - 1);
        assert(lines[b - 1].box_ok());
    }
}

/// The search for the line at height `y` passes over the lines above line
/// `j` when `y` lies below the top of line `j`.
proof fn lemma_target_passes(lines: Seq<InlineWrapLine>, y: int, i: int, j: int)
    requires
        lines_stacked(lines),
        0 <= i <= j < lines.len(),
        lines[j].line_origin.y < y,
    ensures
        target_line_from(lines, y, i) == target_line_from(lines, y, j),
    decreases j - i,
{
    if i < j {
        assert(lines[i].box_ok() && lines[j].box_ok());
        lemma_tops_grow(lines, i + 1, j);
        assert(heights_before(lines, i + 1) == heights_before(lines, i) + lines[i].height);
        assert(lines[i].line_origin.y == heights_before(lines, i));
        assert(lines[j].line_origin.y == heights_before(lines, j));
        lemma_target_passes(lines, y, i + 1, j);
    }
}

/// A point whose height lies within a line's box (below its top, at or
/// above its bottom) hits that line.
pub proof fn law_point_hits_its_line(lines: Seq<InlineWrapLine>, y: int, j: int)
    requires
        lines_stacked(lines),
        0 <= j < lines.len(),
        lines[j].line_origin.y < y <= lines[j].line_origin.y + lines[j].height,
    ensures
        target_line_from(lines, y, 0) == Some(j),
{
    lemma_target_passes(lines, y, 0, j);
}

/// Every element segment of the line names a fragment holding a measured
/// element as wide as the segment.
pub open spec fn segments_sized(line: InlineWrapLine, layouts: Seq<InlineFragmentLayout>) -> bool {
    forall|k: int|
        0 <= k < line.shaped_segments@.len() ==> match #[trigger] line.shaped_segments@[k] {
            ShapedSegment::Element { fragment_index, width, .. } => fragment_index < layouts.len() && (
            layouts[fragment_index as int] matches InlineFragmentLayout::Element { instance }
                && instance.size.width == width),
            ShapedSegment::Text { .. } => true,
        }
}

/// Where the segments are sized, placing advances by the segments' widths.
proof fn lemma_placement_is_advance(line: InlineWrapLine, layouts: Seq<InlineFragmentLayout>, k: int)
    requires
        segments_sized(line, layouts),
        0 <= k <= line.shaped_segments@.len(),
    ensures
        placement_before(line.shaped_segments@, layouts, k) == widths_before(line.shaped_segments@, k),
    decreases k,
{
    if k > 0 {
        lemma_placement_is_advance(line, layouts, k - 1);
        let seg = line.shaped_segments@[k - 1];
        match seg {
            ShapedSegment::Element { .. } => {},
            ShapedSegment::Text { .. } => {},
        }
    }
}

/// A text paint command of a line's first `k` segments names one of them,
/// a text segment, and is drawn at the line's top.
proof fn lemma_segment_commands_text(
    line: InlineWrapLine,
    j: int,
    layouts: Seq<InlineFragmentLayout>,
    origin: Point,
    k: int,
)
    requires
        0 <= j <= COUNT_LIMIT,
        line.shaped_segments@.len() <= COUNT_LIMIT,
    ensures
        forall|q: int|
            0 <= q < segment_commands(line, j, layouts, origin, k).len() ==> match #[trigger] segment_commands(
                line,
                j,
                layouts,
                origin,
                k,
            )[q] {
                PaintCommand::Text { line_index, segment_index, origin: o, line_height } => {
                    &&& line_index == j
                    &&& 0 <= segment_index < k && segment_index < line.shaped_segments@.len()
                    &&& line.shaped_segments@[segment_index as int] is Text
                    &&& o.y == (origin.y + line.line_origin.y) as Pixels
                    &&& o.x == (origin.x + line.line_origin.x + placement_before(
                        line.shaped_segments@,
                        layouts,
                        segment_index as int,
                    )) as Pixels
                    &&& line_height == line.height
                },
                _ => true,
            },
    decreases k,
{
    if k > 0 && k <= line.shaped_segments@.len() {
        lemma_segment_commands_text(line, j, layouts, origin, k - 1);
        let prev = segment_commands(line, j, layouts, origin, k - 1);
        let cur = segment_commands(line, j, layouts, origin, k);
        assert forall|q: int| 0 <= q < cur.len() implies match #[trigger] cur[q] {
            PaintCommand::Text { line_index, segment_index, origin: o, line_height } => {
                &&& line_index == j
                &&& 0 <= segment_index < k && segment_index < line.shaped_segments@.len()
                &&& line.shaped_segments@[segment_index as int] is Text
                &&& o.y == (origin.y + line.line_origin.y) as Pixels
                &&& o.x == (origin.x + line.line_origin.x + placement_before(
                    line.shaped_segments@,
                    layouts,
                    segment_index as int,
                )) as Pixels
                &&& line_height == line.height
            },
            _ => true,
        } by {
            if q < prev.len() {
                assert(cur[q] == prev[q]);
            } else {
                match line.shaped_segments@[k - 1] {
                    ShapedSegment::Text { .. } => {
                        assert(cur == prev.push(cur[q]));
                    },
                    ShapedSegment::Element { fragment_index, .. } => {
                        match layouts[fragment_index as int] {
                            InlineFragmentLayout::Element { .. } => {
                                assert(cur[q] == PaintCommand::Element { fragment_index });
                            },
                            InlineFragmentLayout::Text => {
                                assert(cur == prev);
                            },
                        }
                    },
                }
            }
        }
    }
}

/// A text paint command of the first `j` lines names one of them.
proof fn lemma_line_commands_text(lines: Seq<InlineWrapLine>, layouts: Seq<InlineFragmentLayout>, origin: Point, j: int)
    requires
        0 <= j <= lines.len(),
        lines_stacked(lines),
    ensures
        forall|q: int|
            0 <= q < line_commands(lines, layouts, origin, j).len() ==> match #[trigger] line_commands(
                lines,
                layouts,
                origin,
                j,
            )[q] {
                PaintCommand::Text { line_index, segment_index, origin: o, line_height } => {
                    let line = lines[line_index as int];
                    &&& 0 <= line_index < j
                    &&& 0 <= segment_index < line.shaped_segments@.len()
                    &&& line.shaped_segments@[segment_index as int] is Text
                    &&& o.y == (origin.y + line.line_origin.y) as Pixels
                    &&& o.x == (origin.x + line.line_origin.x + placement_before(
                        line.shaped_segments@,
                        layouts,
                        segment_index as int,
                    )) as Pixels
                    &&& line_height == line.height
                },
                _ => true,
            },
    decreases j,
{
    if j > 0 {
        lemma_line_commands_text(lines, layouts, origin, j - 1);
        let prev = line_commands(lines, layouts, origin, j - 1);
        let segs = segment_commands(lines[j - 1], j - 1, layouts, origin, lines[j - 1].shaped_segments@.len() as int);
        assert(lines[j - 1].geometry_ok());
        lemma_segment_commands_text(lines[j - 1], j - 1, layouts, origin, lines[j - 1].shaped_segments@.len() as int);
        assert(line_commands(lines, layouts, origin, j) == prev + segs);
        assert forall|q: int| 0 <= q < (prev + segs).len() implies match #[trigger] (prev + segs)[q] {
            PaintCommand::Text { line_index, segment_index, origin: o, line_height } => {
                let line = lines[line_index as int];
                &&& 0 <= line_index < j
                &&& 0 <= segment_index < line.shaped_segments@.len()
                &&& line.shaped_segments@[segment_index as int] is Text
                &&& o.y == (origin.y + line.line_origin.y) as Pixels
                &&& o.x == (origin.x + line.line_origin.x + placement_before(
                    line.shaped_segments@,
                    layouts,
                    segment_index as int,
                )) as Pixels
                &&& line_height == line.height
            },
            _ => true,
        } by {
            if q < prev.len() {
                assert((prev + segs)[q] == prev[q]);
            } else {
                assert((prev + segs)[q] == segs[q - prev.len()]);
            }
        }
    }
}

/// Line outlines are outlines.
proof fn lemma_line_outlines_outline(lines: Seq<InlineWrapLine>, origin: Point, j: int)
    ensures
        forall|q: int|
            0 <= q < line_outlines(lines, origin, j).len() ==> (#[trigger] line_outlines(lines, origin, j)[q]) is Outline,
    decreases j,
{
    if j > 0 && j <= lines.len() {
        lemma_line_outlines_outline(lines, origin, j - 1);
    }
}

/// Element outlines are outlines.
proof fn lemma_element_outlines_outline(layouts: Seq<InlineFragmentLayout>, origin: Point, i: int)
    ensures
        forall|q: int|
            0 <= q < element_outlines(layouts, origin, i).len() ==> (#[trigger] element_outlines(layouts, origin, i)[q]) is Outline,
    decreases i,
{
    if i > 0 && i <= layouts.len() {
        lemma_element_outlines_outline(layouts, origin, i - 1);
    }
}

/// Text is painted where its line is: every text paint command of a layout
/// placed at `bounds` names a text segment of one of the lines, is drawn at
/// that line's top moved by the bounds' origin, in the line's height, and,
/// where the line's segments are sized, at the line's left edge moved by the
/// bounds' origin and by the advance of the segments before it.
pub proof fn law_text_painted_on_its_line(layout: InlineSpanLayout, bounds: Bounds, debug_outlines: bool)
    requires
        lines_stacked(layout.lines@),
        coord_ok(bounds.origin.x as int),
        coord_ok(bounds.origin.y as int),
    ensures
        ({
            let cmds = spec_paint_commands(layout, bounds, debug_outlines);
            let lines = layout.lines@;
            forall|q: int|
                0 <= q < cmds.len() ==> match #[trigger] cmds[q] {
                    PaintCommand::Text { line_index, segment_index, origin, line_height } => {
                        let line = lines[line_index as int];
                        &&& line_index < lines.len()
                        &&& segment_index < line.shaped_segments@.len()
                        &&& line.shaped_segments@[segment_index as int] is Text
                        &&& origin.y == bounds.origin.y + line.line_origin.y
                        &&& line_height == line.height
                        &&& segments_sized(line, layout.fragment_layouts@) ==> origin.x == bounds.origin.x
                            + line.line_origin.x + widths_before(line.shaped_segments@, segment_index as int)
                    },
                    _ => true,
                }
        }),
{
    let origin = bounds.origin;
    let lines = layout.lines@;
    let layouts = layout.fragment_layouts@;
    let fills = decoration_fills(layout.decorations@, lines, origin, layout.decorations@.len() as int);
    let body = line_commands(lines, layouts, origin, lines.len() as int);
    let outl = line_outlines(lines, origin, lines.len() as int) + element_outlines(layouts, origin, layouts.len() as int);
    lemma_line_commands_text(lines, layouts, origin, lines.len() as int);
    crate::paint_laws::lemma_fills_are_fills(layout.decorations@, lines, origin, layout.decorations@.len() as int);
    lemma_line_outlines_outline(lines, origin, lines.len() as int);
    lemma_element_outlines_outline(layouts, origin, layouts.len() as int);
    let cmds = spec_paint_commands(layout, bounds, debug_outlines);
    assert(cmds == if debug_outlines { fills + body + outl } else { fills + body });
    assert forall|q: int| 0 <= q < cmds.len() implies match #[trigger] cmds[q] {
        PaintCommand::Text { line_index, segment_index, origin: o, line_height } => {
            let line = lines[line_index as int];
            &&& line_index < lines.len()
            &&& segment_index < line.shaped_segments@.len()
            &&& line.shaped_segments@[segment_index as int] is Text
            &&& o.y == bounds.origin.y + line.line_origin.y
            &&& line_height == line.height
            &&& segments_sized(line, layouts) ==> o.x == bounds.origin.x + line.line_origin.x + widths_before(
                line.shaped_segments@,
                segment_index as int,
            )
        },
        _ => true,
    } by {
        if q < fills.len() {
            assert(cmds[q] == fills[q]);
        } else if q < fills.len() + body.len() {
            assert(cmds[q] == body[q - fills.len()]);
            let c = body[q - fills.len()];
            if let PaintCommand::Text { line_index, segment_index, .. } = c {
                let line = lines[line_index as int];
                assert(line.geometry_ok() && line.box_ok());
                assert(line.line_origin.y <= tall_limit());
                if segments_sized(line, layouts) {
                    lemma_placement_is_advance(line, layouts, segment_index as int);
                    crate::wrap_line::lemma_widths_bounds(line.shaped_segments@, segment_index as int);
                    assert(segment_index * PX_LIMIT <= COUNT_LIMIT * PX_LIMIT) by (nonlinear_arith)
                        requires segment_index <= COUNT_LIMIT;
                }
            }
        } else {
            assert(debug_outlines);
            assert(cmds[q] == outl[q - fills.len() - body.len()]);
            if q - fills.len() - body.len() < line_outlines(lines, origin, lines.len() as int).len() {
                assert(outl[q - fills.len() - body.len()] == line_outlines(lines, origin, lines.len() as int)[q
                    - fills.len() - body.len()]);
            } else {
                assert(outl[q - fills.len() - body.len()] == element_outlines(layouts, origin, layouts.len() as int)[q
                    - fills.len() - body.len() - line_outlines(lines, origin, lines.len() as int).len()]);
            }
        }
    }
}

/// `g` is the geometry of segment `m` of `line`: a text run starts at the
/// line's left edge moved by the advance of the segments before it, at the
/// line's top, and spans its shaped width and the line's height; an element
/// reports the bounds, baseline offset and alignment of its measured
/// element.
pub open spec fn geometry_of_segment(
    g: InlineFragmentGeometry,
    line: InlineWrapLine,
    m: int,
    layouts: Seq<InlineFragmentLayout>,
) -> bool {
    let segs = line.shaped_segments@;
    match g {
        InlineFragmentGeometry::Text { logical_range, bounds } => match segs[m] {
            ShapedSegment::Text { logical_start, logical_end, shaped, .. } => {
                &&& logical_range.start == logical_start && logical_range.end == logical_end
                &&& bounds.origin.x == line.line_origin.x + widths_before(segs, m)
                &&& bounds.origin.y == line.line_origin.y
                &&& bounds.size.width == shaped.width
                &&& bounds.size.height == line.height
            },
            ShapedSegment::Element { .. } => false,
        },
        InlineFragmentGeometry::Element { logical_index, bounds, baseline_offset, align } => match segs[m] {
            ShapedSegment::Element { fragment_index, logical_start, .. } => fragment_index < layouts.len() && match layouts[fragment_index as int] {
                InlineFragmentLayout::Element { instance } => {
                    &&& logical_index == logical_start
                    &&& bounds == instance.bounds
                    &&& baseline_offset == instance.baseline_offset
                    &&& align == instance.align
                },
                InlineFragmentLayout::Text => false,
            },
            ShapedSegment::Text { .. } => false,
        },
    }
}

/// `g` is the geometry of one of the first `k` segments of `line`.
pub open spec fn has_segment(g: InlineFragmentGeometry, line: InlineWrapLine, k: int, layouts: Seq<InlineFragmentLayout>) -> bool {
    exists|m: int| 0 <= m < k && #[trigger] geometry_of_segment(g, line, m, layouts)
}

/// `g` is the geometry of a segment of one of the first `j` lines.
pub open spec fn has_line_segment(
    g: InlineFragmentGeometry,
    lines: Seq<InlineWrapLine>,
    j: int,
    layouts: Seq<InlineFragmentLayout>,
) -> bool {
    exists|l: int| 0 <= l < j && #[trigger] has_segment(g, lines[l], lines[l].shaped_segments@.len() as int, layouts)
}

/// Each geometry of a line's first `k` segments is that of one of them.
proof fn lemma_line_geometries_of_segments(line: InlineWrapLine, layouts: Seq<InlineFragmentLayout>, k: int)
    requires
        line.geometry_ok(),
        0 <= k <= line.shaped_segments@.len(),
    ensures
        forall|q: int|
            0 <= q < line_geometries_upto(line, layouts, k).len() ==> #[trigger] has_segment(
                line_geometries_upto(line, layouts, k)[q],
                line,
                k,
                layouts,
            ),
    decreases k,
{
    if k > 0 {
        lemma_line_geometries_of_segments(line, layouts, k - 1);
        let segs = line.shaped_segments@;
        let prev = line_geometries_upto(line, layouts, k - 1);
        let cur = line_geometries_upto(line, layouts, k);
        crate::wrap_line::lemma_widths_bounds(segs, k - 1);
        assert((k - 1) * PX_LIMIT <= COUNT_LIMIT * PX_LIMIT) by (nonlinear_arith)
            requires k - 1 <= COUNT_LIMIT;
        assert forall|q: int| 0 <= q < cur.len() implies #[trigger] has_segment(cur[q], line, k, layouts) by {
            if q < prev.len() {
                assert(cur[q] == prev[q]);
                assert(has_segment(prev[q], line, k - 1, layouts));
                let m = choose|m: int| 0 <= m < k - 1 && #[trigger] geometry_of_segment(prev[q], line, m, layouts);
                assert(geometry_of_segment(cur[q], line, m, layouts));
            } else {
                assert(geometry_of_segment(cur[q], line, k - 1, layouts));
            }
        }
    }
}

/// Each geometry of the first `j` lines is that of a segment of one of them.
proof fn lemma_fragment_geometries_of_segments(lines: Seq<InlineWrapLine>, layouts: Seq<InlineFragmentLayout>, j: int)
    requires
        lines_stacked(lines),
        0 <= j <= lines.len(),
    ensures
        forall|q: int|
            0 <= q < fragment_geometries_upto(lines, layouts, j).len() ==> #[trigger] has_line_segment(
                fragment_geometries_upto(lines, layouts, j)[q],
                lines,
                j,
                layouts,
            ),
    decreases j,
{
    if j > 0 {
        lemma_fragment_geometries_of_segments(lines, layouts, j - 1);
        let prev = fragment_geometries_upto(lines, layouts, j - 1);
        let line = lines[j - 1];
        assert(line.geometry_ok());
        let n = line.shaped_segments@.len() as int;
        let mine = line_geometries_upto(line, layouts, n);
        lemma_line_geometries_of_segments(line, layouts, n);
        let cur = fragment_geometries_upto(lines, layouts, j);
        assert(cur == prev + mine);
        assert forall|q: int| 0 <= q < cur.len() implies #[trigger] has_line_segment(cur[q], lines, j, layouts) by {
            if q < prev.len() {
                assert(cur[q] == prev[q]);
                assert(has_line_segment(prev[q], lines, j - 1, layouts));
                let l = choose|l: int|
                    0 <= l < j - 1 && #[trigger] has_segment(prev[q], lines[l], lines[l].shaped_segments@.len() as int, layouts);
                assert(has_segment(cur[q], lines[l], lines[l].shaped_segments@.len() as int, layouts));
            } else {
                assert(cur[q] == mine[q - prev.len()]);
                assert(has_segment(mine[q - prev.len()], line, n, layouts));
                assert(has_segment(cur[q], lines[j - 1], lines[j - 1].shaped_segments@.len() as int, layouts));
            }
        }
    }
}

/// The fragment geometries of a layout are those of its lines' segments:
/// each text run is reported at its line's top, starting at the line's left
/// edge moved by the advance of the segments before it on the line, as wide
/// as its shaped text and as tall as the line; each element is reported
/// with the bounds, baseline offset and alignment of its measured element.
pub proof fn law_fragment_geometries_follow_segments(layout: InlineSpanLayout)
    requires
        lines_stacked(layout.lines@),
    ensures
        ({
            let lines = layout.lines@;
            let gs = fragment_geometries_upto(lines, layout.fragment_layouts@, lines.len() as int);
            forall|q: int|
                0 <= q < gs.len() ==> #[trigger] has_line_segment(gs[q], lines, lines.len() as int, layout.fragment_layouts@)
        }),
{
    lemma_fragment_geometries_of_segments(layout.lines@, layout.fragment_layouts@, layout.lines@.len() as int);
}

} // verus!
