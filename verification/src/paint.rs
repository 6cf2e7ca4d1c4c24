use vstd::prelude::*;
use crate::geometry::{Pixels, Point, Size, Bounds, PX_LIMIT, COUNT_LIMIT, coord_ok};
use crate::style::Hsla;
use crate::slices::InlineFragmentLayout;
use crate::wrap_line::{InlineWrapLine, ShapedSegment};
use crate::line_build::{placement_before, layouts_in_bounds};
use crate::layout::{InlineSpanLayout, InlineDecoration, lines_stacked};
use crate::queries::{spec_rects, rects_for_range};

verus! {

/// One drawing step of painting a span, in span-independent coordinates
/// (already offset by the span's bounds).
#[derive(Clone, Copy, Debug, PartialEq, Eq, Structural)]
pub enum PaintCommand {
    /// A filled rectangle: a decoration's background.
    Fill {
        /// Where.
        bounds: Bounds,
        /// Fill color.
        color: Hsla,
    },
    /// A shaped text segment, drawn with its left edge at `origin` in a line
    /// box of `line_height`.
    Text {
        /// The line.
        line_index: usize,
        /// The segment within the line.
        segment_index: usize,
        /// Top-left corner of the segment's line box.
        origin: Point,
        /// Height of the line box.
        line_height: Pixels,
    },
    /// A measured inline element, drawn where it was placed.
    Element {
        /// The element's fragment.
        fragment_index: usize,
    },
    /// An outline drawn for debugging.
    Outline {
        /// Where.
        bounds: Bounds,
        /// Stroke color.
        color: Hsla,
        /// Dashed (lines) rather than solid (elements).
        dashed: bool,
    },
}

/// An element to lay out at its measured size and prepaint at `origin`.
#[derive(Clone, Copy, Debug, PartialEq, Eq, Structural)]
pub struct ElementPrepaint {
    /// The element's fragment.
    pub fragment_index: usize,
    /// Where the element's top-left corner goes.
    pub origin: Point,
    /// The space it is laid out in.
    pub size: Size,
}

/// The color of a line's debugging outline: translucent blue.
pub open spec fn line_outline_color() -> Hsla {
    Hsla { h: 603, s: 912, l: 598, a: 502 }
}

/// The color of an element's debugging outline: translucent red.
pub open spec fn element_outline_color() -> Hsla {
    Hsla { h: 0, s: 842, l: 602, a: 753 }
}

/// `b` moved by `origin`.
pub open spec fn offset_bounds(origin: Point, b: Bounds) -> Bounds {
    Bounds {
        origin: Point { x: (origin.x + b.origin.x) as Pixels, y: (origin.y + b.origin.y) as Pixels },
        size: b.size,
    }
}

/// Every element segment of the lines names a fragment among the first `n`.
pub open spec fn segments_indexed(lines: Seq<InlineWrapLine>, n: int) -> bool {
    forall|j: int, k: int|
        #![trigger lines[j].shaped_segments@[k]]
        0 <= j < lines.len() && 0 <= k < lines[j].shaped_segments@.len()
            && lines[j].shaped_segments@[k] is Element ==> lines[j].shaped_segments@[k].spec_fragment_index() < n
}

/// The fills of the first `d` decorations: for each, one rectangle per line
/// its range meets, moved by `origin`, in its background color.
pub open spec fn decoration_fills(
    decorations: Seq<InlineDecoration>,
    lines: Seq<InlineWrapLine>,
    origin: Point,
    d: int,
) -> Seq<PaintCommand>
    decreases d,
{
    if d <= 0 || d > decorations.len() {
        Seq::empty()
    } else {
        let dec = decorations[d - 1];
        decoration_fills(decorations, lines, origin, d - 1) + spec_rects(
            lines,
            dec.range.start as int,
            dec.range.end as int,
        ).map_values(|r: Bounds| PaintCommand::Fill { bounds: offset_bounds(origin, r), color: dec.style.background })
    }
}

/// What painting the first `k` segments of line `j` draws: text at its
/// running position, and elements whose fragment holds a measured element.
pub open spec fn segment_commands(
    line: InlineWrapLine,
    j: int,
    layouts: Seq<InlineFragmentLayout>,
    origin: Point,
    k: int,
) -> Seq<PaintCommand>
    decreases k,
{
    let segs = line.shaped_segments@;
    if k <= 0 || k > segs.len() {
        Seq::empty()
    } else {
        let prev = segment_commands(line, j, layouts, origin, k - 1);
        match segs[k - 1] {
            ShapedSegment::Text { .. } => prev.push(
                PaintCommand::Text {
                    line_index: j as usize,
                    segment_index: (k - 1) as usize,
                    origin: Point {
                        x: (origin.x + line.line_origin.x + placement_before(segs, layouts, k - 1)) as Pixels,
                        y: (origin.y + line.line_origin.y) as Pixels,
                    },
                    line_height: line.height,
                },
            ),
            ShapedSegment::Element { fragment_index, .. } => match layouts[fragment_index as int] {
                InlineFragmentLayout::Element { .. } => prev.push(PaintCommand::Element { fragment_index }),
                InlineFragmentLayout::Text => prev,
            },
        }
    }
}

/// What painting the content of the first `j` lines draws.
pub open spec fn line_commands(
    lines: Seq<InlineWrapLine>,
    layouts: Seq<InlineFragmentLayout>,
    origin: Point,
    j: int,
) -> Seq<PaintCommand>
    decreases j,
{
    if j <= 0 || j > lines.len() {
        Seq::empty()
    } else {
        line_commands(lines, layouts, origin, j - 1) + segment_commands(
            lines[j - 1],
            j - 1,
            layouts,
            origin,
            lines[j - 1].shaped_segments@.len() as int,
        )
    }
}

/// Dashed outlines of the first `j` lines that have both width and height.
pub open spec fn line_outlines(lines: Seq<InlineWrapLine>, origin: Point, j: int) -> Seq<PaintCommand>
    decreases j,
{
    if j <= 0 || j > lines.len() {
        Seq::empty()
    } else {
        let line = lines[j - 1];
        let prev = line_outlines(lines, origin, j - 1);
        if line.width <= 0 || line.height <= 0 {
            prev
        } else {
            prev.push(
                PaintCommand::Outline {
                    bounds: offset_bounds(
                        origin,
                        Bounds { origin: line.line_origin, size: Size { width: line.width, height: line.height } },
                    ),
                    color: line_outline_color(),
                    dashed: true,
                },
            )
        }
    }
}

/// Solid outlines of the measured elements among the first `i` fragments.
pub open spec fn element_outlines(layouts: Seq<InlineFragmentLayout>, origin: Point, i: int) -> Seq<PaintCommand>
    decreases i,
{
    if i <= 0 || i > layouts.len() {
        Seq::empty()
    } else {
        let prev = element_outlines(layouts, origin, i - 1);
        match layouts[i - 1] {
            InlineFragmentLayout::Element { instance } => prev.push(
                PaintCommand::Outline {
                    bounds: offset_bounds(origin, instance.bounds),
                    color: element_outline_color(),
                    dashed: false,
                },
            ),
            InlineFragmentLayout::Text => prev,
        }
    }
}

/// What painting a layout placed at `bounds` draws: decoration backgrounds,
/// then the lines' text and elements, then (when asked) debugging outlines
/// of the lines and elements.
pub open spec fn spec_paint_commands(layout: InlineSpanLayout, bounds: Bounds, debug_outlines: bool) -> Seq<PaintCommand> {
    let origin = bounds.origin;
    let lines = layout.lines@;
    let layouts = layout.fragment_layouts@;
    let body = decoration_fills(layout.decorations@, lines, origin, layout.decorations@.len() as int)
        + line_commands(lines, layouts, origin, lines.len() as int);
    if debug_outlines {
        body + line_outlines(lines, origin, lines.len() as int) + element_outlines(
            layouts,
            origin,
            layouts.len() as int,
        )
    } else {
        body
    }
}

/// The elements to lay out and prepaint among the first `i` fragments: each
/// measured element, at its placed position moved by `origin`, in its size.
pub open spec fn element_prepaints(layouts: Seq<InlineFragmentLayout>, origin: Point, i: int) -> Seq<ElementPrepaint>
    decreases i,
{
    if i <= 0 || i > layouts.len() {
        Seq::empty()
    } else {
        let prev = element_prepaints(layouts, origin, i - 1);
        match layouts[i - 1] {
            InlineFragmentLayout::Element { instance } => prev.push(
                ElementPrepaint {
                    fragment_index: (i - 1) as usize,
                    origin: offset_bounds(origin, instance.bounds).origin,
                    size: instance.size,
                },
            ),
            InlineFragmentLayout::Text => prev,
        }
    }
}

/// Paint advances of the first `k` segments of a line stay within `k` limits.
proof fn lemma_paint_advance_bounds(segs: Seq<ShapedSegment>, layouts: Seq<InlineFragmentLayout>, k: int)
    requires
        forall|m: int| 0 <= m < segs.len() ==> (#[trigger] segs[m]).wf(),
        forall|m: int|
            0 <= m < segs.len() && (#[trigger] segs[m]) is Element ==> segs[m].spec_fragment_index() < layouts.len(),
        layouts_in_bounds(layouts),
        0 <= k <= segs.len(),
    ensures
        0 <= placement_before(segs, layouts, k) <= k * PX_LIMIT,
    decreases k,
{
    if k > 0 {
        lemma_paint_advance_bounds(segs, layouts, k - 1);
        assert(segs[k - 1].wf());
        assert((k - 1) * PX_LIMIT + PX_LIMIT == k * PX_LIMIT) by (nonlinear_arith);
        match segs[k - 1] {
            ShapedSegment::Element { fragment_index, .. } => {
                assert(layouts[fragment_index as int] matches InlineFragmentLayout::Element { instance }
                    ==> instance.in_bounds());
            },
            _ => {},
        }
    }
}

impl InlineSpanLayout {
    /// Whether every element segment of the lines names one of the layout's
    /// fragments.
    pub fn segments_indexed(&self) -> (r: bool)
        ensures
            r == segments_indexed(self.lines@, self.fragment_layouts@.len() as int),
    {
        let n = self.fragment_layouts.len();
        let lines = &self.lines;
        let mut j: usize = 0;
        while j < lines.len()
            invariant
                n == self.fragment_layouts@.len(),
                lines == self.lines,
                j <= lines@.len(),
                forall|jj: int, k: int|
                    #![trigger lines@[jj].shaped_segments@[k]]
                    0 <= jj < j && 0 <= k < lines@[jj].shaped_segments@.len()
                        && lines@[jj].shaped_segments@[k] is Element
                        ==> lines@[jj].shaped_segments@[k].spec_fragment_index() < n,
            decreases lines@.len() - j,
        {
            let segs = &lines[j].shaped_segments;
            let mut k: usize = 0;
            while k < segs.len()
                invariant
                    lines == self.lines,
                    n == self.fragment_layouts@.len(),
                    j < lines@.len(),
                    segs == lines@[j as int].shaped_segments,
                    k <= segs@.len(),
                    forall|kk: int|
                        0 <= kk < k && (#[trigger] segs@[kk]) is Element ==> segs@[kk].spec_fragment_index() < n,
                decreases segs@.len() - k,
            {
                match &segs[k] {
                    ShapedSegment::Element { fragment_index, .. } => {
                        if *fragment_index >= n {
                            proof {
                                assert(lines@[j as int].shaped_segments@[k as int] is Element);
                                assert(!segments_indexed(self.lines@, self.fragment_layouts@.len() as int));
                            }
                            return false;
                        }
                    },
                    ShapedSegment::Text { .. } => {},
                }
                k = k + 1;
            }
            j = j + 1;
        }
        true
    }

    /// Records the bounds the span was given and lists each measured element
    /// with where to prepaint it: its placed position moved by the bounds'
    /// origin, in its measured size.
    pub fn prepaint(&mut self, bounds: Bounds) -> (r: Vec<ElementPrepaint>)
        requires
            old(self).wf(),
            coord_ok(bounds.origin.x as int),
            coord_ok(bounds.origin.y as int),
        ensures
            final(self).bounds == Some(bounds),
            final(self).wf(),
            r@ == element_prepaints(old(self).fragment_layouts@, bounds.origin, old(self).fragment_layouts@.len() as int),
            final(self).lines == old(self).lines,
            final(self).fragment_layouts == old(self).fragment_layouts,
            final(self).measured_size == old(self).measured_size,
            final(self).last_wrap_width == old(self).last_wrap_width,
            final(self).last_line_height == old(self).last_line_height,
            final(self).dirty == old(self).dirty,
            final(self).decorations == old(self).decorations,
            final(self).prepared_elements == old(self).prepared_elements,
    {
        self.bounds = Some(bounds);
        let layouts = &self.fragment_layouts;
        let mut out: Vec<ElementPrepaint> = Vec::new();
        let mut i: usize = 0;
        while i < layouts.len()
            invariant
                layouts_in_bounds(layouts@),
                coord_ok(bounds.origin.x as int),
                coord_ok(bounds.origin.y as int),
                i <= layouts@.len(),
                out@ == element_prepaints(layouts@, bounds.origin, i as int),
            decreases layouts@.len() - i,
        {
            match &layouts[i] {
                InlineFragmentLayout::Element { instance } => {
                    proof {
                        assert(layouts@[i as int] matches InlineFragmentLayout::Element { instance }
                            ==> instance.in_bounds());
                    }
                    out.push(
                        ElementPrepaint {
                            fragment_index: i,
                            origin: Point::new(
                                bounds.origin.x + instance.bounds.origin.x,
                                bounds.origin.y + instance.bounds.origin.y,
                            ),
                            size: instance.size,
                        },
                    );
                },
                InlineFragmentLayout::Text => {},
            }
            i = i + 1;
        }
        out
    }

    /// What painting the layout draws: nothing before it has been given
    /// bounds; else decoration backgrounds, then the lines' text and
    /// elements, then, when `debug_outlines` is set, outlines of the lines
    /// and elements.
    #[verifier::rlimit(40)]
    pub fn paint_commands(&self, debug_outlines: bool) -> (r: Vec<PaintCommand>)
        requires
            self.wf(),
            segments_indexed(self.lines@, self.fragment_layouts@.len() as int),
            self.bounds matches Some(b) ==> coord_ok(b.origin.x as int) && coord_ok(b.origin.y as int),
        ensures
            r@ == match self.bounds {
                None => Seq::empty(),
                Some(b) => spec_paint_commands(*self, b, debug_outlines),
            },
    {
        let bounds = match self.bounds {
            None => return Vec::new(),
            Some(b) => b,
        };
        let origin = bounds.origin;
        let lines = &self.lines;
        let layouts = &self.fragment_layouts;
        let mut out: Vec<PaintCommand> = Vec::new();
        let nd = self.decorations.len();
        let mut d: usize = 0;
        while d < nd
            invariant
                nd == self.decorations@.len(),
                lines == self.lines,
                lines_stacked(lines@),
                coord_ok(origin.x as int),
                coord_ok(origin.y as int),
                d <= nd,
                out@ == decoration_fills(self.decorations@, lines@, origin, d as int),
            decreases nd - d,
        {
            let dec = &self.decorations[d];
            let rects = rects_for_range(lines, dec.range.start..dec.range.end);
            let ghost before = out@;
            let mut q: usize = 0;
            while q < rects.len()
                invariant
                    coord_ok(origin.x as int),
                    coord_ok(origin.y as int),
                    lines_stacked(lines@),
                    rects@ == spec_rects(lines@, dec.range.start as int, dec.range.end as int),
                    q <= rects@.len(),
                    out@ == before + rects@.subrange(0, q as int).map_values(
                        |r: Bounds| PaintCommand::Fill { bounds: offset_bounds(origin, r), color: dec.style.background },
                    ),
                decreases rects@.len() - q,
            {
                let rect = rects[q];
                proof {
                    crate::queries::lemma_rects_in_span(lines@, dec.range.start as int, dec.range.end as int, q as int);
                }
                out.push(
                    PaintCommand::Fill {
                        bounds: Bounds::new(
                            Point::new(origin.x + rect.origin.x, origin.y + rect.origin.y),
                            rect.size,
                        ),
                        color: dec.style.background,
                    },
                );
                q = q + 1;
                proof {
                    assert(out@ =~= before + rects@.subrange(0, q as int).map_values(
                        |r: Bounds| PaintCommand::Fill { bounds: offset_bounds(origin, r), color: dec.style.background },
                    ));
                }
            }
            proof {
                assert(rects@.subrange(0, rects@.len() as int) =~= rects@);
            }
            d = d + 1;
        }
        let ghost fills = out@;
        let n = lines.len();
        let mut j: usize = 0;
        while j < n
            invariant
                lines == self.lines,
                layouts == self.fragment_layouts,
                lines_stacked(lines@),
                layouts_in_bounds(layouts@),
                segments_indexed(lines@, layouts@.len() as int),
                coord_ok(origin.x as int),
                coord_ok(origin.y as int),
                n == lines@.len(),
                j <= n,
                out@ == fills + line_commands(lines@, layouts@, origin, j as int),
            decreases n - j,
        {
            let line = &lines[j];
            proof {
                assert(lines@[j as int].geometry_ok() && lines@[j as int].box_ok());
            }
            let segs = &line.shaped_segments;
            let m = segs.len();
            let mut cursor: Pixels = origin.x + line.line_origin.x;
            let mut k: usize = 0;
            let ghost out0 = out@;
            while k < m
                invariant
                    segs == line.shaped_segments,
                    line == lines@[j as int],
                    line.geometry_ok(),
                    line.box_ok(),
                    j < lines@.len(),
                    layouts_in_bounds(layouts@),
                    segments_indexed(lines@, layouts@.len() as int),
                    coord_ok(origin.x as int),
                    coord_ok(origin.y as int),
                    m == segs@.len(),
                    k <= m,
                    cursor == origin.x + line.line_origin.x + placement_before(segs@, layouts@, k as int),
                    0 <= placement_before(segs@, layouts@, k as int) <= k * PX_LIMIT,
                    out@ == out0 + segment_commands(*line, j as int, layouts@, origin, k as int),
                decreases m - k,
            {
                proof {
                    assert(k * PX_LIMIT + PX_LIMIT <= COUNT_LIMIT * PX_LIMIT) by (nonlinear_arith)
                        requires k < m, m <= COUNT_LIMIT;
                    assert(segs@[k as int].wf());
                    assert(forall|mm: int|
                        0 <= mm < segs@.len() && (#[trigger] segs@[mm]) is Element ==> segs@[mm].spec_fragment_index()
                            < layouts@.len()) by {
                        assert forall|mm: int| 0 <= mm < segs@.len() && (#[trigger] segs@[mm]) is Element implies segs@[mm].spec_fragment_index()
                            < layouts@.len() by {
                            assert(lines@[j as int].shaped_segments@[mm] is Element);
                        }
                    }
                    lemma_paint_advance_bounds(segs@, layouts@, k + 1);
                }
                match &segs[k] {
                    ShapedSegment::Text { shaped, .. } => {
                        out.push(
                            PaintCommand::Text {
                                line_index: j,
                                segment_index: k,
                                origin: Point::new(cursor, origin.y + line.line_origin.y),
                                line_height: line.height,
                            },
                        );
                        cursor = cursor + shaped.width;
                    },
                    ShapedSegment::Element { fragment_index, .. } => {
                        proof {
                            assert(lines@[j as int].shaped_segments@[k as int] is Element);
                        }
                        match &layouts[*fragment_index] {
                            InlineFragmentLayout::Element { instance } => {
                                out.push(PaintCommand::Element { fragment_index: *fragment_index });
                                cursor = cursor + instance.size.width;
                            },
                            InlineFragmentLayout::Text => {},
                        }
                    },
                }
                proof {
                    assert(out@ =~= out0 + segment_commands(*line, j as int, layouts@, origin, k + 1));
                }
                k = k + 1;
            }
            proof {
                assert(out@ =~= fills + line_commands(lines@, layouts@, origin, j + 1));
            }
            j = j + 1;
        }
        if debug_outlines {
            let ghost body = out@;
            let mut j2: usize = 0;
            while j2 < n
                invariant
                    lines == self.lines,
                    lines_stacked(lines@),
                    coord_ok(origin.x as int),
                    coord_ok(origin.y as int),
                    n == lines@.len(),
                    j2 <= n,
                    out@ == body + line_outlines(lines@, origin, j2 as int),
                decreases n - j2,
            {
                let line = &lines[j2];
                proof {
                    assert(lines@[j2 as int].geometry_ok() && lines@[j2 as int].box_ok());
                }
                if !(line.width <= 0 || line.height <= 0) {
                    out.push(
                        PaintCommand::Outline {
                            bounds: Bounds::new(
                                Point::new(origin.x + line.line_origin.x, origin.y + line.line_origin.y),
                                Size::new(line.width, line.height),
                            ),
                            color: Hsla { h: 603, s: 912, l: 598, a: 502 },
                            dashed: true,
                        },
                    );
                }
                proof {
                    assert(out@ =~= body + line_outlines(lines@, origin, j2 + 1));
                }
                j2 = j2 + 1;
            }
            let ghost with_lines = out@;
            let nl = layouts.len();
            let mut i: usize = 0;
            while i < nl
                invariant
                    layouts == self.fragment_layouts,
                    layouts_in_bounds(layouts@),
                    coord_ok(origin.x as int),
                    coord_ok(origin.y as int),
                    nl == layouts@.len(),
                    i <= nl,
                    out@ == with_lines + element_outlines(layouts@, origin, i as int),
                decreases nl - i,
            {
                match &layouts[i] {
                    InlineFragmentLayout::Element { instance } => {
                        proof {
                            assert(layouts@[i as int] matches InlineFragmentLayout::Element { instance }
                                ==> instance.in_bounds());
                        }
                        out.push(
                            PaintCommand::Outline {
                                bounds: Bounds::new(
                                    Point::new(origin.x + instance.bounds.origin.x, origin.y + instance.bounds.origin.y),
                                    instance.bounds.size,
                                ),
                                color: Hsla { h: 0, s: 842, l: 602, a: 753 },
                                dashed: false,
                            },
                        );
                    },
                    InlineFragmentLayout::Text => {},
                }
                proof {
                    assert(out@ =~= with_lines + element_outlines(layouts@, origin, i + 1));
                }
                i = i + 1;
            }
        }
        out
    }
}

} // verus!
