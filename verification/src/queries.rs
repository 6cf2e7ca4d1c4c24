use vstd::prelude::*;
use crate::geometry::{Pixels, Point, Size, Bounds, PX_LIMIT, COUNT_LIMIT};
use crate::content::{CaretAffinity, InlineElementAlign};
use crate::slices::{InlineFragmentLayout, spec_intersect, intersect_ranges};
use crate::wrap_line::{InlineWrapLine, ShapedSegment, SelectionSegment, widths_before};
use crate::geometry::{wide_limit, tall_limit};
use crate::layout::{InlineSpanLayout, lines_stacked};

verus! {

/// The selection on one line.
#[derive(Debug, PartialEq, Eq)]
pub struct LineSelection {
    /// The line.
    pub line_index: usize,
    /// First logical index selected on the line.
    pub logical_start: usize,
    /// Logical index after the selection on the line.
    pub logical_end: usize,
    /// The selected parts of the line.
    pub segments: Vec<SelectionSegment>,
}

/// The geometry of a line, for overlays.
#[derive(Debug, PartialEq, Eq)]
pub struct InlineLineGeometry {
    /// Logical cells of the line.
    pub logical_range: core::ops::Range<usize>,
    /// Bounds of the line relative to the span.
    pub bounds: Bounds,
    /// Baseline of the line relative to the span.
    pub baseline: Pixels,
}

/// The geometry of a piece of content, for overlays.
#[derive(Debug, PartialEq, Eq)]
pub enum InlineFragmentGeometry {
    /// A run of text on a line.
    Text {
        /// Logical cells of the run.
        logical_range: core::ops::Range<usize>,
        /// Bounds of the run relative to the span: its advance and the line height.
        bounds: Bounds,
    },
    /// An inline element.
    Element {
        /// Logical index of the element.
        logical_index: usize,
        /// Bounds of the element relative to the span.
        bounds: Bounds,
        /// Distance from its top to its baseline.
        baseline_offset: Option<Pixels>,
        /// Its vertical alignment.
        align: InlineElementAlign,
    },
}

/// The caret position of logical index `idx` among lines `j..`: the start
/// of the first line that begins after it, or its position on the first line
/// that ends at or after it, or the end of the last line for the last line's
/// end index.
pub open spec fn position_from(lines: Seq<InlineWrapLine>, idx: int, affinity: CaretAffinity, j: int) -> Option<(int, int)>
    decreases lines.len() - j,
{
    if j < 0 || j >= lines.len() {
        if lines.len() > 0 && idx == lines.last().logical_end {
            let l = lines.last();
            Some((l.line_origin.x + l.width, l.line_origin.y + l.baseline_above_top))
        } else {
            None
        }
    } else {
        let l = lines[j];
        if idx < l.logical_start {
            Some((l.line_origin.x as int, l.line_origin.y + l.baseline_above_top))
        } else if idx <= l.logical_end {
            match l.spec_x_for_index(idx, affinity) {
                Some(x) => Some((x, l.line_origin.y + l.baseline_above_top)),
                None => None,
            }
        } else {
            position_from(lines, idx, affinity, j + 1)
        }
    }
}

/// The line a point at height `y` falls on, searching from line `j`: the
/// first whose bottom is at or below `y`, else the last line.
pub open spec fn target_line_from(lines: Seq<InlineWrapLine>, y: int, j: int) -> Option<int>
    decreases lines.len() - j,
{
    if j < 0 || j >= lines.len() {
        if lines.len() > 0 { Some(lines.len() - 1) } else { None }
    } else if y < lines[j].line_origin.y || y <= lines[j].line_origin.y + lines[j].height {
        Some(j)
    } else {
        target_line_from(lines, y, j + 1)
    }
}

/// The selections of the logical range `[start, end)` on the first `j` lines.
pub open spec fn selections_upto(lines: Seq<InlineWrapLine>, start: int, end: int, j: int) -> Seq<(usize, usize, usize, Seq<SelectionSegment>)>
    decreases j,
{
    if j <= 0 || j > lines.len() {
        Seq::empty()
    } else {
        let prev = selections_upto(lines, start, end, j - 1);
        match lines[j - 1].spec_selection(start, end) {
            Some((overlap, segs)) => prev.push(((j - 1) as usize, overlap.0 as usize, overlap.1 as usize, segs)),
            None => prev,
        }
    }
}

/// The selection rectangle of the logical range `[start, end)` on a line, if
/// the range meets it: from the upstream position of its first index to the
/// downstream position of its last (each the line start when unknown),
/// spanning the line's height.
pub open spec fn line_rect(line: InlineWrapLine, start: int, end: int) -> Option<Bounds> {
    match spec_intersect((start, end), (line.logical_start as int, line.logical_end as int)) {
        None => None,
        Some((s, e)) => {
            let sx = match line.spec_x_for_index(s, CaretAffinity::Upstream) {
                Some(x) => x,
                None => line.line_origin.x as int,
            };
            let ex = match line.spec_x_for_index(e, CaretAffinity::Downstream) {
                Some(x) => x,
                None => line.line_origin.x as int,
            };
            let left = if ex >= sx { sx } else { ex };
            let right = if ex >= sx { ex } else { sx };
            Some(Bounds {
                origin: Point { x: left as Pixels, y: line.line_origin.y },
                size: Size { width: (right - left) as Pixels, height: line.height },
            })
        },
    }
}

/// The selection rectangles of `[start, end)` on the first `j` lines.
pub open spec fn rects_upto(lines: Seq<InlineWrapLine>, start: int, end: int, j: int) -> Seq<Bounds>
    decreases j,
{
    if j <= 0 || j > lines.len() {
        Seq::empty()
    } else {
        let prev = rects_upto(lines, start, end, j - 1);
        match line_rect(lines[j - 1], start, end) {
            Some(r) => prev.push(r),
            None => prev,
        }
    }
}

/// The selection rectangles of the logical range `[start, end)`, one per
/// line it meets; none for an empty range.
pub open spec fn spec_rects(lines: Seq<InlineWrapLine>, start: int, end: int) -> Seq<Bounds> {
    if start >= end {
        Seq::empty()
    } else {
        rects_upto(lines, start, end, lines.len() as int)
    }
}

/// A line's x positions lie between its left edge and its left edge plus
/// the advance of all its segments, or at its end.
pub proof fn lemma_line_x_bounded(line: InlineWrapLine, idx: int, affinity: CaretAffinity)
    requires
        line.geometry_ok(),
        line.box_ok(),
    ensures
        line.spec_x_for_index(idx, affinity) matches Some(x) ==> 0 <= x <= 2 * wide_limit(),
{
    let segs = line.shaped_segments@;
    crate::wrap_line::lemma_widths_bounds(segs, segs.len() as int);
    assert(segs.len() * PX_LIMIT <= wide_limit()) by (nonlinear_arith)
        requires segs.len() <= COUNT_LIMIT;
    assert(widths_before(segs, 0) == 0);
    crate::wrap_line::lemma_x_walk_bounds(segs, idx, affinity, 0, line.line_origin.x as int);
}

/// The selection rectangles of stacked lines lie within the span's extent.
pub proof fn lemma_rects_in_span(lines: Seq<InlineWrapLine>, start: int, end: int, q: int)
    requires
        lines_stacked(lines),
        0 <= q < spec_rects(lines, start, end).len(),
    ensures
        0 <= spec_rects(lines, start, end)[q].origin.x <= 2 * wide_limit(),
        0 <= spec_rects(lines, start, end)[q].origin.y <= tall_limit(),
{
    lemma_rects_upto_in_span(lines, start, end, lines.len() as int, q);
}

proof fn lemma_rects_upto_in_span(lines: Seq<InlineWrapLine>, start: int, end: int, j: int, q: int)
    requires
        lines_stacked(lines),
        0 <= j <= lines.len(),
        0 <= q < rects_upto(lines, start, end, j).len(),
    ensures
        0 <= rects_upto(lines, start, end, j)[q].origin.x <= 2 * wide_limit(),
        0 <= rects_upto(lines, start, end, j)[q].origin.y <= tall_limit(),
    decreases j,
{
    if j > 0 {
        let prev = rects_upto(lines, start, end, j - 1);
        if q < prev.len() {
            lemma_rects_upto_in_span(lines, start, end, j - 1, q);
        } else {
            let line = lines[j - 1];
            assert(line.geometry_ok() && line.box_ok());
            match spec_intersect((start, end), (line.logical_start as int, line.logical_end as int)) {
                Some((s, e)) => {
                    lemma_line_x_bounded(line, s, CaretAffinity::Upstream);
                    lemma_line_x_bounded(line, e, CaretAffinity::Downstream);
                },
                None => {},
            }
        }
    }
}

/// The selection rectangles of a range over the given lines.
pub fn rects_for_range(lines: &Vec<InlineWrapLine>, range: core::ops::Range<usize>) -> (r: Vec<Bounds>)
    requires
        lines_stacked(lines@),
    ensures
        r@ == spec_rects(lines@, range.start as int, range.end as int),
{
    if range.start >= range.end {
        return Vec::new();
    }
    let mut rects: Vec<Bounds> = Vec::new();
    let n = lines.len();
    let mut j: usize = 0;
    while j < n
        invariant
            lines_stacked(lines@),
            n == lines@.len(),
            j <= n,
            range.start < range.end,
            rects@ == rects_upto(lines@, range.start as int, range.end as int, j as int),
        decreases n - j,
    {
        let line = &lines[j];
        proof {
            assert(lines@[j as int].geometry_ok());
        }
        match intersect_ranges(range.start..range.end, line.logical_start..line.logical_end) {
            Some(overlap) => {
                let start_x = match line.x_for_index(overlap.start, CaretAffinity::Upstream) {
                    Some(x) => x,
                    None => line.line_origin.x,
                };
                let end_x = match line.x_for_index(overlap.end, CaretAffinity::Downstream) {
                    Some(x) => x,
                    None => line.line_origin.x,
                };
                proof {
                    lemma_line_x_bounded(*line, overlap.start as int, CaretAffinity::Upstream);
                    lemma_line_x_bounded(*line, overlap.end as int, CaretAffinity::Downstream);
                }
                let (left, right) = if end_x >= start_x { (start_x, end_x) } else { (end_x, start_x) };
                rects.push(Bounds::new(Point::new(left, line.line_origin.y), Size::new(right - left, line.height)));
            },
            None => {},
        }
        j = j + 1;
    }
    rects
}


/// The geometry of a segment whose left edge is at `cursor` on `line`: text
/// spans its advance and the line height; an element reports its placed
/// bounds when its fragment holds a measured element.
pub open spec fn segment_geometry(
    seg: ShapedSegment,
    layouts: Seq<InlineFragmentLayout>,
    cursor: int,
    line: InlineWrapLine,
) -> Option<InlineFragmentGeometry> {
    match seg {
        ShapedSegment::Text { logical_start, logical_end, shaped, .. } => Some(InlineFragmentGeometry::Text {
            logical_range: logical_start..logical_end,
            bounds: Bounds {
                origin: Point { x: cursor as Pixels, y: line.line_origin.y },
                size: Size { width: shaped.width, height: line.height },
            },
        }),
        ShapedSegment::Element { fragment_index, logical_start, .. } => if fragment_index < layouts.len() {
            match layouts[fragment_index as int] {
                InlineFragmentLayout::Element { instance } => Some(InlineFragmentGeometry::Element {
                    logical_index: logical_start,
                    bounds: instance.bounds,
                    baseline_offset: instance.baseline_offset,
                    align: instance.align,
                }),
                InlineFragmentLayout::Text => None,
            }
        } else {
            None
        },
    }
}

/// The geometries of the first `k` segments of a line.
pub open spec fn line_geometries_upto(line: InlineWrapLine, layouts: Seq<InlineFragmentLayout>, k: int) -> Seq<InlineFragmentGeometry>
    decreases k,
{
    if k <= 0 || k > line.shaped_segments@.len() {
        Seq::empty()
    } else {
        let prev = line_geometries_upto(line, layouts, k - 1);
        let cursor = line.line_origin.x + widths_before(line.shaped_segments@, k - 1);
        match segment_geometry(line.shaped_segments@[k - 1], layouts, cursor, line) {
            Some(g) => prev.push(g),
            None => prev,
        }
    }
}

/// The geometries of the segments of the first `j` lines, line by line.
pub open spec fn fragment_geometries_upto(lines: Seq<InlineWrapLine>, layouts: Seq<InlineFragmentLayout>, j: int) -> Seq<InlineFragmentGeometry>
    decreases j,
{
    if j <= 0 || j > lines.len() {
        Seq::empty()
    } else {
        fragment_geometries_upto(lines, layouts, j - 1) + line_geometries_upto(
            lines[j - 1],
            layouts,
            lines[j - 1].shaped_segments@.len() as int,
        )
    }
}

/// The geometry of a line: its logical cells, its box and its baseline.
pub open spec fn line_geometry_matches(g: InlineLineGeometry, line: InlineWrapLine) -> bool {
    &&& g.logical_range == (line.logical_start..line.logical_end)
    &&& g.bounds == (Bounds { origin: line.line_origin, size: Size { width: line.width, height: line.height } })
    &&& g.baseline == line.line_origin.y + line.baseline_above_top
}

impl InlineSpanLayout {
    /// The caret position of a logical index, on the baseline, relative to the span.
    pub fn position_for_logical_index(&self, logical_index: usize, affinity: CaretAffinity) -> (r: Option<Point>)
        requires
            self.wf(),
        ensures
            match position_from(self.lines@, logical_index as int, affinity, 0) {
                Some((x, y)) => r == Some(Point { x: x as Pixels, y: y as Pixels }),
                None => r is None,
            },
    {
        let lines = &self.lines;
        let n = lines.len();
        let mut j: usize = 0;
        while j < n
            invariant
                lines == self.lines,
                lines_stacked(lines@),
                n == lines@.len(),
                j <= n,
                position_from(lines@, logical_index as int, affinity, 0) == position_from(
                    lines@,
                    logical_index as int,
                    affinity,
                    j as int,
                ),
            decreases n - j,
        {
            let line = &lines[j];
            proof {
                assert(lines@[j as int].geometry_ok() && lines@[j as int].box_ok());
            }
            if logical_index < line.logical_start {
                return Some(Point::new(line.line_origin.x, line.line_origin.y + line.baseline_above_top));
            }
            if logical_index <= line.logical_end {
                proof {
                    lemma_line_x_bounded(*line, logical_index as int, affinity);
                }
                let x = match line.x_for_index(logical_index, affinity) {
                    Some(x) => x,
                    None => return None,
                };
                return Some(Point::new(x, line.line_origin.y + line.baseline_above_top));
            }
            j = j + 1;
        }
        if n > 0 {
            let line = &lines[n - 1];
            proof {
                assert(lines@[n - 1].geometry_ok() && lines@[n - 1].box_ok());
            }
            if logical_index == line.logical_end {
                return Some(Point::new(line.line_origin.x + line.width, line.line_origin.y + line.baseline_above_top));
            }
        }
        None
    }

    /// The logical index at a point relative to the span: on the first line
    /// whose bottom is at or below the point (else the last line), at the
    /// point's x. `None` when there are no lines.
    pub fn logical_index_for_point(&self, point: Point, affinity: CaretAffinity) -> (r: Option<usize>)
        requires
            self.wf(),
        ensures
            match target_line_from(self.lines@, point.y as int, 0) {
                Some(j) => r == Some(self.lines@[j].spec_index_for_x(point.x as int, affinity) as usize),
                None => r is None,
            },
    {
        let lines = &self.lines;
        let n = lines.len();
        let mut j: usize = 0;
        while j < n
            invariant
                lines == self.lines,
                lines_stacked(lines@),
                n == lines@.len(),
                j <= n,
                target_line_from(lines@, point.y as int, 0) == target_line_from(lines@, point.y as int, j as int),
            decreases n - j,
        {
            let line = &lines[j];
            proof {
                assert(lines@[j as int].geometry_ok() && lines@[j as int].box_ok());
            }
            let top = line.line_origin.y;
            let bottom = top + line.height;
            if point.y < top || point.y <= bottom {
                return Some(line.index_for_x(point.x, affinity));
            }
            j = j + 1;
        }
        if n == 0 {
            return None;
        }
        proof {
            assert(lines@[n - 1].geometry_ok());
        }
        Some(lines[n - 1].index_for_x(point.x, affinity))
    }

    /// The selection of a logical range, line by line: each line it meets
    /// with the overlap and the selected parts.
    pub fn selections_for_range(&self, range: core::ops::Range<usize>) -> (r: Vec<LineSelection>)
        requires
            self.wf(),
        ensures
            ({
                let sel = selections_upto(self.lines@, range.start as int, range.end as int, self.lines@.len() as int);
                &&& r@.len() == sel.len()
                &&& forall|k: int|
                    0 <= k < sel.len() ==> (#[trigger] r@[k]).line_index == sel[k].0 && r@[k].logical_start
                        == sel[k].1 && r@[k].logical_end == sel[k].2 && r@[k].segments@ == sel[k].3
            }),
    {
        let lines = &self.lines;
        let n = lines.len();
        let mut out: Vec<LineSelection> = Vec::new();
        let mut j: usize = 0;
        while j < n
            invariant
                lines == self.lines,
                lines_stacked(lines@),
                n == lines@.len(),
                j <= n,
                ({
                    let sel = selections_upto(lines@, range.start as int, range.end as int, j as int);
                    &&& out@.len() == sel.len()
                    &&& forall|k: int|
                        0 <= k < sel.len() ==> (#[trigger] out@[k]).line_index == sel[k].0
                            && out@[k].logical_start == sel[k].1 && out@[k].logical_end == sel[k].2
                            && out@[k].segments@ == sel[k].3
                }),
            decreases n - j,
        {
            proof {
                assert(lines@[j as int].geometry_ok());
            }
            match lines[j].selection_segments_for_range(range.start..range.end) {
                Some((logical, segments)) => {
                    out.push(
                        LineSelection {
                            line_index: j,
                            logical_start: logical.start,
                            logical_end: logical.end,
                            segments,
                        },
                    );
                },
                None => {},
            }
            j = j + 1;
        }
        out
    }

    /// The selection rectangles of a logical range, relative to the span.
    pub fn selection_rects(&self, range: core::ops::Range<usize>) -> (r: Vec<Bounds>)
        requires
            self.wf(),
        ensures
            r@ == spec_rects(self.lines@, range.start as int, range.end as int),
    {
        rects_for_range(&self.lines, range)
    }

    /// The geometry of every line.
    pub fn line_geometries(&self) -> (r: Vec<InlineLineGeometry>)
        requires
            self.wf(),
        ensures
            r@.len() == self.lines@.len(),
            forall|j: int| 0 <= j < r@.len() ==> line_geometry_matches(#[trigger] r@[j], self.lines@[j]),
    {
        let lines = &self.lines;
        let n = lines.len();
        let mut out: Vec<InlineLineGeometry> = Vec::new();
        let mut j: usize = 0;
        while j < n
            invariant
                lines == self.lines,
                lines_stacked(lines@),
                n == lines@.len(),
                j <= n,
                out@.len() == j,
                forall|k: int| 0 <= k < j ==> line_geometry_matches(#[trigger] out@[k], lines@[k]),
            decreases n - j,
        {
            let line = &lines[j];
            proof {
                assert(lines@[j as int].geometry_ok() && lines@[j as int].box_ok());
            }
            out.push(
                InlineLineGeometry {
                    logical_range: line.logical_start..line.logical_end,
                    bounds: Bounds::new(line.line_origin, Size::new(line.width, line.height)),
                    baseline: line.line_origin.y + line.baseline_above_top,
                },
            );
            j = j + 1;
        }
        out
    }

    /// The geometry of every text run and element, line by line.
    pub fn fragment_geometries(&self) -> (r: Vec<InlineFragmentGeometry>)
        requires
            self.wf(),
        ensures
            r@ == fragment_geometries_upto(self.lines@, self.fragment_layouts@, self.lines@.len() as int),
    {
        let lines = &self.lines;
        let layouts = &self.fragment_layouts;
        let n = lines.len();
        let mut out: Vec<InlineFragmentGeometry> = Vec::new();
        let mut j: usize = 0;
        while j < n
            invariant
                lines == self.lines,
                layouts == self.fragment_layouts,
                lines_stacked(lines@),
                n == lines@.len(),
                j <= n,
                out@ == fragment_geometries_upto(lines@, layouts@, j as int),
            decreases n - j,
        {
            let line = &lines[j];
            proof {
                assert(lines@[j as int].geometry_ok() && lines@[j as int].box_ok());
            }
            let segs = &line.shaped_segments;
            let m = segs.len();
            let mut cursor = line.line_origin.x;
            let mut k: usize = 0;
            let ghost out0 = out@;
            while k < m
                invariant
                    segs == line.shaped_segments,
                    line.geometry_ok(),
                    m == segs@.len(),
                    k <= m,
                    cursor == line.line_origin.x + widths_before(segs@, k as int),
                    0 <= widths_before(segs@, k as int) <= k * PX_LIMIT,
                    out@ == out0 + line_geometries_upto(*line, layouts@, k as int),
                decreases m - k,
            {
                proof {
                    assert(k * PX_LIMIT + PX_LIMIT <= COUNT_LIMIT * PX_LIMIT) by (nonlinear_arith)
                        requires k < m, m <= COUNT_LIMIT;
                    assert(segs@[k as int].wf());
                }
                let ghost before = out@;
                match &segs[k] {
                    ShapedSegment::Text { logical_start, logical_end, shaped, .. } => {
                        out.push(
                            InlineFragmentGeometry::Text {
                                logical_range: *logical_start..*logical_end,
                                bounds: Bounds::new(
                                    Point::new(cursor, line.line_origin.y),
                                    Size::new(shaped.width, line.height),
                                ),
                            },
                        );
                        cursor = cursor + shaped.width;
                    },
                    ShapedSegment::Element { fragment_index, logical_start, width, .. } => {
                        if *fragment_index < layouts.len() {
                            match &layouts[*fragment_index] {
                                InlineFragmentLayout::Element { instance } => {
                                    out.push(
                                        InlineFragmentGeometry::Element {
                                            logical_index: *logical_start,
                                            bounds: instance.bounds,
                                            baseline_offset: instance.baseline_offset,
                                            align: instance.align,
                                        },
                                    );
                                },
                                InlineFragmentLayout::Text => {},
                            }
                        }
                        cursor = cursor + *width;
                    },
                }
                proof {
                    assert(out@ =~= out0 + line_geometries_upto(*line, layouts@, k + 1));
                }
                k = k + 1;
            }
            proof {
                assert(out@ =~= fragment_geometries_upto(lines@, layouts@, j + 1));
            }
            j = j + 1;
        }
        out
    }
}

} // verus!
