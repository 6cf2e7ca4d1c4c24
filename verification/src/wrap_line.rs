use vstd::prelude::*;
use crate::geometry::{Pixels, Point, PX_LIMIT, COUNT_LIMIT, extent_ok, spec_half, px_half, wide_limit};
use crate::text::{cell_offset, ceil_cell, cell_to_byte_offset, byte_offset_to_cell_index};
use crate::shaping::{ShapedLine, glyph_x_from};
use crate::slices::{LogicalSlice, spec_intersect, intersect_ranges};
use crate::content::CaretAffinity;

verus! {

/// Something painted on a line.
#[derive(Clone, Debug, PartialEq, Eq)]
pub enum ShapedSegment {
    /// Shaped text from a text fragment.
    Text {
        /// The fragment.
        fragment_index: usize,
        /// First byte of the text within the fragment.
        start_in_fragment: usize,
        /// Byte after the text within the fragment.
        end_in_fragment: usize,
        /// Logical index of the first cell.
        logical_start: usize,
        /// Logical index after the last cell.
        logical_end: usize,
        /// The shaped text.
        shaped: ShapedLine,
    },
    /// An inline element, one logical cell wide.
    Element {
        /// The fragment.
        fragment_index: usize,
        /// Logical index of the element.
        logical_start: usize,
        /// Logical index after the element.
        logical_end: usize,
        /// Width of the element.
        width: Pixels,
    },
}

impl ShapedSegment {
    /// Advance width of the segment.
    pub open spec fn spec_width(self) -> int {
        match self {
            ShapedSegment::Text { shaped, .. } => shaped.width as int,
            ShapedSegment::Element { width, .. } => width as int,
        }
    }

    /// First logical index of the segment.
    pub open spec fn spec_logical_start(self) -> int {
        match self {
            ShapedSegment::Text { logical_start, .. } => logical_start as int,
            ShapedSegment::Element { logical_start, .. } => logical_start as int,
        }
    }

    /// Logical index after the segment.
    pub open spec fn spec_logical_end(self) -> int {
        match self {
            ShapedSegment::Text { logical_end, .. } => logical_end as int,
            ShapedSegment::Element { logical_end, .. } => logical_end as int,
        }
    }

    /// The fragment the segment comes from.
    pub open spec fn spec_fragment_index(self) -> usize {
        match self {
            ShapedSegment::Text { fragment_index, .. } => fragment_index,
            ShapedSegment::Element { fragment_index, .. } => fragment_index,
        }
    }

    /// The segment is consistent: shaped text is well formed and an element
    /// has a width within bounds.
    pub open spec fn wf(self) -> bool {
        match self {
            ShapedSegment::Text { shaped, start_in_fragment, logical_start, logical_end, .. } =>
                shaped.wf() && start_in_fragment <= COUNT_LIMIT && logical_start <= logical_end
                <= COUNT_LIMIT,
            ShapedSegment::Element { width, logical_start, logical_end, .. } => extent_ok(
                width as int,
            ) && logical_start <= logical_end <= COUNT_LIMIT,
        }
    }
}

impl ShapedSegment {
    /// `self` and `other` are the same segment, their shaped text taken by
    /// content.
    pub open spec fn same_as(self, other: ShapedSegment) -> bool {
        match (self, other) {
            (
                ShapedSegment::Text { fragment_index: f1, start_in_fragment: s1, end_in_fragment: e1, logical_start: a1, logical_end: b1, shaped: t1 },
                ShapedSegment::Text { fragment_index: f2, start_in_fragment: s2, end_in_fragment: e2, logical_start: a2, logical_end: b2, shaped: t2 },
            ) => f1 == f2 && s1 == s2 && e1 == e2 && a1 == a2 && b1 == b2 && t1.same_as(&t2),
            (ShapedSegment::Element { .. }, ShapedSegment::Element { .. }) => self == other,
            _ => false,
        }
    }

    /// A copy of this segment.
    pub fn duplicate(&self) -> (r: ShapedSegment)
        ensures
            r.same_as(*self),
    {
        match self {
            ShapedSegment::Text { fragment_index, start_in_fragment, end_in_fragment, logical_start, logical_end, shaped } =>
                ShapedSegment::Text {
                fragment_index: *fragment_index,
                start_in_fragment: *start_in_fragment,
                end_in_fragment: *end_in_fragment,
                logical_start: *logical_start,
                logical_end: *logical_end,
                shaped: shaped.duplicate(),
            },
            ShapedSegment::Element { fragment_index, logical_start, logical_end, width } => ShapedSegment::Element {
                fragment_index: *fragment_index,
                logical_start: *logical_start,
                logical_end: *logical_end,
                width: *width,
            },
        }
    }
}

impl InlineWrapLine {
    /// `self` and `other` are the same line, their segments taken by content.
    pub open spec fn same_as(&self, other: &InlineWrapLine) -> bool {
        &&& self.logical_slices@ == other.logical_slices@
        &&& self.logical_start == other.logical_start
        &&& self.logical_end == other.logical_end
        &&& self.shaped_segments@.len() == other.shaped_segments@.len()
        &&& forall|k: int|
            0 <= k < self.shaped_segments@.len() ==> (#[trigger] self.shaped_segments@[k]).same_as(
                other.shaped_segments@[k],
            )
        &&& self.width == other.width
        &&& self.height == other.height
        &&& self.indent_px == other.indent_px
        &&& self.baseline_above_top == other.baseline_above_top
        &&& self.line_origin == other.line_origin
    }

    /// A copy of this line.
    pub fn duplicate(&self) -> (r: InlineWrapLine)
        ensures
            r.same_as(self),
    {
        let mut segs: Vec<ShapedSegment> = Vec::new();
        let n = self.shaped_segments.len();
        let mut i: usize = 0;
        while i < n
            invariant
                n == self.shaped_segments@.len(),
                i <= n,
                segs@.len() == i,
                forall|k: int| 0 <= k < i ==> (#[trigger] segs@[k]).same_as(self.shaped_segments@[k]),
            decreases n - i,
        {
            segs.push(self.shaped_segments[i].duplicate());
            i = i + 1;
        }
        InlineWrapLine {
            logical_slices: crate::geometry::copy_vec(&self.logical_slices),
            logical_start: self.logical_start,
            logical_end: self.logical_end,
            shaped_segments: segs,
            width: self.width,
            height: self.height,
            indent_px: self.indent_px,
            baseline_above_top: self.baseline_above_top,
            line_origin: self.line_origin,
        }
    }
}

/// The total advance of the first `k` segments.
pub open spec fn widths_before(segs: Seq<ShapedSegment>, k: int) -> int
    decreases k,
{
    if k <= 0 || k > segs.len() {
        0
    } else {
        widths_before(segs, k - 1) + segs[k - 1].spec_width()
    }
}

/// A line of the layout.
#[derive(Clone, Debug, PartialEq, Eq)]
pub struct InlineWrapLine {
    /// The parts of fragments on the line.
    pub logical_slices: Vec<LogicalSlice>,
    /// Logical index of the line's first cell.
    pub logical_start: usize,
    /// Logical index after the line's last cell.
    pub logical_end: usize,
    /// What is painted on the line, left to right.
    pub shaped_segments: Vec<ShapedSegment>,
    /// Advance width of the line, without its indent.
    pub width: Pixels,
    /// Height of the line box.
    pub height: Pixels,
    /// Indent before the first segment.
    pub indent_px: Pixels,
    /// Distance from the top of the line box to the baseline.
    pub baseline_above_top: Pixels,
    /// Top-left corner of the line relative to the span.
    pub line_origin: Point,
}

/// Where the walk for logical index `idx` stops in a segment, as an offset
/// from the segment's left edge, or `None` when the index lies beyond it.
pub open spec fn seg_stop_x(seg: ShapedSegment, idx: int, affinity: CaretAffinity) -> Option<int> {
    match seg {
        ShapedSegment::Text { logical_start, logical_end, shaped, .. } => {
            if idx > logical_end {
                None
            } else if idx < logical_start {
                Some(0)
            } else if idx == logical_end {
                Some(shaped.width as int)
            } else {
                let local_cell = idx - logical_start;
                let n = shaped.text@.len() as int;
                let byte = cell_offset(shaped.text@, if local_cell <= n { local_cell } else { n });
                let byte = if byte <= shaped.len { byte as int } else { shaped.len as int };
                Some(shaped.spec_x_for_index(byte))
            }
        },
        ShapedSegment::Element { logical_start, logical_end, width, .. } => {
            if idx < logical_start {
                Some(0)
            } else if idx >= logical_end {
                None
            } else {
                Some(
                    match affinity {
                        CaretAffinity::Upstream => 0,
                        CaretAffinity::Downstream => width as int,
                    },
                )
            }
        },
    }
}

/// The x position of logical index `idx`, walking the segments from the
/// `k`-th on with the `k`-th starting at `cursor`; `None` if it lies past all.
pub open spec fn x_walk(segs: Seq<ShapedSegment>, idx: int, affinity: CaretAffinity, k: int, cursor: int) -> Option<int>
    decreases segs.len() - k,
{
    if k < 0 || k >= segs.len() {
        None
    } else {
        match seg_stop_x(segs[k], idx, affinity) {
            Some(o) => Some(cursor + o),
            None => x_walk(segs, idx, affinity, k + 1, cursor + segs[k].spec_width()),
        }
    }
}

/// Where the walk for offset `x` stops in a segment starting at `cursor`:
/// the logical index hit, or `None` when `x` lies beyond the segment.
pub open spec fn seg_stop_index(seg: ShapedSegment, x: int, affinity: CaretAffinity, cursor: int) -> Option<int> {
    let seg_end = cursor + seg.spec_width();
    if x > seg_end {
        None
    } else {
        match seg {
            ShapedSegment::Text { logical_start, logical_end, shaped, .. } => {
                let local_x = if x - cursor <= 0 { 0 } else if x - cursor >= shaped.width { shaped.width as int } else { x - cursor };
                let byte = match shaped.spec_index_for_x(local_x) {
                    Some(b) => b as int,
                    None => shaped.len as int,
                };
                let byte = if byte <= shaped.len { byte } else { shaped.len as int };
                let cell = ceil_cell(shaped.text@, byte);
                let idx = logical_start + cell;
                Some(if idx <= logical_end { idx } else { logical_end as int })
            },
            ShapedSegment::Element { logical_start, logical_end, width, .. } => {
                let midpoint = cursor + spec_half(width as int);
                let upstream = if x < midpoint {
                    true
                } else if x > midpoint {
                    false
                } else {
                    affinity == CaretAffinity::Upstream
                };
                Some(if upstream { logical_start as int } else { logical_end as int })
            },
        }
    }
}

/// The logical index at offset `x`, walking the segments from the `k`-th on
/// with the `k`-th starting at `cursor`; `None` if `x` lies past all.
pub open spec fn index_walk(segs: Seq<ShapedSegment>, x: int, affinity: CaretAffinity, k: int, cursor: int) -> Option<int>
    decreases segs.len() - k,
{
    if k < 0 || k >= segs.len() {
        None
    } else {
        match seg_stop_index(segs[k], x, affinity, cursor) {
            Some(i) => Some(i),
            None => index_walk(segs, x, affinity, k + 1, cursor + segs[k].spec_width()),
        }
    }
}

/// The part of a segment selected by the logical range `overlap`, if any.
pub open spec fn seg_selection(seg: ShapedSegment, overlap: (int, int)) -> Option<SelectionSegment> {
    match seg {
        ShapedSegment::Text { fragment_index, logical_start, logical_end, start_in_fragment, shaped, .. } => {
            match spec_intersect(overlap, (logical_start as int, logical_end as int)) {
                Some((s, e)) => {
                    let n = shaped.text@.len() as int;
                    let ls = s - logical_start;
                    let le = e - logical_start;
                    Some(SelectionSegment::Text {
                        fragment_index,
                        logical_range: (s as usize)..(e as usize),
                        start_in_fragment: (start_in_fragment + cell_offset(shaped.text@, if ls <= n { ls } else { n })) as usize,
                        end_in_fragment: (start_in_fragment + cell_offset(shaped.text@, if le <= n { le } else { n })) as usize,
                    })
                },
                None => None,
            }
        },
        ShapedSegment::Element { fragment_index, logical_start, logical_end, .. } => {
            match spec_intersect(overlap, (logical_start as int, logical_end as int)) {
                Some((s, e)) => Some(SelectionSegment::Element {
                    fragment_index,
                    logical_range: (s as usize)..(e as usize),
                }),
                None => None,
            }
        },
    }
}

/// The selected parts of the first `k` segments, in order.
pub open spec fn selection_upto(segs: Seq<ShapedSegment>, overlap: (int, int), k: int) -> Seq<SelectionSegment>
    decreases k,
{
    if k <= 0 || k > segs.len() {
        Seq::empty()
    } else {
        let prev = selection_upto(segs, overlap, k - 1);
        match seg_selection(segs[k - 1], overlap) {
            Some(sel) => prev.push(sel),
            None => prev,
        }
    }
}

/// A selected part of a line.
#[derive(Debug, PartialEq, Eq)]
pub enum SelectionSegment {
    /// Part of a text fragment.
    Text {
        /// The fragment.
        fragment_index: usize,
        /// Logical cells covered on this line.
        logical_range: core::ops::Range<usize>,
        /// First byte covered within the fragment.
        start_in_fragment: usize,
        /// Byte after the covered part within the fragment.
        end_in_fragment: usize,
    },
    /// An inline element.
    Element {
        /// The fragment.
        fragment_index: usize,
        /// The element's logical cell.
        logical_range: core::ops::Range<usize>,
    },
}

impl InlineWrapLine {
    /// The line's segments are consistent and its horizontal extent is
    /// within bounds.
    pub open spec fn geometry_ok(&self) -> bool {
        &&& forall|k: int| 0 <= k < self.shaped_segments@.len() ==> (#[trigger] self.shaped_segments@[k]).wf()
        &&& self.shaped_segments@.len() <= COUNT_LIMIT
        &&& -wide_limit() <= self.line_origin.x <= wide_limit()
        &&& -wide_limit() <= self.width <= wide_limit()
    }

    /// The x position of logical index `idx` on this line: the line start
    /// for an index before the line, the position found by walking the
    /// segments, the line end for the line's end index, `None` otherwise.
    pub open spec fn spec_x_for_index(&self, idx: int, affinity: CaretAffinity) -> Option<int> {
        if idx < self.logical_start {
            Some(self.line_origin.x as int)
        } else {
            match x_walk(self.shaped_segments@, idx, affinity, 0, self.line_origin.x as int) {
                Some(x) => Some(x),
                None => if idx == self.logical_end {
                    Some(self.line_origin.x + self.width)
                } else {
                    None
                },
            }
        }
    }

    /// The logical index at offset `x` on this line: the line start at or
    /// before the line's left edge (or on an empty line), the line end at
    /// or past its right edge, otherwise the index hit by walking the segments.
    pub open spec fn spec_index_for_x(&self, x: int, affinity: CaretAffinity) -> int {
        if x <= self.line_origin.x || self.shaped_segments@.len() == 0 {
            self.logical_start as int
        } else if x >= self.line_origin.x + self.width {
            self.logical_end as int
        } else {
            match index_walk(self.shaped_segments@, x, affinity, 0, self.line_origin.x as int) {
                Some(i) => i,
                None => self.logical_end as int,
            }
        }
    }

    /// The selection of the logical range `[start, end)` on this line: none
    /// for an empty range or one missing the line, else the overlap with the
    /// line's range and the selected part of each segment, none if no segment
    /// is touched.
    pub open spec fn spec_selection(&self, start: int, end: int) -> Option<((int, int), Seq<SelectionSegment>)> {
        if start >= end {
            None
        } else {
            match spec_intersect((start, end), (self.logical_start as int, self.logical_end as int)) {
                None => None,
                Some(overlap) => {
                    let segs = selection_upto(self.shaped_segments@, overlap, self.shaped_segments@.len() as int);
                    if segs.len() == 0 { None } else { Some((overlap, segs)) }
                },
            }
        }
    }

    /// The x position of a logical index on this line.
    pub fn x_for_index(&self, logical_index: usize, affinity: CaretAffinity) -> (r: Option<Pixels>)
        requires
            self.geometry_ok(),
        ensures
            r == match self.spec_x_for_index(logical_index as int, affinity) {
                Some(x) => Some(x as Pixels),
                None => None::<Pixels>,
            },
            r matches Some(x) ==> self.spec_x_for_index(logical_index as int, affinity) == Some(x as int),
    {
        if logical_index < self.logical_start {
            return Some(self.line_origin.x);
        }
        let segs = &self.shaped_segments;
        let n = segs.len();
        let mut cursor = self.line_origin.x;
        let mut k: usize = 0;
        while k < n
            invariant
                self.geometry_ok(),
                segs == self.shaped_segments,
                n == segs@.len(),
                k <= n,
                logical_index >= self.logical_start,
                cursor == self.line_origin.x + widths_before(segs@, k as int),
                0 <= widths_before(segs@, k as int) <= k * PX_LIMIT,
                x_walk(segs@, logical_index as int, affinity, 0, self.line_origin.x as int) == x_walk(
                    segs@,
                    logical_index as int,
                    affinity,
                    k as int,
                    cursor as int,
                ),
            decreases n - k,
        {
            proof {
                assert(k * PX_LIMIT + PX_LIMIT <= COUNT_LIMIT * PX_LIMIT) by (nonlinear_arith)
                    requires k < n, n <= COUNT_LIMIT;
                assert(segs@[k as int].wf());
            }
            match &segs[k] {
                ShapedSegment::Text { logical_start, logical_end, shaped, .. } => {
                    if logical_index > *logical_end {
                        cursor = cursor + shaped.width;
                        k = k + 1;
                        continue;
                    }
                    if logical_index < *logical_start {
                        return Some(cursor);
                    }
                    if logical_index == *logical_end {
                        return Some(cursor + shaped.width);
                    }
                    let local_cell = logical_index - *logical_start;
                    let b = cell_to_byte_offset(shaped.text.as_str(), local_cell);
                    let byte_offset = if b <= shaped.len() { b } else { shaped.len() };
                    let x = shaped.x_for_index(byte_offset);
                    return Some(cursor + x);
                },
                ShapedSegment::Element { logical_start, logical_end, width, .. } => {
                    if logical_index < *logical_start {
                        return Some(cursor);
                    }
                    if logical_index >= *logical_end {
                        cursor = cursor + *width;
                        k = k + 1;
                        continue;
                    }
                    return Some(
                        match affinity {
                            CaretAffinity::Upstream => cursor,
                            CaretAffinity::Downstream => cursor + *width,
                        },
                    );
                },
            }
        }
        if logical_index == self.logical_end {
            return Some(self.line_origin.x + self.width);
        }
        None
    }

    /// The logical index at offset `x` on this line.
    pub fn index_for_x(&self, x: Pixels, affinity: CaretAffinity) -> (r: usize)
        requires
            self.geometry_ok(),
        ensures
            r == self.spec_index_for_x(x as int, affinity),
    {
        if x <= self.line_origin.x || self.shaped_segments.len() == 0 {
            return self.logical_start;
        }
        if x >= self.line_origin.x + self.width {
            return self.logical_end;
        }
        let segs = &self.shaped_segments;
        let n = segs.len();
        let mut cursor = self.line_origin.x;
        let mut k: usize = 0;
        while k < n
            invariant
                self.geometry_ok(),
                segs == self.shaped_segments,
                n == segs@.len(),
                k <= n,
                self.line_origin.x < x < self.line_origin.x + self.width,
                cursor == self.line_origin.x + widths_before(segs@, k as int),
                0 <= widths_before(segs@, k as int) <= k * PX_LIMIT,
                index_walk(segs@, x as int, affinity, 0, self.line_origin.x as int) == index_walk(
                    segs@,
                    x as int,
                    affinity,
                    k as int,
                    cursor as int,
                ),
            decreases n - k,
        {
            proof {
                assert(k * PX_LIMIT + PX_LIMIT <= COUNT_LIMIT * PX_LIMIT) by (nonlinear_arith)
                    requires k < n, n <= COUNT_LIMIT;
                assert(segs@[k as int].wf());
            }
            match &segs[k] {
                ShapedSegment::Text { logical_start, logical_end, shaped, .. } => {
                    let seg_end = cursor + shaped.width;
                    if x > seg_end {
                        cursor = seg_end;
                        k = k + 1;
                        continue;
                    }
                    let d = x - cursor;
                    let local_x = if d <= 0 { 0 } else if d >= shaped.width { shaped.width } else { d };
                    let b = match shaped.index_for_x(local_x) {
                        Some(b) => b,
                        None => shaped.len(),
                    };
                    let byte_offset = if b <= shaped.len() { b } else { shaped.len() };
                    let cell_offset = byte_offset_to_cell_index(shaped.text.as_str(), byte_offset);
                    proof {
                        crate::text::lemma_chars_le_bytes(shaped.text@);
                    }
                    let idx = *logical_start + cell_offset;
                    return if idx <= *logical_end { idx } else { *logical_end };
                },
                ShapedSegment::Element { logical_start, logical_end, width, .. } => {
                    let seg_end = cursor + *width;
                    if x > seg_end {
                        cursor = seg_end;
                        k = k + 1;
                        continue;
                    }
                    let midpoint = cursor + px_half(*width);
                    let choose_upstream = if x < midpoint {
                        true
                    } else if x > midpoint {
                        false
                    } else {
                        affinity == CaretAffinity::Upstream
                    };
                    return if choose_upstream {
                        *logical_start
                    } else {
                        *logical_end
                    };
                },
            }
        }
        self.logical_end
    }

    /// The selection of the logical range `range` on this line: the overlap
    /// with the line's range and the selected part of each segment.
    pub fn selection_segments_for_range(&self, range: core::ops::Range<usize>) -> (r: Option<(core::ops::Range<usize>, Vec<SelectionSegment>)>)
        requires
            self.geometry_ok(),
        ensures
            match self.spec_selection(range.start as int, range.end as int) {
                None => r is None,
                Some((overlap, segs)) => r matches Some((o, v)) && o.start == overlap.0 && o.end
                    == overlap.1 && v@ == segs,
            },
    {
        if range.start >= range.end {
            return None;
        }
        let overlap = match intersect_ranges(range, self.logical_start..self.logical_end) {
            Some(o) => o,
            None => return None,
        };
        let ghost ov = (overlap.start as int, overlap.end as int);
        let segs = &self.shaped_segments;
        let n = segs.len();
        let mut segments: Vec<SelectionSegment> = Vec::new();
        let mut k: usize = 0;
        while k < n
            invariant
                self.geometry_ok(),
                segs == self.shaped_segments,
                n == segs@.len(),
                k <= n,
                ov == (overlap.start as int, overlap.end as int),
                segments@ == selection_upto(segs@, ov, k as int),
            decreases n - k,
        {
            proof {
                assert(segs@[k as int].wf());
            }
            match &segs[k] {
                ShapedSegment::Text { fragment_index, logical_start, logical_end, start_in_fragment, shaped, .. } => {
                    match intersect_ranges(overlap.start..overlap.end, *logical_start..*logical_end) {
                        Some(seg_overlap) => {
                            let local_start = seg_overlap.start - *logical_start;
                            let local_end = seg_overlap.end - *logical_start;
                            let text = shaped.text.as_str();
                            proof {
                                crate::text::lemma_cell_offset_end(shaped.text@);
                                crate::text::lemma_cell_offset_mono(shaped.text@, 0, shaped.text@.len() as int);
                            }
                            let a = cell_to_byte_offset(text, local_start);
                            let b = cell_to_byte_offset(text, local_end);
                            proof {
                                let n2 = shaped.text@.len() as int;
                                crate::text::lemma_cell_offset_mono(shaped.text@, if local_start <= n2 { local_start as int } else { n2 }, n2);
                                crate::text::lemma_cell_offset_mono(shaped.text@, if local_end <= n2 { local_end as int } else { n2 }, n2);
                            }
                            segments.push(
                                SelectionSegment::Text {
                                    fragment_index: *fragment_index,
                                    logical_range: seg_overlap,
                                    start_in_fragment: *start_in_fragment + a,
                                    end_in_fragment: *start_in_fragment + b,
                                },
                            );
                        },
                        None => {},
                    }
                },
                ShapedSegment::Element { fragment_index, logical_start, logical_end, .. } => {
                    match intersect_ranges(overlap.start..overlap.end, *logical_start..*logical_end) {
                        Some(seg_overlap) => {
                            segments.push(
                                SelectionSegment::Element {
                                    fragment_index: *fragment_index,
                                    logical_range: seg_overlap,
                                },
                            );
                        },
                        None => {},
                    }
                },
            }
            k = k + 1;
        }
        if segments.len() == 0 {
            return None;
        }
        Some((overlap, segments))
    }
}


/// Prefix advances of well-formed segments are non-negative, grow, and are
/// bounded by `PX_LIMIT` per segment.
pub proof fn lemma_widths_bounds(segs: Seq<ShapedSegment>, k: int)
    requires
        forall|m: int| 0 <= m < segs.len() ==> (#[trigger] segs[m]).wf(),
        0 <= k <= segs.len(),
    ensures
        0 <= widths_before(segs, k) <= k * PX_LIMIT,
        forall|a: int| 0 <= a <= k ==> widths_before(segs, a) <= widths_before(segs, k),
    decreases k,
{
    if k > 0 {
        lemma_widths_bounds(segs, k - 1);
        assert(segs[k - 1].wf());
        assert((k - 1) * PX_LIMIT + PX_LIMIT == k * PX_LIMIT) by (nonlinear_arith);
    }
}

/// The x offset of a byte in a well-formed shaped line lies within its width.
pub proof fn lemma_glyph_x_bounds(shaped: ShapedLine, index: int, k: int)
    requires
        shaped.wf(),
        0 <= k,
    ensures
        0 <= glyph_x_from(shaped.glyphs@, index, shaped.width as int, k) <= shaped.width,
    decreases shaped.glyphs@.len() - k,
{
    if k < shaped.glyphs@.len() {
        assert(shaped.glyphs@[k].index <= shaped.len);
        lemma_glyph_x_bounds(shaped, index, k + 1);
    }
}

/// Walking the segments from the `k`-th, positioned from `base`, finds an x
/// between `base` and `base` plus the advance of all segments.
pub proof fn lemma_x_walk_bounds(segs: Seq<ShapedSegment>, idx: int, affinity: CaretAffinity, k: int, base: int)
    requires
        forall|m: int| 0 <= m < segs.len() ==> (#[trigger] segs[m]).wf(),
        0 <= k <= segs.len(),
    ensures
        x_walk(segs, idx, affinity, k, base + widths_before(segs, k)) matches Some(x) ==> base <= x <= base
            + widths_before(segs, segs.len() as int),
    decreases segs.len() - k,
{
    lemma_widths_bounds(segs, segs.len() as int);
    if k < segs.len() {
        lemma_x_walk_bounds(segs, idx, affinity, k + 1, base);
        lemma_widths_bounds(segs, k + 1);
        lemma_widths_bounds(segs, k);
        assert(segs[k].wf());
        assert(widths_before(segs, k + 1) == widths_before(segs, k) + segs[k].spec_width());
        assert(widths_before(segs, k + 1) <= widths_before(segs, segs.len() as int));
        let cursor = base + widths_before(segs, k);
        assert(x_walk(segs, idx, affinity, k, cursor) == match seg_stop_x(segs[k], idx, affinity) {
            Some(o) => Some(cursor + o),
            None => x_walk(segs, idx, affinity, k + 1, cursor + segs[k].spec_width()),
        });
        match segs[k] {
            ShapedSegment::Text { shaped, .. } => {
                let local_cell = idx - segs[k].spec_logical_start();
                let n = shaped.text@.len() as int;
                let byte = cell_offset(shaped.text@, if local_cell <= n { local_cell } else { n });
                let byte = if byte <= shaped.len { byte as int } else { shaped.len as int };
                lemma_glyph_x_bounds(shaped, byte, 0);
            },
            ShapedSegment::Element { .. } => {},
        }
    }
}

} // verus!
