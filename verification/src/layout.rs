use vstd::prelude::*;
use crate::geometry::{Pixels, Point, Size, Bounds, AvailableSize, AvailableSpace, KnownSize, PX_LIMIT, COUNT_LIMIT, px_ok, extent_ok, px_max};
use crate::style::{TextStyle, Hsla, AbsoluteLength, WhiteSpace};
use crate::content::{InlineContent, InlineFragment, InlineElementSlot, InlineElementContext, InlineElementSpec, InlineElementInstance, InlineElementAlign, aligned_baseline};
use crate::slices::{InlineFragmentLayout, content_fits, FragmentLogicalRange, TextFragmentCells, LineFragment, ranges_match, build_line_fragments, total_byte_len, compute_logical_slices_for_line, line_fragment_of, line_bytes_before, bytes_before, total_bytes};
use crate::host::{LayoutHost, Boundary, boundaries_wf};
use crate::wrap_line::InlineWrapLine;
use crate::geometry::{wide_limit, tall_limit};
use crate::forming::{keeps_effective, line_formed, lemma_effective_refl, lemma_effective_trans, lemma_formed_push, auto_baselined, lemma_baselined_push, baselines_recorded, lemma_recorded_baselines};
use crate::line_build::{layouts_in_bounds, styles_in_bounds, build_line, lemma_line_slices_wf, same_kinds, slice_productive, line_shaped};
use crate::coverage::{elements_single_cell, lemma_slices_single_cell, slice_single_cell,
    lemma_segments_single_cell, lemma_single_cell_push};
use crate::placement::{elements_placed, elements_before, slice_element_within, lemma_slices_element_within,
    lemma_productive_keeps, lemma_segments_within, lemma_placed_push, keeps_measures, lemma_keeps_trans,
    lemma_keeps_refl, lemma_line_keeps};
use crate::coverage::{lines_follow_breaks, lemma_follow_push};
use crate::coverage::{lines_chain, cell_at, is_content_break, lemma_line_slices_span, lemma_chain_push, lemma_productive_first, lemma_empty_range_slices, lemma_cell_at_ends, lemma_wrapper_break_in_content};
use crate::slices::{total_cells, spec_line_slices, spec_line_fragments};

verus! {

/// A logical range to highlight.
#[derive(Debug, PartialEq, Eq)]
pub struct InlineDecoration {
    /// Logical cells covered.
    pub range: core::ops::Range<usize>,
    /// How to highlight them.
    pub style: InlineDecorationStyle,
}

/// How a decoration is drawn.
#[derive(Clone, Copy, Debug, PartialEq, Eq, Structural)]
pub struct InlineDecorationStyle {
    /// Background color behind the range.
    pub background: Hsla,
}

/// The layout state of an inline span: its lines, the placement of its
/// elements, and what the last layout was computed for.
#[derive(Debug)]
pub struct InlineSpanLayout {
    /// The laid-out lines, top to bottom.
    pub lines: Vec<InlineWrapLine>,
    /// Layout state of each fragment.
    pub fragment_layouts: Vec<InlineFragmentLayout>,
    /// Size of the laid-out content.
    pub measured_size: Size,
    /// Bounds assigned during the last prepaint.
    pub bounds: Option<Bounds>,
    /// Wrap width of the last layout.
    pub last_wrap_width: Option<Pixels>,
    /// Line height hint of the last layout.
    pub last_line_height: Option<Pixels>,
    /// Whether the layout must be recomputed.
    pub dirty: bool,
    /// Ranges highlighted when painting.
    pub decorations: Vec<InlineDecoration>,
    /// Elements measured ahead of wrapping, by fragment.
    pub prepared_elements: Vec<Option<InlineElementInstance>>,
}

/// The context an element is built for: `context` carrying the slot's alignment.
pub open spec fn spec_build_context(context: InlineElementContext, align: InlineElementAlign) -> InlineElementContext {
    InlineElementContext { alignment: align, ..context }
}

/// Room to lay an element out at its content size.
pub open spec fn content_space() -> AvailableSize {
    AvailableSize { width: AvailableSpace::MaxContent, height: AvailableSpace::MaxContent }
}

/// The context the elements of `content` are built for: at most
/// `max_width` wide, the line height hint, the content's default font and
/// font size (else the window's), and `Bottom` alignment until the slot's
/// own is put in.
pub open spec fn spec_element_context<E>(
    content: InlineContent<E>,
    hint: Pixels,
    max_width: Option<Pixels>,
    window_style: TextStyle,
    rem_size: int,
) -> InlineElementContext {
    InlineElementContext {
        max_width,
        line_height: hint,
        font: match content.spec_resolved_style() {
            Some(s) => s.spec_font(),
            None => window_style.spec_font(),
        },
        font_size: spec_base_font_size(content, window_style, rem_size) as Pixels,
        alignment: InlineElementAlign::Bottom,
    }
}

/// `context` carrying the slot's alignment.
pub fn build_context(context: InlineElementContext, align: InlineElementAlign) -> (r: InlineElementContext)
    ensures
        r == spec_build_context(context, align),
{
    InlineElementContext { alignment: align, ..context }
}

/// Room to lay an element out at its content size.
pub fn max_content_space() -> (r: AvailableSize)
    ensures
        r == content_space(),
{
    AvailableSize { width: AvailableSpace::MaxContent, height: AvailableSpace::MaxContent }
}

/// The context the elements of `content` are built for.
pub fn element_context<E>(
    content: &InlineContent<E>,
    hint: Pixels,
    max_width: Option<Pixels>,
    window_style: &TextStyle,
    rem_size: Pixels,
) -> (r: InlineElementContext)
    requires
        styles_in_bounds(*content, *window_style),
        extent_ok(rem_size as int),
    ensures
        r == spec_element_context(*content, hint, max_width, *window_style, rem_size as int),
{
    proof {
        crate::content::lemma_first_text_style_in_bounds(content.fragments@);
    }
    InlineElementContext {
        max_width,
        line_height: hint,
        font: content.default_font_or(window_style.font()),
        font_size: content.default_font_size_or(window_style.font_size.to_pixels(rem_size), rem_size),
        alignment: InlineElementAlign::Bottom,
    }
}

impl<E> InlineElementSlot<E> {
    /// Builds and measures the slot's element: the host lays it out for the
    /// context carrying the slot's alignment, at its content size, and the
    /// spec records that size with the slot's alignment.
    pub fn build<H: LayoutHost<E>>(&self, host: &mut H, context: InlineElementContext) -> (r: InlineElementSpec)
        ensures
            H::measures(old(host).model(), self.element, spec_build_context(context, self.align), content_space(), r.premeasured_size),
            final(host).model() == old(host).model(),
            r.align == self.align,
            r.premeasured_size.is_extent(),
            r.baseline_offset == aligned_baseline(self.align, r.premeasured_size.height as int, None),
            r.requested_space == (AvailableSize {
                width: AvailableSpace::MaxContent,
                height: AvailableSpace::Definite(r.premeasured_size.height),
            }),
            !r.constrain_width,
    {
        let context = build_context(context, self.align);
        let space = max_content_space();
        let size = host.layout_element(&self.element, &context, space);
        InlineElementSpec::from_measured_element(size, self.align)
    }
}

/// The instance measured ahead for `slot` was measured by the host in
/// `context` with the slot's alignment: first at its content size, then in
/// the space that measurement asks for, which gave its size; its baseline
/// offset is the one the alignment gives for the first measurement.
pub open spec fn prepared_measured<E, H: LayoutHost<E>>(
    model: H::Model,
    slot: InlineElementSlot<E>,
    inst: InlineElementInstance,
    context: InlineElementContext,
) -> bool {
    let c = spec_build_context(context, slot.align);
    exists|first: Size|
        #[trigger] H::measures(model, slot.element, c, content_space(), first) && H::measures(
            model,
            slot.element,
            c,
            AvailableSize { width: AvailableSpace::MaxContent, height: AvailableSpace::Definite(first.height) },
            inst.size,
        ) && inst.baseline_offset == aligned_baseline(slot.align, first.height as int, None)
}

/// An element measured ahead of wrapping with alignment `align`: it carries
/// that alignment, sits unplaced at the origin in its measured size, and has
/// the baseline offset the alignment gives for some measured height (none
/// for `Auto`).
pub open spec fn prepared_instance(align: InlineElementAlign, inst: InlineElementInstance) -> bool {
    &&& inst.align == align
    &&& inst.in_bounds()
    &&& inst.bounds.origin == (Point { x: 0, y: 0 })
    &&& inst.bounds.size == inst.size
    &&& exists|h: int| extent_ok(h) && #[trigger] aligned_baseline(align, h, None) == inst.baseline_offset
}

impl InlineSpanLayout {
    /// A layout that has not been computed yet: no lines, no decorations,
    /// nothing measured, and marked for computation.
    pub open spec fn is_fresh(&self) -> bool {
        &&& self.lines@.len() == 0
        &&& self.fragment_layouts@.len() == 0
        &&& self.measured_size == (Size { width: 0, height: 0 })
        &&& self.bounds is None
        &&& self.last_wrap_width is None
        &&& self.last_line_height is None
        &&& self.dirty
        &&& self.decorations@.len() == 0
        &&& self.prepared_elements@.len() == 0
    }

    /// A layout that has not been computed yet.
    pub fn default() -> (r: InlineSpanLayout)
        ensures
            r.is_fresh(),
            r.wf(),
    {
        InlineSpanLayout {
            lines: Vec::new(),
            fragment_layouts: Vec::new(),
            measured_size: Size { width: 0, height: 0 },
            bounds: None,
            last_wrap_width: None,
            last_line_height: None,
            dirty: true,
            decorations: Vec::new(),
            prepared_elements: Vec::new(),
        }
    }

    /// Marks the layout for recomputation and drops the elements measured ahead.
    pub fn mark_dirty(&mut self)
        ensures
            final(self).dirty,
            final(self).prepared_elements@.len() == 0,
            old(self).wf() ==> final(self).wf(),
            final(self).lines == old(self).lines,
            final(self).fragment_layouts == old(self).fragment_layouts,
            final(self).measured_size == old(self).measured_size,
            final(self).bounds == old(self).bounds,
            final(self).last_wrap_width == old(self).last_wrap_width,
            final(self).last_line_height == old(self).last_line_height,
            final(self).decorations == old(self).decorations,
    {
        self.dirty = true;
        self.prepared_elements = Vec::new();
    }

    /// Replaces the decorations.
    pub fn set_decorations(&mut self, decorations: Vec<InlineDecoration>)
        ensures
            final(self).decorations == decorations,
            old(self).wf() ==> final(self).wf(),
            final(self).lines == old(self).lines,
            final(self).fragment_layouts == old(self).fragment_layouts,
            final(self).measured_size == old(self).measured_size,
            final(self).bounds == old(self).bounds,
            final(self).last_wrap_width == old(self).last_wrap_width,
            final(self).last_line_height == old(self).last_line_height,
            final(self).dirty == old(self).dirty,
            final(self).prepared_elements == old(self).prepared_elements,
    {
        self.decorations = decorations;
    }

    /// The bounds assigned during the last prepaint.
    pub fn bounds(&self) -> (r: Option<Bounds>)
        ensures
            r == self.bounds,
    {
        self.bounds
    }

    /// Measures every element of the content ahead of wrapping: each is built
    /// with the content's default font and size and the line height hint,
    /// then laid out in the space its spec requests.
    pub fn prepare_inline_elements<E, H: LayoutHost<E>>(
        &mut self,
        content: &InlineContent<E>,
        line_height_hint: Pixels,
        host: &mut H,
        window_style: &TextStyle,
        rem_size: Pixels,
    )
        requires
            styles_in_bounds(*content, *window_style),
            extent_ok(rem_size as int),
        ensures
            old(self).wf() ==> final(self).wf(),
            final(self).prepared_elements@.len() == content.fragments@.len(),
            forall|i: int|
                0 <= i < content.fragments@.len() ==> match #[trigger] content.fragments@[i] {
                    InlineFragment::Text { .. } => final(self).prepared_elements@[i] is None,
                    InlineFragment::Element { slot } => final(self).prepared_elements@[i] matches Some(inst)
                        && prepared_instance(slot.align, inst) && prepared_measured::<E, H>(
                        old(host).model(),
                        slot,
                        inst,
                        spec_element_context(*content, line_height_hint, None, *window_style, rem_size as int),
                    ),
                },
            final(host).model() == old(host).model(),
            final(self).lines == old(self).lines,
            final(self).fragment_layouts == old(self).fragment_layouts,
            final(self).measured_size == old(self).measured_size,
            final(self).bounds == old(self).bounds,
            final(self).last_wrap_width == old(self).last_wrap_width,
            final(self).last_line_height == old(self).last_line_height,
            final(self).dirty == old(self).dirty,
            final(self).decorations == old(self).decorations,
    {
        proof {
            crate::content::lemma_first_text_style_in_bounds(content.fragments@);
        }
        let ghost model0 = host.model();
        let n = content.fragments.len();
        let mut prepared: Vec<Option<InlineElementInstance>> = Vec::new();
        let mut index: usize = 0;
        while index < n
            invariant
                host.model() == model0,
                n == content.fragments@.len(),
                styles_in_bounds(*content, *window_style),
                content.spec_resolved_style() matches Some(s) ==> s.in_bounds(),
                extent_ok(rem_size as int),
                index <= n,
                prepared@.len() == index,
                forall|i: int|
                    0 <= i < index ==> match #[trigger] content.fragments@[i] {
                        InlineFragment::Text { .. } => prepared@[i] is None,
                        InlineFragment::Element { slot } => prepared@[i] matches Some(inst)
                            && prepared_instance(slot.align, inst) && prepared_measured::<E, H>(
                            model0,
                            slot,
                            inst,
                            spec_element_context(*content, line_height_hint, None, *window_style, rem_size as int),
                        ),
                    },
            decreases n - index,
        {
            match &content.fragments[index] {
                InlineFragment::Text { .. } => {
                    prepared.push(None);
                },
                InlineFragment::Element { slot } => {
                    let context = element_context(content, line_height_hint, None, window_style, rem_size);
                    let mut spec = slot.build(host, context);
                    let measure_context = build_context(
                        element_context(content, line_height_hint, None, window_style, rem_size),
                        slot.align,
                    );
                    let ghost first = spec.premeasured_size;
                    let ghost first_height = spec.premeasured_size.height as int;
                    let measured_size = host.layout_element(&slot.element, &measure_context, spec.requested_space);
                    spec.premeasured_size = measured_size;
                    proof {
                        assert(aligned_baseline(slot.align, first_height, None) == spec.baseline_offset);
                        assert(H::measures(model0, slot.element, measure_context, content_space(), first));
                    }
                    let instance = InlineElementInstance::new(spec);
                    prepared.push(Some(instance));
                },
            }
            index = index + 1;
        }
        proof {
            assert forall|i: int| 0 <= i < prepared@.len() implies (#[trigger] prepared@[i] matches Some(inst)
                ==> inst.in_bounds()) by {
                match content.fragments@[i] {
                    InlineFragment::Text { .. } => {
                        assert(prepared@[i] is None);
                    },
                    InlineFragment::Element { slot } => {
                        assert(prepared@[i] matches Some(inst) && inst.in_bounds());
                    },
                }
            }
        }
        self.prepared_elements = prepared;
    }
}


/// The total height of the first `j` lines.
pub open spec fn heights_before(lines: Seq<InlineWrapLine>, j: int) -> int
    decreases j,
{
    if j <= 0 || j > lines.len() {
        0
    } else {
        heights_before(lines, j - 1) + lines[j - 1].height
    }
}

/// The widest extent (indent plus width) among the first `j` lines, or zero.
pub open spec fn max_extent_upto(lines: Seq<InlineWrapLine>, j: int) -> int
    decreases j,
{
    if j <= 0 || j > lines.len() {
        0
    } else {
        crate::geometry::spec_px_max(max_extent_upto(lines, j - 1), lines[j - 1].indent_px + lines[j - 1].width)
    }
}

/// The lines are stacked: each starts where the lines above it end, and
/// each is within bounds.
pub open spec fn lines_stacked(lines: Seq<InlineWrapLine>) -> bool {
    &&& lines.len() <= COUNT_LIMIT
    &&& forall|j: int|
        0 <= j < lines.len() ==> (#[trigger] lines[j]).geometry_ok() && lines[j].box_ok()
            && lines[j].line_origin.y == heights_before(lines, j)
            && lines[j].indent_px == lines[j].line_origin.x
}

/// Appending a line leaves the sums over the earlier ones as they were.
pub proof fn lemma_lines_prefix(lines: Seq<InlineWrapLine>, x: InlineWrapLine, j: int)
    requires
        0 <= j <= lines.len(),
    ensures
        heights_before(lines.push(x), j) == heights_before(lines, j),
        max_extent_upto(lines.push(x), j) == max_extent_upto(lines, j),
    decreases j,
{
    if j > 0 {
        lemma_lines_prefix(lines, x, j - 1);
        assert(lines.push(x)[j - 1] == lines[j - 1]);
    }
}

/// The slices of a line between the start of the content or a break and a
/// later position run from the logical index at the one to that at the
/// other, and put something on the line.
proof fn lay_out_line_step<E>(
    fs: Seq<InlineFragment<E>>,
    layouts0: Seq<InlineFragmentLayout>,
    layouts: Seq<InlineFragmentLayout>,
    slices: Seq<crate::slices::LogicalSlice>,
    bs: int,
    be: int,
)
    requires
        content_fits(fs),
        0 <= bs < be <= total_bytes(fs),
        bs == 0 || is_content_break(fs, bs),
        slices == spec_line_slices(fs, bs, be, fs.len() as int),
        layouts0.len() == fs.len(),
        forall|i: int| 0 <= i < fs.len() ==> (#[trigger] fs[i] is Element <==> layouts0[i] is Element),
        same_kinds(layouts0, layouts),
    ensures
        slices.len() > 0,
        slices[0].logical_start == cell_at(fs, bs),
        slices.last().logical_end == cell_at(fs, be),
        cell_at(fs, bs) < cell_at(fs, be),
        crate::line_build::productive_upto(fs, layouts, slices, slices.len() as int).len() > 0,
{
    lemma_line_slices_span(fs, bs, be);
    lemma_line_slices_wf(fs, bs, be, fs.len() as int);
    let fi = slices[0].fragment_index as int;
    assert(fi < fs.len());
    assert(fs[fi] is Element <==> layouts[fi] is Element);
    assert(slice_productive(fs, layouts, slices[0]));
    lemma_productive_first(fs, layouts, slices, slices.len() as int);
}

/// The bytes of the content that line `j` covers: from the break before it
/// (the start for the first line) to the break after it (the end of the
/// content for the last line).
pub open spec fn line_byte_range(bs: Seq<Boundary>, j: int, total: int) -> (int, int) {
    (if j == 0 { 0 } else { bs[j - 1].ix as int }, if j < bs.len() { bs[j].ix as int } else { total })
}

/// Each line holds the slices of the content bytes between its breaks.
#[verifier::opaque]
pub open spec fn lines_sliced<E>(lines: Seq<InlineWrapLine>, fs: Seq<InlineFragment<E>>, bs: Seq<Boundary>) -> bool {
    forall|j: int|
        0 <= j < lines.len() ==> (#[trigger] lines[j]).logical_slices@ == spec_line_slices(
            fs,
            line_byte_range(bs, j, total_bytes(fs) as int).0,
            line_byte_range(bs, j, total_bytes(fs) as int).1,
            fs.len() as int,
        )
}

/// Builds the lines between consecutive boundaries and after the last one,
/// stacking them from the top; returns the lines, the widest extent and the
/// total height.
#[verifier::rlimit(60)]
pub fn lay_out_lines<E, H: LayoutHost<E>>(
    content: &InlineContent<E>,
    fragment_layouts: &mut Vec<InlineFragmentLayout>,
    ranges: &Vec<FragmentLogicalRange>,
    cells: &Vec<Option<TextFragmentCells>>,
    boundaries: &Vec<Boundary>,
    total_len_bytes: usize,
    space_width: Pixels,
    line_height_hint: Pixels,
    host: &mut H,
    window_style: &TextStyle,
    rem_size: Pixels,
) -> (r: (Vec<InlineWrapLine>, Pixels, Pixels))
    requires
        content_fits(content.fragments@),
        ranges_match(content.fragments@, ranges@, cells@),
        styles_in_bounds(*content, *window_style),
        old(fragment_layouts)@.len() == content.fragments@.len(),
        layouts_in_bounds(old(fragment_layouts)@),
        boundaries@.len() < COUNT_LIMIT,
        forall|k: int| 0 <= k < boundaries@.len() ==> (#[trigger] boundaries@[k]).next_indent <= COUNT_LIMIT,
        extent_ok(space_width as int),
        extent_ok(line_height_hint as int),
        extent_ok(rem_size as int),
        total_len_bytes == total_bytes(content.fragments@),
        forall|k: int|
            0 <= k < boundaries@.len() ==> 0 < (#[trigger] boundaries@[k]).ix < total_len_bytes && is_content_break(
                content.fragments@,
                boundaries@[k].ix as int,
            ),
        forall|a: int, b: int| 0 <= a < b < boundaries@.len() ==> boundaries@[a].ix < boundaries@[b].ix,
        forall|i: int|
            0 <= i < content.fragments@.len() ==> (#[trigger] content.fragments@[i] is Element
                <==> old(fragment_layouts)@[i] is Element),
    ensures
        lines_chain(r.0@, total_cells(content.fragments@) as int),
        total_cells(content.fragments@) > 0 ==> r.0@.len() == boundaries@.len() + 1,
        lines_follow_breaks(r.0@, content.fragments@, boundaries@, space_width as int, line_height_hint as int),
        lines_sliced(r.0@, content.fragments@, boundaries@),
        forall|j: int|
            0 <= j < r.0@.len() ==> line_shaped::<E, H>(
                old(host).model(),
                *content,
                *window_style,
                rem_size as int,
                #[trigger] r.0@[j],
            ),
        final(host).model() == old(host).model(),
        elements_single_cell(r.0@),
        elements_placed(r.0@, final(fragment_layouts)@),
        keeps_measures(old(fragment_layouts)@, final(fragment_layouts)@),
        keeps_effective(old(fragment_layouts)@, final(fragment_layouts)@, line_height_hint as int),
        auto_baselined(r.0@, final(fragment_layouts)@),
        forall|j: int|
            0 <= j < r.0@.len() ==> line_formed(
                content.fragments@,
                final(fragment_layouts)@,
                #[trigger] r.0@[j],
                line_height_hint as int,
            ),
        lines_stacked(r.0@),
        r.1 == max_extent_upto(r.0@, r.0@.len() as int),
        r.2 == heights_before(r.0@, r.0@.len() as int),
        final(fragment_layouts)@.len() == content.fragments@.len(),
        layouts_in_bounds(final(fragment_layouts)@),
        same_kinds(old(fragment_layouts)@, final(fragment_layouts)@),
{
    let ghost model0 = host.model();
    let ghost fs = content.fragments@;
    let ghost layouts0 = fragment_layouts@;
    let mut lines: Vec<InlineWrapLine> = Vec::new();
    let mut current_y: Pixels = 0;
    let mut max_width: Pixels = 0;
    let mut prev_ix: usize = 0;
    let mut pending_indent: usize = 0;
    let nb = boundaries.len();
    let mut b: usize = 0;
    proof {
        lemma_cell_at_ends(fs);
        lemma_keeps_refl(layouts0);
        lemma_effective_refl(layouts0, line_height_hint as int);
        reveal(lines_sliced);
    }
    while b < nb
        invariant
            fs == content.fragments@,
            content_fits(fs),
            ranges_match(fs, ranges@, cells@),
            styles_in_bounds(*content, *window_style),
            fragment_layouts@.len() == fs.len(),
            layouts_in_bounds(fragment_layouts@),
            same_kinds(layouts0, fragment_layouts@),
            nb == boundaries@.len(),
            nb < COUNT_LIMIT,
            forall|k: int| 0 <= k < boundaries@.len() ==> (#[trigger] boundaries@[k]).next_indent <= COUNT_LIMIT,
            extent_ok(space_width as int),
            extent_ok(line_height_hint as int),
            extent_ok(rem_size as int),
            b <= nb,
            lines@.len() == b,
            pending_indent <= COUNT_LIMIT,
            total_len_bytes == total_bytes(fs),
            forall|k: int|
                0 <= k < boundaries@.len() ==> 0 < (#[trigger] boundaries@[k]).ix < total_len_bytes
                    && is_content_break(fs, boundaries@[k].ix as int),
            forall|a: int, c: int| 0 <= a < c < boundaries@.len() ==> boundaries@[a].ix < boundaries@[c].ix,
            forall|i: int| 0 <= i < fs.len() ==> (#[trigger] fs[i] is Element <==> layouts0[i] is Element),
            b == 0 ==> prev_ix == 0,
            b > 0 ==> prev_ix == boundaries@[b - 1].ix,
            lines_chain(lines@, cell_at(fs, prev_ix as int) as int),
            lines_follow_breaks(lines@, fs, boundaries@, space_width as int, line_height_hint as int),
            lines_sliced(lines@, fs, boundaries@),
            forall|j: int|
                0 <= j < lines@.len() ==> line_shaped::<E, H>(model0, *content, *window_style, rem_size as int, #[trigger] lines@[j]),
            host.model() == model0,
            b == 0 ==> pending_indent == 0,
            b > 0 ==> pending_indent == boundaries@[b - 1].next_indent,
            elements_single_cell(lines@),
            elements_placed(lines@, fragment_layouts@),
            keeps_measures(layouts0, fragment_layouts@),
            keeps_effective(layouts0, fragment_layouts@, line_height_hint as int),
            auto_baselined(lines@, fragment_layouts@),
            forall|j: int|
                0 <= j < lines@.len() ==> line_formed(fs, fragment_layouts@, #[trigger] lines@[j], line_height_hint as int),
            elements_before(lines@, fs, fs.len() as int, prev_ix as int),
            lines_stacked(lines@),
            current_y == heights_before(lines@, lines@.len() as int),
            0 <= current_y <= lines@.len() * (4 * PX_LIMIT),
            max_width == max_extent_upto(lines@, lines@.len() as int),
            0 <= max_width <= 2 * wide_limit(),
        decreases nb - b,
    {
        let boundary = boundaries[b];
        let slices = compute_logical_slices_for_line(prev_ix, boundary.ix, content, ranges, cells);
        proof {
            lemma_line_slices_wf(fs, prev_ix as int, boundary.ix as int, fs.len() as int);
            lay_out_line_step(fs, layouts0, fragment_layouts@, slices@, prev_ix as int, boundary.ix as int);
            lemma_slices_single_cell(fs, prev_ix as int, boundary.ix as int, fs.len() as int);
            lemma_slices_element_within(fs, prev_ix as int, boundary.ix as int, fs.len() as int);
            assert(lines@.len() * (4 * PX_LIMIT) <= tall_limit()) by (nonlinear_arith)
                requires lines@.len() <= COUNT_LIMIT;
        }
        let ghost pre = fragment_layouts@;
        let ghost sl = slices@;
        let built = build_line(
            slices,
            pending_indent,
            space_width,
            content,
            fragment_layouts,
            host,
            line_height_hint,
            current_y,
            window_style,
            rem_size,
        );
        match built {
            Some(line) => {
                proof {
                    lemma_lines_prefix(lines@, line, lines@.len() as int);
                    assert((lines@.len() + 1) * (4 * PX_LIMIT) == lines@.len() * (4 * PX_LIMIT) + 4 * PX_LIMIT) by (nonlinear_arith);
                }
                let ghost old_prev = prev_ix;
                max_width = px_max(max_width, line.indent_px + line.width);
                current_y = current_y + line.height;
                prev_ix = boundary.ix;
                pending_indent = boundary.next_indent as usize;
                let ghost before = lines@;
                lines.push(line);
                proof {
                    lemma_chain_push(before, line, cell_at(fs, old_prev as int) as int, cell_at(fs, prev_ix as int) as int);
                    lemma_follow_push(before, line, fs, boundaries@, space_width as int, line_height_hint as int);
                    reveal(lines_sliced);
                    assert forall|j: int| 0 <= j < lines@.len() implies (#[trigger] lines@[j]).logical_slices@
                        == spec_line_slices(
                        fs,
                        line_byte_range(boundaries@, j, total_bytes(fs) as int).0,
                        line_byte_range(boundaries@, j, total_bytes(fs) as int).1,
                        fs.len() as int,
                    ) by {
                        if j < before.len() {
                            assert(lines@[j] == before[j]);
                        } else {
                            assert(lines@[j] == line);
                        }
                    }
                    let prod = crate::line_build::productive_upto(fs, pre, sl, sl.len() as int);
                    lemma_productive_keeps(fs, pre, sl, sl.len() as int, |s: crate::slices::LogicalSlice| slice_single_cell(fs, s));
                    lemma_segments_single_cell(fs, pre, prod, line.shaped_segments@);
                    lemma_single_cell_push(before, line);
                    lemma_productive_keeps(
                        fs,
                        pre,
                        sl,
                        sl.len() as int,
                        |s: crate::slices::LogicalSlice| slice_element_within(fs, s, old_prev as int, prev_ix as int),
                    );
                    lemma_segments_within(fs, pre, prod, line.shaped_segments@, old_prev as int, prev_ix as int);
                    lemma_placed_push(fs, before, line, pre, fragment_layouts@, line_height_hint as int, old_prev as int, prev_ix as int);
                    lemma_line_keeps(pre, fragment_layouts@, line, line_height_hint as int);
                    lemma_keeps_trans(layouts0, pre, fragment_layouts@);
                    assert(line_formed(fs, pre, line, line_height_hint as int));
                    lemma_formed_push(fs, before, line, pre, fragment_layouts@, line_height_hint as int);
                    lemma_baselined_push(fs, before, line, pre, fragment_layouts@, line_height_hint as int);
                    lemma_effective_trans(layouts0, pre, fragment_layouts@, line_height_hint as int);
                    assert forall|j: int| 0 <= j < lines@.len() implies (#[trigger] lines@[j]).geometry_ok()
                        && lines@[j].box_ok() && lines@[j].line_origin.y == heights_before(lines@, j)
                        && lines@[j].indent_px == lines@[j].line_origin.x by {
                        if j < before.len() {
                            assert(lines@[j] == before[j]);
                            lemma_lines_prefix(before, line, j);
                        } else {
                            assert(lines@ == before.push(line));
                            assert(lines@[j] == line);
                            assert(line.geometry_ok());
                            assert(line.box_ok());
                            assert(line.indent_px == line.line_origin.x);
                            assert(heights_before(lines@, j) == heights_before(before, j));
                            assert(line.line_origin.y == heights_before(before, j));
                        }
                    }
                }
            },
            None => {
                proof {
                    assert(false);
                }
                pending_indent = boundary.next_indent as usize;
                prev_ix = boundary.ix;
            },
        }
        b = b + 1;
    }
    let trailing = compute_logical_slices_for_line(prev_ix, total_len_bytes, content, ranges, cells);
    proof {
        lemma_line_slices_wf(fs, prev_ix as int, total_len_bytes as int, fs.len() as int);
        lemma_cell_at_ends(fs);
        lemma_slices_single_cell(fs, prev_ix as int, total_len_bytes as int, fs.len() as int);
        lemma_slices_element_within(fs, prev_ix as int, total_len_bytes as int, fs.len() as int);
        if prev_ix < total_len_bytes {
            lay_out_line_step(fs, layouts0, fragment_layouts@, trailing@, prev_ix as int, total_len_bytes as int);
        } else {
            lemma_empty_range_slices(fs, prev_ix as int, fs.len() as int);
            assert(b == 0);
        }
        assert(lines@.len() * (4 * PX_LIMIT) <= tall_limit()) by (nonlinear_arith)
            requires lines@.len() <= COUNT_LIMIT;
    }
    let ghost pre = fragment_layouts@;
    let ghost sl = trailing@;
    let built = build_line(
        trailing,
        pending_indent,
        space_width,
        content,
        fragment_layouts,
        host,
        line_height_hint,
        current_y,
        window_style,
        rem_size,
    );
    match built {
        Some(line) => {
            proof {
                lemma_lines_prefix(lines@, line, lines@.len() as int);
            }
            max_width = px_max(max_width, line.indent_px + line.width);
            current_y = current_y + line.height;
            let ghost before = lines@;
            lines.push(line);
            proof {
                lemma_chain_push(before, line, cell_at(fs, prev_ix as int) as int, cell_at(fs, total_len_bytes as int) as int);
                lemma_follow_push(before, line, fs, boundaries@, space_width as int, line_height_hint as int);
                reveal(lines_sliced);
                assert forall|j: int| 0 <= j < lines@.len() implies (#[trigger] lines@[j]).logical_slices@
                    == spec_line_slices(
                    fs,
                    line_byte_range(boundaries@, j, total_bytes(fs) as int).0,
                    line_byte_range(boundaries@, j, total_bytes(fs) as int).1,
                    fs.len() as int,
                ) by {
                    if j < before.len() {
                        assert(lines@[j] == before[j]);
                    } else {
                        assert(lines@[j] == line);
                    }
                }
                let prod = crate::line_build::productive_upto(fs, pre, sl, sl.len() as int);
                lemma_productive_keeps(fs, pre, sl, sl.len() as int, |s: crate::slices::LogicalSlice| slice_single_cell(fs, s));
                lemma_segments_single_cell(fs, pre, prod, line.shaped_segments@);
                lemma_single_cell_push(before, line);
                lemma_productive_keeps(
                    fs,
                    pre,
                    sl,
                    sl.len() as int,
                    |s: crate::slices::LogicalSlice| slice_element_within(fs, s, prev_ix as int, total_len_bytes as int),
                );
                lemma_segments_within(fs, pre, prod, line.shaped_segments@, prev_ix as int, total_len_bytes as int);
                lemma_placed_push(fs, before, line, pre, fragment_layouts@, line_height_hint as int, prev_ix as int, total_len_bytes as int);
                lemma_line_keeps(pre, fragment_layouts@, line, line_height_hint as int);
                lemma_keeps_trans(layouts0, pre, fragment_layouts@);
                assert(line_formed(fs, pre, line, line_height_hint as int));
                lemma_formed_push(fs, before, line, pre, fragment_layouts@, line_height_hint as int);
                lemma_baselined_push(fs, before, line, pre, fragment_layouts@, line_height_hint as int);
                lemma_effective_trans(layouts0, pre, fragment_layouts@, line_height_hint as int);
                assert forall|j: int| 0 <= j < lines@.len() implies (#[trigger] lines@[j]).geometry_ok()
                    && lines@[j].box_ok() && lines@[j].line_origin.y == heights_before(lines@, j)
                    && lines@[j].indent_px == lines@[j].line_origin.x by {
                    if j < before.len() {
                        assert(lines@[j] == before[j]);
                        lemma_lines_prefix(before, line, j);
                    } else {
                        assert(lines@ == before.push(line));
                        assert(lines@[j] == line);
                    }
                }
            }
        },
        None => {},
    }
    (lines, max_width, current_y)
}


/// Every element measured ahead of wrapping is within bounds.
pub open spec fn prepared_in_bounds(p: Seq<Option<InlineElementInstance>>) -> bool {
    forall|i: int| 0 <= i < p.len() ==> (#[trigger] p[i] matches Some(inst) ==> inst.in_bounds())
}

impl InlineSpanLayout {
    /// The layout is consistent: its lines are stacked and within bounds,
    /// and its measured elements are within bounds.
    pub open spec fn wf(&self) -> bool {
        &&& lines_stacked(self.lines@)
        &&& layouts_in_bounds(self.fragment_layouts@)
        &&& prepared_in_bounds(self.prepared_elements@)
    }
}

/// The layout of each fragment for wrapping: text stays text; an element
/// takes the instance measured ahead for it, else it is built now.
pub open spec fn resolved_layout<E, H: LayoutHost<E>>(
    model: H::Model,
    f: InlineFragment<E>,
    prepared: Seq<Option<InlineElementInstance>>,
    i: int,
    context: InlineElementContext,
    r: InlineFragmentLayout,
) -> bool {
    match f {
        InlineFragment::Text { .. } => r == InlineFragmentLayout::Text,
        InlineFragment::Element { slot } => if i < prepared.len() && prepared[i] is Some {
            r == InlineFragmentLayout::Element { instance: prepared[i]->0 }
        } else {
            r matches InlineFragmentLayout::Element { instance } && instance.align == slot.align
                && instance.in_bounds() && instance.bounds.origin == (Point { x: 0, y: 0 })
                && instance.bounds.size == instance.size && H::measures(
                model,
                slot.element,
                spec_build_context(context, slot.align),
                content_space(),
                instance.size,
            ) && instance.baseline_offset == aligned_baseline(slot.align, instance.size.height as int, None)
        },
    }
}

/// The fragment layouts for wrapping: elements measured ahead are used as
/// they are; the others are built for `context`.
pub fn resolve_fragment_layouts<E, H: LayoutHost<E>>(
    content: &InlineContent<E>,
    prepared: Vec<Option<InlineElementInstance>>,
    context: &InlineElementContext,
    host: &mut H,
) -> (r: Vec<InlineFragmentLayout>)
    requires
        prepared_in_bounds(prepared@),
    ensures
        r@.len() == content.fragments@.len(),
        forall|i: int|
            0 <= i < content.fragments@.len() ==> resolved_layout::<E, H>(
                old(host).model(),
                #[trigger] content.fragments@[i],
                prepared@,
                i,
                *context,
                r@[i],
            ),
        layouts_in_bounds(r@),
        final(host).model() == old(host).model(),
{
    let ghost model0 = host.model();
    let n = content.fragments.len();
    let mut layouts: Vec<InlineFragmentLayout> = Vec::new();
    let mut index: usize = 0;
    while index < n
        invariant
            host.model() == model0,
            n == content.fragments@.len(),
            prepared_in_bounds(prepared@),
            index <= n,
            layouts@.len() == index,
            forall|i: int|
                0 <= i < index ==> resolved_layout::<E, H>(
                    model0,
                    #[trigger] content.fragments@[i],
                    prepared@,
                    i,
                    *context,
                    layouts@[i],
                ),
            layouts_in_bounds(layouts@),
        decreases n - index,
    {
        match &content.fragments[index] {
            InlineFragment::Text { .. } => {
                layouts.push(InlineFragmentLayout::Text);
            },
            InlineFragment::Element { slot } => {
                let ready = if index < prepared.len() { prepared[index] } else { None };
                let instance = match ready {
                    Some(inst) => inst,
                    None => {
                        let ctx = InlineElementContext {
                            max_width: context.max_width,
                            line_height: context.line_height,
                            font: context.font.duplicate(),
                            font_size: context.font_size,
                            alignment: context.alignment,
                        };
                        let spec = slot.build(host, ctx);
                        InlineElementInstance::new(spec)
                    },
                };
                layouts.push(InlineFragmentLayout::Element { instance });
            },
        }
        index = index + 1;
    }
    layouts
}

/// Line fragments occupy the same bytes as the fragments they stand for.
pub proof fn lemma_line_bytes_match<E>(
    fs: Seq<InlineFragment<E>>,
    layouts: Seq<InlineFragmentLayout>,
    lfs: Seq<LineFragment>,
    i: int,
)
    requires
        lfs.len() == fs.len(),
        layouts.len() == fs.len(),
        forall|k: int| 0 <= k < fs.len() ==> #[trigger] lfs[k] == line_fragment_of(fs[k], layouts[k]),
        0 <= i <= fs.len(),
    ensures
        line_bytes_before(lfs, i) == bytes_before(fs, i),
    decreases i,
{
    if i > 0 {
        lemma_line_bytes_match(fs, layouts, lfs, i - 1);
        assert(lfs[i - 1] == line_fragment_of(fs[i - 1], layouts[i - 1]));
    }
}

/// Strictly increasing boundaries strictly inside `total` bytes number fewer than `total`.
pub proof fn lemma_boundaries_fewer(bs: Seq<Boundary>, fs: Seq<LineFragment>)
    requires
        boundaries_wf(bs, fs),
    ensures
        bs.len() == 0 || bs.len() < line_bytes_before(fs, fs.len() as int),
{
    if bs.len() > 0 {
        assert forall|k: int| 0 <= k < bs.len() implies (#[trigger] bs[k]).ix >= k + 1 by {
            lemma_boundary_at_least(bs, fs, k);
        }
        assert(bs[bs.len() - 1].ix >= bs.len());
    }
}

proof fn lemma_boundary_at_least(bs: Seq<Boundary>, fs: Seq<LineFragment>, k: int)
    requires
        boundaries_wf(bs, fs),
        0 <= k < bs.len(),
    ensures
        bs[k].ix >= k + 1,
    decreases k,
{
    if k > 0 {
        lemma_boundary_at_least(bs, fs, k - 1);
        assert(bs[k - 1].ix < bs[k].ix);
    } else {
        assert(0 < bs[0].ix);
    }
}


/// The elements measured ahead that a layout pass uses: all of them when
/// there is one for each fragment, else none.
pub open spec fn usable_prepared(layout: InlineSpanLayout, n: int) -> Seq<Option<InlineElementInstance>> {
    if layout.prepared_elements@.len() == n { layout.prepared_elements@ } else { Seq::empty() }
}

/// `width` is the advance of a space that the host gives in the font and
/// size of `context`, zero where the font has no space.
pub open spec fn space_advance<E, H: LayoutHost<E>>(model: H::Model, context: InlineElementContext, width: int) -> bool {
    exists|adv: Option<Size>|
        #[trigger] H::advances(model, context.font, context.font_size, ' ', adv) && width == match adv {
            Some(s) => s.width as int,
            None => 0,
        }
}

/// The steps of a layout pass that gave `new`: `resolved` are the fragment
/// layouts it wrapped with (elements measured ahead, or built for
/// `context`), whose measurements and baselines `new` keeps; `bs` are the
/// breaks the host's wrapper gave (none without a wrap width), which the
/// lines follow, each holding the slices of the bytes between its breaks;
/// `space_width` is the host's space advance used for indents. Each `Auto`
/// element on a line records the baseline offset its resolved layout gives:
/// its own, or half its height when that fits `hint`, else its full height.
pub open spec fn pass_steps<E, H: LayoutHost<E>>(
    model: H::Model,
    fs: Seq<InlineFragment<E>>,
    new: InlineSpanLayout,
    prepared: Seq<Option<InlineElementInstance>>,
    context: InlineElementContext,
    wrap_width: Option<Pixels>,
    hint: Pixels,
    resolved: Seq<InlineFragmentLayout>,
    bs: Seq<Boundary>,
    space_width: Pixels,
) -> bool {
    let lines = new.lines@;
    &&& resolved.len() == fs.len()
    &&& forall|i: int| 0 <= i < fs.len() ==> resolved_layout::<E, H>(model, #[trigger] fs[i], prepared, i, context, resolved[i])
    &&& keeps_measures(resolved, new.fragment_layouts@)
    &&& keeps_effective(resolved, new.fragment_layouts@, hint as int)
    &&& match wrap_width {
        None => bs.len() == 0,
        Some(w) => H::wraps(model, spec_line_fragments(fs, resolved), w, context.font, context.font_size, bs),
    }
    &&& extent_ok(space_width as int)
    &&& space_advance::<E, H>(model, context, space_width as int)
    &&& total_cells(fs) > 0 ==> lines.len() == bs.len() + 1
    &&& lines_follow_breaks(lines, fs, bs, space_width as int, hint as int)
    &&& lines_sliced(lines, fs, bs)
    &&& baselines_recorded(lines, resolved, new.fragment_layouts@, hint as int)
}

/// `new` is `old` laid out again for `content`, wrapping at `wrap_width`
/// with line height hint `hint`:
/// - each element measured ahead is used with its measurements, each other
///   element is built by the host for the content's element context;
/// - each text piece on a line is shaped by the host at its fragment's
///   resolved font size and run, and indents use the host's space advance;
/// - the lines break where the host's wrapper says (nowhere without a wrap
///   width), follow those breaks, cover the content's cells in order, are
///   at least `hint` tall, stack, and hold their elements placed, one cell each;
/// - each line is formed from its slices: one segment per slice that puts
///   something on it, its width their advance, its height and baseline from
///   their ascents, descents and aligned heights;
/// - the measured size is the widest line by the total height, and the pass
///   is recorded as done for `wrap_width` and `hint`.
pub open spec fn rewrapped<E, H: LayoutHost<E>>(
    old: InlineSpanLayout,
    new: InlineSpanLayout,
    content: InlineContent<E>,
    wrap_width: Option<Pixels>,
    hint: Pixels,
    window_style: TextStyle,
    rem_size: int,
    model: H::Model,
) -> bool {
    let fs = content.fragments@;
    let lines = new.lines@;
    let context = spec_element_context(content, hint, wrap_width, window_style, rem_size);
    let prepared = usable_prepared(old, fs.len() as int);
    &&& new.wf()
    &&& lines_chain(lines, total_cells(fs) as int)
    &&& wrap_width is None && total_cells(fs) > 0 ==> lines.len() == 1
    &&& elements_single_cell(lines)
    &&& elements_placed(lines, new.fragment_layouts@)
    &&& new.fragment_layouts@.len() == fs.len()
    &&& forall|i: int| 0 <= i < fs.len() ==> (#[trigger] fs[i] is Element <==> new.fragment_layouts@[i] is Element)
    &&& exists|resolved: Seq<InlineFragmentLayout>, bs: Seq<Boundary>, space_width: Pixels|
        #[trigger] pass_steps::<E, H>(model, fs, new, prepared, context, wrap_width, hint, resolved, bs, space_width)
    &&& forall|j: int|
        0 <= j < lines.len() ==> line_shaped::<E, H>(model, content, window_style, rem_size, #[trigger] lines[j])
    &&& forall|j: int|
        0 <= j < lines.len() ==> line_formed(fs, new.fragment_layouts@, #[trigger] lines[j], hint as int)
    &&& new.measured_size == (Size {
        width: max_extent_upto(lines, lines.len() as int) as Pixels,
        height: heights_before(lines, lines.len() as int) as Pixels,
    })
    &&& new.bounds is None
    &&& new.last_wrap_width == wrap_width
    &&& new.last_line_height == Some(hint)
    &&& !new.dirty
    &&& new.decorations == old.decorations
    &&& old.prepared_elements@.len() == fs.len() ==> new.prepared_elements@.len() == 0
    &&& old.prepared_elements@.len() != fs.len() ==> new.prepared_elements == old.prepared_elements
}

impl InlineSpanLayout {
    /// Lays the content out again: measures the elements not measured ahead,
    /// wraps at `wrap_width` (not at all without one), builds and stacks the
    /// lines, and records what the layout was computed for.
    pub fn rewrap_and_shape<E, H: LayoutHost<E>>(
        &mut self,
        content: &InlineContent<E>,
        wrap_width: Option<Pixels>,
        line_height_hint: Pixels,
        host: &mut H,
        window_style: &TextStyle,
        rem_size: Pixels,
    )
        requires
            old(self).wf(),
            content_fits(content.fragments@),
            styles_in_bounds(*content, *window_style),
            extent_ok(line_height_hint as int),
            extent_ok(rem_size as int),
        ensures
            rewrapped::<E, H>(
                *old(self),
                *final(self),
                *content,
                wrap_width,
                line_height_hint,
                *window_style,
                rem_size as int,
                old(host).model(),
            ),
            final(host).model() == old(host).model(),
    {
        let ghost model0 = host.model();
        proof {
            crate::content::lemma_first_text_style_in_bounds(content.fragments@);
        }
        let context = element_context(content, line_height_hint, wrap_width, window_style, rem_size);
        let n = content.fragments.len();
        let mut prepared: Vec<Option<InlineElementInstance>> = Vec::new();
        if self.prepared_elements.len() == n {
            core::mem::swap(&mut prepared, &mut self.prepared_elements);
        }
        let mut fragment_layouts = resolve_fragment_layouts(content, prepared, &context, host);
        let (line_fragments, ranges, cells) = build_line_fragments(content, &fragment_layouts);
        proof {
            lemma_line_bytes_match(content.fragments@, fragment_layouts@, line_fragments@, n as int);
        }
        let total_len_bytes = total_byte_len(&line_fragments);
        let boundaries = match wrap_width {
            Some(width) => host.wrap_line(&line_fragments, width, &context.font, context.font_size),
            None => Vec::new(),
        };
        proof {
            if wrap_width is Some {
                lemma_boundaries_fewer(boundaries@, line_fragments@);
            }
            assert forall|i: int| 0 <= i <= n implies #[trigger] line_bytes_before(line_fragments@, i) == bytes_before(
                content.fragments@,
                i,
            ) by {
                lemma_line_bytes_match(content.fragments@, fragment_layouts@, line_fragments@, i);
            }
            assert forall|k: int| 0 <= k < boundaries@.len() implies 0 < (#[trigger] boundaries@[k]).ix < total_len_bytes
                && is_content_break(content.fragments@, boundaries@[k].ix as int) by {
                lemma_wrapper_break_in_content(content.fragments@, fragment_layouts@, line_fragments@, boundaries@[k].ix as int);
            }
            assert forall|i: int| 0 <= i < content.fragments@.len() implies (#[trigger] content.fragments@[i] is Element
                <==> fragment_layouts@[i] is Element) by {
                assert(resolved_layout::<E, H>(model0, content.fragments@[i], prepared@, i, context, fragment_layouts@[i]));
            }
        }
        let space = host.advance(&context.font, context.font_size, ' ');
        let space_width = match space {
            Some(size) => size.width,
            None => 0,
        };
        let ghost kinds_before = fragment_layouts@;
        let (lines, max_width, height) = lay_out_lines(
            content,
            &mut fragment_layouts,
            &ranges,
            &cells,
            &boundaries,
            total_len_bytes,
            space_width,
            line_height_hint,
            host,
            window_style,
            rem_size,
        );
        proof {
            assert forall|i: int| 0 <= i < content.fragments@.len() implies (#[trigger] content.fragments@[i] is Element
                <==> fragment_layouts@[i] is Element) by {
                assert(resolved_layout::<E, H>(model0, content.fragments@[i], prepared@, i, context, kinds_before[i]));
                assert(kinds_before[i] is Element <==> fragment_layouts@[i] is Element);
            }
        }
        proof {
            assert(line_fragments@ =~= spec_line_fragments(content.fragments@, kinds_before));
            assert(prepared@ =~= usable_prepared(*old(self), n as int));
            assert(context == spec_element_context(*content, line_height_hint, wrap_width, *window_style, rem_size as int));
            assert(keeps_measures(kinds_before, fragment_layouts@));
            assert(keeps_effective(kinds_before, fragment_layouts@, line_height_hint as int));
            assert(lines_follow_breaks(lines@, content.fragments@, boundaries@, space_width as int, line_height_hint as int));
        }
        self.lines = lines;
        self.fragment_layouts = fragment_layouts;
        self.measured_size = Size { width: max_width, height };
        self.bounds = None;
        self.last_wrap_width = wrap_width;
        self.last_line_height = Some(line_height_hint);
        self.dirty = false;
        proof {
            lemma_recorded_baselines(self.lines@, kinds_before, self.fragment_layouts@, line_height_hint as int);
            assert(pass_steps::<E, H>(
                model0,
                content.fragments@,
                *self,
                prepared@,
                context,
                wrap_width,
                line_height_hint,
                kinds_before,
                boundaries@,
                space_width,
            ));
        }
    }
}


/// The font size the span's text defaults to: that of the content's
/// effective default style, else the window's.
pub open spec fn spec_base_font_size<E>(content: InlineContent<E>, window_style: TextStyle, rem_size: int) -> int {
    match content.spec_resolved_style() {
        Some(s) => s.font_size.spec_to_pixels(rem_size),
        None => window_style.font_size.spec_to_pixels(rem_size),
    }
}

/// The line height hint: the window's line height for the base font size.
pub open spec fn spec_line_height_hint<E>(content: InlineContent<E>, window_style: TextStyle, rem_size: int) -> int {
    window_style.line_height.spec_to_pixels(
        AbsoluteLength::Pixels(spec_base_font_size(content, window_style, rem_size) as Pixels),
        rem_size,
    )
}

/// The width to wrap at: none when white space does not wrap, else the known
/// width, else a definite available width.
pub open spec fn spec_wrap_width(window_style: TextStyle, known: KnownSize, available: AvailableSize) -> Option<Pixels> {
    if window_style.white_space == WhiteSpace::Normal {
        match known.width {
            Some(w) => Some(w),
            None => match available.width {
                AvailableSpace::Definite(w) => Some(w),
                _ => None,
            },
        }
    } else {
        None
    }
}

/// The layout can be reused: it is not dirty and was computed for the same
/// wrap width and line height hint.
pub open spec fn layout_reusable(layout: InlineSpanLayout, wrap_width: Option<Pixels>, hint: Pixels) -> bool {
    !layout.dirty && layout.last_wrap_width == wrap_width && layout.last_line_height == Some(hint)
}

/// Two optional lengths are equal.
fn same_optional_length(a: Option<Pixels>, b: Option<Pixels>) -> (r: bool)
    ensures
        r == (a == b),
{
    match (a, b) {
        (Some(x), Some(y)) => x == y,
        (None, None) => true,
        _ => false,
    }
}

/// Whether the window's text wraps.
fn wraps(white_space: WhiteSpace) -> (r: bool)
    ensures
        r == (white_space == WhiteSpace::Normal),
{
    match white_space {
        WhiteSpace::Normal => true,
        WhiteSpace::Nowrap => false,
    }
}

impl InlineSpanLayout {
    /// The size of the span for the given constraints: the size of the last
    /// layout when it can be reused, else that of a fresh layout.
    pub fn measure<E, H: LayoutHost<E>>(
        &mut self,
        content: &InlineContent<E>,
        known_dimensions: KnownSize,
        available_space: AvailableSize,
        window_style: &TextStyle,
        rem_size: Pixels,
        host: &mut H,
    ) -> (r: Size)
        requires
            old(self).wf(),
            content_fits(content.fragments@),
            styles_in_bounds(*content, *window_style),
            extent_ok(rem_size as int),
            px_ok(spec_base_font_size(*content, *window_style, rem_size as int)),
            extent_ok(spec_line_height_hint(*content, *window_style, rem_size as int)),
        ensures
            final(self).wf(),
            r == final(self).measured_size,
            ({
                let wrap_width = spec_wrap_width(*window_style, known_dimensions, available_space);
                let hint = spec_line_height_hint(*content, *window_style, rem_size as int) as Pixels;
                &&& layout_reusable(*final(self), wrap_width, hint)
                &&& if layout_reusable(*old(self), wrap_width, hint) {
                    &&& *final(self) == *old(self)
                    &&& *final(host) == *old(host)
                } else {
                    rewrapped::<E, H>(
                        *old(self),
                        *final(self),
                        *content,
                        wrap_width,
                        hint,
                        *window_style,
                        rem_size as int,
                        old(host).model(),
                    )
                }
            }),
            final(host).model() == old(host).model(),
    {
        proof {
            crate::content::lemma_first_text_style_in_bounds(content.fragments@);
        }
        let window_font_size = window_style.font_size.to_pixels(rem_size);
        let base_font_size = content.default_font_size_or(window_font_size, rem_size);
        let line_height_hint = window_style.line_height.to_pixels(AbsoluteLength::Pixels(base_font_size), rem_size);
        let wrap_width = if wraps(window_style.white_space) {
            match known_dimensions.width {
                Some(w) => Some(w),
                None => match available_space.width {
                    AvailableSpace::Definite(w) => Some(w),
                    _ => None,
                },
            }
        } else {
            None
        };
        if !self.dirty && same_optional_length(self.last_wrap_width, wrap_width) && same_optional_length(
            self.last_line_height,
            Some(line_height_hint),
        ) {
            return self.measured_size;
        }
        self.rewrap_and_shape(content, wrap_width, line_height_hint, host, window_style, rem_size);
        self.measured_size
    }
}


impl InlineDecoration {
    /// A copy of this decoration.
    pub fn duplicate(&self) -> (r: InlineDecoration)
        ensures
            r == *self,
    {
        InlineDecoration { range: self.range.start..self.range.end, style: self.style }
    }
}

impl InlineSpanLayout {
    /// `self` and `other` hold the same layout state, lines taken by content.
    pub open spec fn same_as(&self, other: &InlineSpanLayout) -> bool {
        &&& self.lines@.len() == other.lines@.len()
        &&& forall|j: int| 0 <= j < self.lines@.len() ==> (#[trigger] self.lines@[j]).same_as(&other.lines@[j])
        &&& self.fragment_layouts@ == other.fragment_layouts@
        &&& self.measured_size == other.measured_size
        &&& self.bounds == other.bounds
        &&& self.last_wrap_width == other.last_wrap_width
        &&& self.last_line_height == other.last_line_height
        &&& self.dirty == other.dirty
        &&& self.decorations@ == other.decorations@
        &&& self.prepared_elements@ == other.prepared_elements@
    }

    /// A copy of this layout state.
    pub fn duplicate(&self) -> (r: InlineSpanLayout)
        ensures
            r.same_as(self),
    {
        let mut lines: Vec<InlineWrapLine> = Vec::new();
        let n = self.lines.len();
        let mut i: usize = 0;
        while i < n
            invariant
                n == self.lines@.len(),
                i <= n,
                lines@.len() == i,
                forall|j: int| 0 <= j < i ==> (#[trigger] lines@[j]).same_as(&self.lines@[j]),
            decreases n - i,
        {
            lines.push(self.lines[i].duplicate());
            i = i + 1;
        }
        let mut decorations: Vec<InlineDecoration> = Vec::new();
        let m = self.decorations.len();
        let mut k: usize = 0;
        while k < m
            invariant
                m == self.decorations@.len(),
                k <= m,
                decorations@ == self.decorations@.subrange(0, k as int),
            decreases m - k,
        {
            decorations.push(self.decorations[k].duplicate());
            k = k + 1;
            proof {
                assert(decorations@ =~= self.decorations@.subrange(0, k as int));
            }
        }
        proof {
            assert(decorations@ =~= self.decorations@);
        }
        InlineSpanLayout {
            lines,
            fragment_layouts: crate::geometry::copy_vec(&self.fragment_layouts),
            measured_size: self.measured_size,
            bounds: self.bounds,
            last_wrap_width: self.last_wrap_width,
            last_line_height: self.last_line_height,
            dirty: self.dirty,
            decorations,
            prepared_elements: crate::geometry::copy_vec(&self.prepared_elements),
        }
    }
}

} // verus!
