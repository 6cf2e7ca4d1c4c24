use vstd::prelude::*;
use crate::geometry::{Pixels, Point, Size, Bounds, PX_LIMIT, COUNT_LIMIT, spec_half, px_half, extent_ok, spec_px_max};
use crate::style::{TextStyle, TextRun, SharedString};
use crate::text::{utf8_len, ceil_cell, byte_offset_to_cell_index};
use crate::content::{InlineElementAlign, InlineElementInstance, InlineContent, InlineFragment};
use crate::slices::{InlineFragmentLayout, LogicalSlice, content_fits, lemma_fragment_within_total, spec_line_slices, spec_slice_for, bytes_before, imax, imin};
use crate::host::LayoutHost;
use crate::geometry::px_max;
use crate::wrap_line::{InlineWrapLine, ShapedSegment, widths_before};
use crate::geometry::{wide_limit, tall_limit};

verus! {

impl InlineWrapLine {
    /// The line box is within bounds: its top, height and baseline.
    pub open spec fn box_ok(&self) -> bool {
        &&& 0 <= self.line_origin.y <= tall_limit()
        &&& 0 <= self.line_origin.x
        &&& 0 <= self.width
        &&& 0 <= self.height <= 4 * PX_LIMIT
        &&& 0 <= self.baseline_above_top <= 4 * PX_LIMIT
    }
}

/// The top edge of an element placed on a line: on the baseline by its
/// baseline offset (or centered on it when it fits the line, else resting on
/// it) for `Auto`; at the line top, line bottom or line center otherwise.
pub open spec fn element_top(inst: InlineElementInstance, line: InlineWrapLine) -> int {
    let baseline_y = line.line_origin.y + line.baseline_above_top;
    let h = inst.size.height as int;
    match inst.align {
        InlineElementAlign::Auto => match inst.baseline_offset {
            Some(o) => baseline_y - o,
            None => if h <= line.height {
                baseline_y - spec_half(h)
            } else {
                baseline_y - h
            },
        },
        InlineElementAlign::Top => line.line_origin.y as int,
        InlineElementAlign::Bottom => line.line_origin.y + line.height - h,
        InlineElementAlign::Middle => line.line_origin.y + spec_half(line.height - h),
    }
}

/// An element instance placed at horizontal position `x` on a line.
pub open spec fn placed(inst: InlineElementInstance, x: int, line: InlineWrapLine) -> InlineElementInstance {
    InlineElementInstance {
        bounds: Bounds {
            origin: Point { x: x as Pixels, y: element_top(inst, line) as Pixels },
            size: inst.size,
        },
        ..inst
    }
}

/// How far placing elements advances past a segment: the shaped width of
/// text, the measured width of an element (nothing when its fragment has no
/// measured element).
pub open spec fn placement_advance(seg: ShapedSegment, layouts: Seq<InlineFragmentLayout>) -> int {
    match seg {
        ShapedSegment::Text { shaped, .. } => shaped.width as int,
        ShapedSegment::Element { fragment_index, .. } => match layouts[fragment_index as int] {
            InlineFragmentLayout::Element { instance } => instance.size.width as int,
            InlineFragmentLayout::Text => 0,
        },
    }
}

/// The total placement advance of the first `k` segments.
pub open spec fn placement_before(segs: Seq<ShapedSegment>, layouts: Seq<InlineFragmentLayout>, k: int) -> int
    decreases k,
{
    if k <= 0 || k > segs.len() {
        0
    } else {
        placement_before(segs, layouts, k - 1) + placement_advance(segs[k - 1], layouts)
    }
}

/// Segment `k` is an element segment of fragment `i`.
pub open spec fn is_element_segment(segs: Seq<ShapedSegment>, k: int, i: int) -> bool {
    segs[k] is Element && segs[k].spec_fragment_index() == i
}

/// Fragment indices of the segments increase strictly, and stay below `n`.
pub open spec fn segments_ordered(segs: Seq<ShapedSegment>, n: int) -> bool {
    &&& forall|a: int, b: int|
        0 <= a < b < segs.len() ==> segs[a].spec_fragment_index() < segs[b].spec_fragment_index()
    &&& forall|k: int| 0 <= k < segs.len() ==> segs[k].spec_fragment_index() < n
}

/// Every measured element is within bounds.
pub open spec fn layouts_in_bounds(layouts: Seq<InlineFragmentLayout>) -> bool {
    forall|i: int|
        0 <= i < layouts.len() ==> (#[trigger] layouts[i] matches InlineFragmentLayout::Element {
            instance,
        } ==> instance.in_bounds())
}

/// The layout entry of the fragment of segment `k` once the elements of
/// `line` are placed, from its entry before.
pub open spec fn placed_entry(old_layouts: Seq<InlineFragmentLayout>, line: InlineWrapLine, k: int) -> InlineFragmentLayout {
    let segs = line.shaped_segments@;
    match old_layouts[segs[k].spec_fragment_index() as int] {
        InlineFragmentLayout::Element { instance } => InlineFragmentLayout::Element {
            instance: placed(instance, line.line_origin.x + placement_before(segs, old_layouts, k), line),
        },
        InlineFragmentLayout::Text => InlineFragmentLayout::Text,
    }
}

/// The effect of placing the elements of `line` on the fragment layouts.
pub open spec fn placed_on_line(
    old_layouts: Seq<InlineFragmentLayout>,
    new_layouts: Seq<InlineFragmentLayout>,
    line: InlineWrapLine,
) -> bool {
    let segs = line.shaped_segments@;
    &&& new_layouts.len() == old_layouts.len()
    &&& forall|k: int|
        0 <= k < segs.len() && #[trigger] segs[k] is Element ==> new_layouts[segs[k].spec_fragment_index() as int]
            == placed_entry(old_layouts, line, k)
    &&& forall|i: int|
        0 <= i < old_layouts.len() && (forall|k: int| 0 <= k < segs.len() ==> !is_element_segment(segs, k, i))
            ==> new_layouts[i] == old_layouts[i]
}

/// The top edge of an element placed on `line`.
pub fn place_element(instance: InlineElementInstance, x: Pixels, line: &InlineWrapLine) -> (r: InlineElementInstance)
    requires
        line.box_ok(),
        instance.in_bounds(),
    ensures
        r == placed(instance, x as int, *line),
{
    let baseline_y = line.line_origin.y + line.baseline_above_top;
    let h = instance.size.height;
    let top = match instance.align {
        InlineElementAlign::Auto => {
            match instance.baseline_offset {
                Some(offset) => baseline_y - offset,
                None => if h <= line.height {
                    baseline_y - px_half(h)
                } else {
                    baseline_y - h
                },
            }
        },
        InlineElementAlign::Top => line.line_origin.y,
        InlineElementAlign::Bottom => line.line_origin.y + line.height - h,
        InlineElementAlign::Middle => line.line_origin.y + px_half(line.height - h),
    };
    let mut p = instance;
    p.bounds = Bounds::new(Point::new(x, top), Size { width: instance.size.width, height: instance.size.height });
    p
}

/// Places the inline elements of `line`: each element segment's instance
/// gets its left edge at the segment's position and its top from its alignment.
#[verifier::rlimit(40)]
pub fn position_inline_elements(line: &InlineWrapLine, fragment_layouts: &mut Vec<InlineFragmentLayout>)
    requires
        line.geometry_ok(),
        line.box_ok(),
        segments_ordered(line.shaped_segments@, old(fragment_layouts)@.len() as int),
        layouts_in_bounds(old(fragment_layouts)@),
    ensures
        placed_on_line(old(fragment_layouts)@, final(fragment_layouts)@, *line),
{
    let segs = &line.shaped_segments;
    let n = segs.len();
    let mut cursor = line.line_origin.x;
    let mut k: usize = 0;
    let ghost old_layouts = fragment_layouts@;
    while k < n
        invariant
            line.geometry_ok(),
            line.box_ok(),
            segs == line.shaped_segments,
            n == segs@.len(),
            k <= n,
            segments_ordered(segs@, old_layouts.len() as int),
            layouts_in_bounds(old_layouts),
            fragment_layouts@.len() == old_layouts.len(),
            cursor == line.line_origin.x + placement_before(segs@, old_layouts, k as int),
            0 <= placement_before(segs@, old_layouts, k as int) <= k * PX_LIMIT,
            forall|j: int|
                0 <= j < k && #[trigger] segs@[j] is Element ==> fragment_layouts@[segs@[j].spec_fragment_index() as int]
                    == placed_entry(old_layouts, *line, j),
            forall|i: int|
                0 <= i < old_layouts.len() && (forall|j: int| 0 <= j < k ==> !is_element_segment(segs@, j, i))
                    ==> fragment_layouts@[i] == old_layouts[i],
        decreases n - k,
    {
        proof {
            assert(k * PX_LIMIT + PX_LIMIT <= COUNT_LIMIT * PX_LIMIT) by (nonlinear_arith)
                requires k < n, n <= COUNT_LIMIT;
            assert(segs@[k as int].wf());
        }
        let ghost before = fragment_layouts@;
        match &segs[k] {
            ShapedSegment::Text { shaped, .. } => {
                cursor = cursor + shaped.width;
            },
            ShapedSegment::Element { fragment_index, .. } => {
                let fi = *fragment_index;
                proof {
                    assert forall|j: int| 0 <= j < k implies !is_element_segment(segs@, j, fi as int) by {
                        assert(segs@[j].spec_fragment_index() < segs@[k as int].spec_fragment_index());
                    }
                    assert(fragment_layouts@[fi as int] == old_layouts[fi as int]);
                }
                match fragment_layouts[fi] {
                    InlineFragmentLayout::Element { instance } => {
                        let p = place_element(instance, cursor, line);
                        fragment_layouts.set(fi, InlineFragmentLayout::Element { instance: p });
                        cursor = cursor + instance.size.width;
                    },
                    InlineFragmentLayout::Text => {},
                }
            },
        }
        proof {
            let kk = k as int;
            let fk = segs@[kk].spec_fragment_index() as int;
            assert forall|j: int|
                0 <= j < k + 1 && #[trigger] segs@[j] is Element implies fragment_layouts@[segs@[j].spec_fragment_index() as int]
                    == placed_entry(old_layouts, *line, j) by {
                if j < kk {
                    assert(segs@[j].spec_fragment_index() < segs@[kk].spec_fragment_index());
                    assert(fragment_layouts@[segs@[j].spec_fragment_index() as int] == before[segs@[j].spec_fragment_index() as int]);
                }
            }
            assert forall|i: int|
                0 <= i < old_layouts.len() && (forall|j: int| 0 <= j < k + 1 ==> !is_element_segment(segs@, j, i))
                    implies fragment_layouts@[i] == old_layouts[i] by {
                assert(!is_element_segment(segs@, kk, i));
                assert(forall|j: int| 0 <= j < k ==> !is_element_segment(segs@, j, i));
            }
        }
        k = k + 1;
    }
}


/// The styles of the content and the window style are within bounds.
pub open spec fn styles_in_bounds<E>(content: InlineContent<E>, window_style: TextStyle) -> bool {
    &&& window_style.in_bounds()
    &&& content.default_style matches Some(s) ==> s.in_bounds()
    &&& forall|i: int|
        0 <= i < content.fragments@.len() ==> (#[trigger] content.fragments@[i] matches InlineFragment::Text {
            style: Some(s),
            ..
        } ==> s.in_bounds())
}

/// The font size text in `style` is shaped at: its own size, else the
/// content's default size, else the window's.
pub open spec fn spec_text_font_size<E>(
    content: InlineContent<E>,
    style: Option<TextStyle>,
    window_style: TextStyle,
    rem_size: int,
) -> int {
    match style {
        Some(s) => s.font_size.spec_to_pixels(rem_size),
        None => match content.spec_resolved_style() {
            Some(d) => d.font_size.spec_to_pixels(rem_size),
            None => window_style.font_size.spec_to_pixels(rem_size),
        },
    }
}

/// The run `len` bytes of text in `style` are shaped with: colors and
/// decorations of its style (else the content's default style, else the
/// window's), and the font of its style (else the content's resolved
/// default font, else the window's).
pub open spec fn spec_text_run<E>(content: InlineContent<E>, style: Option<TextStyle>, window_style: TextStyle, len: usize) -> TextRun {
    let base = match style {
        Some(s) => s,
        None => match content.default_style {
            Some(d) => d,
            None => window_style,
        },
    };
    TextRun {
        len,
        font: match style {
            Some(s) => s.spec_font(),
            None => match content.spec_resolved_style() {
                Some(d) => d.spec_font(),
                None => window_style.spec_font(),
            },
        },
        color: base.color,
        background_color: base.background_color,
        underline: base.underline,
    }
}

/// A text segment holds what the host gave for shaping its fragment's
/// characters at the fragment's resolved font size and run.
pub open spec fn segment_shaped<E, H: LayoutHost<E>>(
    model: H::Model,
    content: InlineContent<E>,
    window_style: TextStyle,
    rem_size: int,
    seg: ShapedSegment,
) -> bool {
    match seg {
        ShapedSegment::Text { fragment_index, start_in_fragment, end_in_fragment, shaped, .. } =>
            fragment_index < content.fragments@.len() && match content.fragments@[fragment_index as int] {
            InlineFragment::Text { text, style } => H::shapes(
                model,
                text_between(text@, start_in_fragment as int, end_in_fragment as int),
                spec_text_font_size(content, style, window_style, rem_size) as Pixels,
                spec_text_run(content, style, window_style, (end_in_fragment - start_in_fragment) as usize),
                shaped,
            ),
            InlineFragment::Element { .. } => false,
        },
        ShapedSegment::Element { .. } => true,
    }
}

/// Every text segment of `line` holds the host's shaping of its characters.
pub open spec fn line_shaped<E, H: LayoutHost<E>>(
    model: H::Model,
    content: InlineContent<E>,
    window_style: TextStyle,
    rem_size: int,
    line: InlineWrapLine,
) -> bool {
    forall|k: int|
        0 <= k < line.shaped_segments@.len() ==> segment_shaped::<E, H>(
            model,
            content,
            window_style,
            rem_size,
            #[trigger] line.shaped_segments@[k],
        )
}

/// The characters of bytes `[start, end)` of `text`, taken at cell boundaries.
pub open spec fn text_between(text: Seq<char>, start: int, end: int) -> Seq<char> {
    text.subrange(ceil_cell(text, start) as int, ceil_cell(text, end) as int)
}

/// What shaping the bytes `[start, end)` of a text fragment in `style` is
/// handed: the text, the font size and the run.
pub fn shaping_request<E>(
    content: &InlineContent<E>,
    text: &SharedString,
    style: &Option<TextStyle>,
    start: usize,
    end: usize,
    window_style: &TextStyle,
    rem_size: Pixels,
) -> (r: (SharedString, Pixels, TextRun))
    requires
        start <= end <= utf8_len(text@),
        utf8_len(text@) <= COUNT_LIMIT,
        styles_in_bounds(*content, *window_style),
        style matches Some(s) ==> s.in_bounds(),
        extent_ok(rem_size as int),
    ensures
        r.0@ == text_between(text@, start as int, end as int),
        utf8_len(r.0@) <= utf8_len(text@),
        r.1 == spec_text_font_size(*content, *style, *window_style, rem_size as int),
        r.2 == spec_text_run(*content, *style, *window_style, (end - start) as usize),
{
    proof {
        crate::content::lemma_first_text_style_in_bounds(content.fragments@);
    }
    let t = text.as_str();
    let cs = byte_offset_to_cell_index(t, start);
    let ce = byte_offset_to_cell_index(t, end);
    proof {
        crate::text::lemma_ceil_cell_mono(text@, start as int, end as int);
    }
    let piece = t.substring_char(cs, ce).to_owned();
    proof {
        crate::text::lemma_floor_ceil_bounded(text@, 0, end as int);
        let whole = text@;
        let a = ceil_cell(whole, start as int) as int;
        let b = ceil_cell(whole, end as int) as int;
        crate::text::lemma_utf8_len_concat(whole.subrange(0, a), whole.subrange(a, b));
        crate::text::lemma_utf8_len_concat(whole.subrange(0, a) + whole.subrange(a, b), whole.subrange(b, whole.len() as int));
        assert(whole.subrange(0, a) + whole.subrange(a, b) + whole.subrange(b, whole.len() as int) =~= whole);
    }
    let font_size = match style {
        Some(s) => s.font_size.to_pixels(rem_size),
        None => content.default_font_size_or(window_style.font_size.to_pixels(rem_size), rem_size),
    };
    let len = end - start;
    let mut run = match style {
        Some(s) => s.to_run(len),
        None => match &content.default_style {
            Some(d) => d.to_run(len),
            None => window_style.to_run(len),
        },
    };
    run.font = content.default_font_or(window_style.font());
    match style {
        Some(s) => {
            run.font = s.font();
        },
        None => {},
    }
    (piece, font_size, run)
}


/// The slices are well formed for the content: each names a fragment, text
/// slices lie within their text, logical indices are ordered and bounded,
/// and fragment indices increase strictly.
pub open spec fn slices_wf<E>(fs: Seq<InlineFragment<E>>, slices: Seq<LogicalSlice>) -> bool {
    &&& slices.len() <= COUNT_LIMIT
    &&& forall|k: int|
        0 <= k < slices.len() ==> {
            let s = #[trigger] slices[k];
            &&& s.fragment_index < fs.len()
            &&& s.logical_start <= s.logical_end <= COUNT_LIMIT
            &&& fs[s.fragment_index as int] matches InlineFragment::Text { text, .. } ==> s.start_in_fragment
                <= s.end_in_fragment <= utf8_len(text@)
        }
    &&& forall|a: int, b: int| 0 <= a < b < slices.len() ==> slices[a].fragment_index < slices[b].fragment_index
}

/// A slice puts something on the line: text that is not empty, or an element
/// that has been measured.
pub open spec fn slice_productive<E>(fs: Seq<InlineFragment<E>>, layouts: Seq<InlineFragmentLayout>, s: LogicalSlice) -> bool {
    match fs[s.fragment_index as int] {
        InlineFragment::Text { .. } => s.start_in_fragment < s.end_in_fragment,
        InlineFragment::Element { .. } => layouts[s.fragment_index as int] is Element,
    }
}

/// The productive slices among the first `i`, in order.
pub open spec fn productive_upto<E>(
    fs: Seq<InlineFragment<E>>,
    layouts: Seq<InlineFragmentLayout>,
    slices: Seq<LogicalSlice>,
    i: int,
) -> Seq<LogicalSlice>
    decreases i,
{
    if i <= 0 || i > slices.len() {
        Seq::empty()
    } else {
        let prev = productive_upto(fs, layouts, slices, i - 1);
        if slice_productive(fs, layouts, slices[i - 1]) {
            prev.push(slices[i - 1])
        } else {
            prev
        }
    }
}

/// `seg` is the segment the slice `s` puts on the line: its text shaped (any
/// well-formed shaping of exactly that text), or its measured element.
pub open spec fn segment_for<E>(
    fs: Seq<InlineFragment<E>>,
    layouts: Seq<InlineFragmentLayout>,
    s: LogicalSlice,
    seg: ShapedSegment,
) -> bool {
    match fs[s.fragment_index as int] {
        InlineFragment::Text { text, .. } => match seg {
            ShapedSegment::Text { fragment_index, start_in_fragment, end_in_fragment, logical_start, logical_end, shaped } => {
                &&& fragment_index == s.fragment_index
                &&& start_in_fragment == s.start_in_fragment
                &&& end_in_fragment == s.end_in_fragment
                &&& logical_start == s.logical_start
                &&& logical_end == s.logical_end
                &&& shaped.wf()
                &&& shaped.text@ == text_between(text@, s.start_in_fragment as int, s.end_in_fragment as int)
            },
            ShapedSegment::Element { .. } => false,
        },
        InlineFragment::Element { .. } => match layouts[s.fragment_index as int] {
            InlineFragmentLayout::Element { instance } => seg == ShapedSegment::Element {
                fragment_index: s.fragment_index,
                logical_start: s.logical_start,
                logical_end: s.logical_end,
                width: instance.size.width,
            },
            InlineFragmentLayout::Text => false,
        },
    }
}

/// The baseline offset given to an `Auto` element that has none: half its
/// height when it fits the line height hint, else its full height.
pub open spec fn auto_offset(h: int, hint: int) -> int {
    if h <= hint { spec_half(h) } else { h }
}

/// The baseline offset of a measured `Auto` element on a line.
pub open spec fn effective_offset(inst: InlineElementInstance, hint: int) -> int {
    match inst.baseline_offset {
        Some(o) => o as int,
        None => auto_offset(inst.size.height as int, hint),
    }
}

/// Height above the baseline a segment asks for.
pub open spec fn seg_ascent(seg: ShapedSegment, layouts: Seq<InlineFragmentLayout>, hint: int) -> int {
    match seg {
        ShapedSegment::Text { shaped, .. } => shaped.ascent as int,
        ShapedSegment::Element { fragment_index, .. } => match layouts[fragment_index as int] {
            InlineFragmentLayout::Element { instance } => if instance.align == InlineElementAlign::Auto {
                effective_offset(instance, hint)
            } else {
                0
            },
            InlineFragmentLayout::Text => 0,
        },
    }
}

/// Depth below the baseline a segment asks for.
pub open spec fn seg_descent(seg: ShapedSegment, layouts: Seq<InlineFragmentLayout>, hint: int) -> int {
    match seg {
        ShapedSegment::Text { shaped, .. } => shaped.descent as int,
        ShapedSegment::Element { fragment_index, .. } => match layouts[fragment_index as int] {
            InlineFragmentLayout::Element { instance } => if instance.align == InlineElementAlign::Auto {
                instance.size.height - effective_offset(instance, hint)
            } else {
                0
            },
            InlineFragmentLayout::Text => 0,
        },
    }
}

/// Height a top-, middle- or bottom-aligned element asks for.
pub open spec fn seg_aligned_height(seg: ShapedSegment, layouts: Seq<InlineFragmentLayout>) -> int {
    match seg {
        ShapedSegment::Text { .. } => 0,
        ShapedSegment::Element { fragment_index, .. } => match layouts[fragment_index as int] {
            InlineFragmentLayout::Element { instance } => if instance.align == InlineElementAlign::Auto {
                0
            } else {
                instance.size.height as int
            },
            InlineFragmentLayout::Text => 0,
        },
    }
}

/// The largest ascent among the first `k` segments (at least zero).
pub open spec fn max_ascent_upto(segs: Seq<ShapedSegment>, layouts: Seq<InlineFragmentLayout>, hint: int, k: int) -> int
    decreases k,
{
    if k <= 0 || k > segs.len() {
        0
    } else {
        spec_px_max(max_ascent_upto(segs, layouts, hint, k - 1), seg_ascent(segs[k - 1], layouts, hint))
    }
}

/// The largest descent among the first `k` segments (at least zero).
pub open spec fn max_descent_upto(segs: Seq<ShapedSegment>, layouts: Seq<InlineFragmentLayout>, hint: int, k: int) -> int
    decreases k,
{
    if k <= 0 || k > segs.len() {
        0
    } else {
        spec_px_max(max_descent_upto(segs, layouts, hint, k - 1), seg_descent(segs[k - 1], layouts, hint))
    }
}

/// The largest aligned-element height among the first `k` segments (at least zero).
pub open spec fn max_aligned_upto(segs: Seq<ShapedSegment>, layouts: Seq<InlineFragmentLayout>, k: int) -> int
    decreases k,
{
    if k <= 0 || k > segs.len() {
        0
    } else {
        spec_px_max(max_aligned_upto(segs, layouts, k - 1), seg_aligned_height(segs[k - 1], layouts))
    }
}

/// The height of a line box: the content height (ascent plus descent) or
/// the hint, whichever is larger, raised to the tallest aligned element.
pub open spec fn spec_line_height(ascent: int, descent: int, aligned: int, hint: int) -> int {
    let lh = spec_px_max(ascent + descent, hint);
    if aligned > lh { aligned } else { lh }
}

/// The baseline of a line box: the ascent, pushed down by half the extra
/// height when the box is taller than its content; the middle of the box
/// when it has no content height.
pub open spec fn spec_baseline(ascent: int, descent: int, aligned: int, hint: int) -> int {
    let content_height = ascent + descent;
    let line_height = spec_line_height(ascent, descent, aligned, hint);
    let extra = line_height - content_height;
    if content_height > 0 {
        if extra > 0 { ascent + spec_half(extra) } else { ascent }
    } else {
        spec_half(line_height)
    }
}

/// The fragment layouts once the first `k` segments gave their `Auto`
/// elements without a baseline offset one.
pub open spec fn baselined_upto(
    old_layouts: Seq<InlineFragmentLayout>,
    segs: Seq<ShapedSegment>,
    hint: int,
    k: int,
) -> Seq<InlineFragmentLayout>
    decreases k,
{
    if k <= 0 || k > segs.len() {
        old_layouts
    } else {
        let prev = baselined_upto(old_layouts, segs, hint, k - 1);
        match segs[k - 1] {
            ShapedSegment::Element { fragment_index, .. } => match prev[fragment_index as int] {
                InlineFragmentLayout::Element { instance } => if fragment_index < prev.len()
                    && instance.align == InlineElementAlign::Auto && instance.baseline_offset is None {
                    prev.update(
                        fragment_index as int,
                        InlineFragmentLayout::Element {
                            instance: InlineElementInstance {
                                baseline_offset: Some(auto_offset(instance.size.height as int, hint) as Pixels),
                                ..instance
                            },
                        },
                    )
                } else {
                    prev
                },
                InlineFragmentLayout::Text => prev,
            },
            ShapedSegment::Text { .. } => prev,
        }
    }
}

/// Giving baselines only touches the fragments of element segments, and
/// keeps the number of layouts.
pub proof fn lemma_baselined_frame(
    old_layouts: Seq<InlineFragmentLayout>,
    segs: Seq<ShapedSegment>,
    hint: int,
    k: int,
    j: int,
)
    requires
        0 <= k <= segs.len(),
        forall|m: int| 0 <= m < k ==> (#[trigger] segs[m]).spec_fragment_index() != j,
    ensures
        baselined_upto(old_layouts, segs, hint, k).len() == old_layouts.len(),
        0 <= j < old_layouts.len() ==> baselined_upto(old_layouts, segs, hint, k)[j] == old_layouts[j],
    decreases k,
{
    if k > 0 {
        lemma_baselined_frame(old_layouts, segs, hint, k - 1, j);
        assert(segs[k - 1].spec_fragment_index() != j);
    }
}


/// Appending a segment leaves the sums and maxima over the earlier ones as they were.
pub proof fn lemma_segments_prefix(
    segs: Seq<ShapedSegment>,
    x: ShapedSegment,
    old_layouts: Seq<InlineFragmentLayout>,
    hint: int,
    k: int,
)
    requires
        0 <= k <= segs.len(),
    ensures
        widths_before(segs.push(x), k) == widths_before(segs, k),
        max_ascent_upto(segs.push(x), old_layouts, hint, k) == max_ascent_upto(segs, old_layouts, hint, k),
        max_descent_upto(segs.push(x), old_layouts, hint, k) == max_descent_upto(segs, old_layouts, hint, k),
        max_aligned_upto(segs.push(x), old_layouts, k) == max_aligned_upto(segs, old_layouts, k),
        baselined_upto(old_layouts, segs.push(x), hint, k) == baselined_upto(old_layouts, segs, hint, k),
    decreases k,
{
    if k > 0 {
        lemma_segments_prefix(segs, x, old_layouts, hint, k - 1);
        assert(segs.push(x)[k - 1] == segs[k - 1]);
    }
}

/// Builds a line from its slices: shapes each non-empty text slice with
/// `host`, adds each measured element, sizes the line box from the tallest
/// ascent, descent and aligned element and the line height hint, and places
/// the line's elements. `None` when no slice puts anything on the line.
#[verifier::rlimit(60)]
pub fn build_line<E, H: LayoutHost<E>>(
    logical_slices: Vec<LogicalSlice>,
    indent_spaces: usize,
    space_width: Pixels,
    content: &InlineContent<E>,
    fragment_layouts: &mut Vec<InlineFragmentLayout>,
    host: &mut H,
    line_height_hint: Pixels,
    current_y: Pixels,
    window_style: &TextStyle,
    rem_size: Pixels,
) -> (r: Option<InlineWrapLine>)
    requires
        slices_wf(content.fragments@, logical_slices@),
        content_fits(content.fragments@),
        styles_in_bounds(*content, *window_style),
        old(fragment_layouts)@.len() == content.fragments@.len(),
        layouts_in_bounds(old(fragment_layouts)@),
        extent_ok(space_width as int),
        indent_spaces <= COUNT_LIMIT,
        extent_ok(line_height_hint as int),
        0 <= current_y <= tall_limit(),
        extent_ok(rem_size as int),
    ensures
        ({
            let fs = content.fragments@;
            let old_layouts = old(fragment_layouts)@;
            let prod = productive_upto(fs, old_layouts, logical_slices@, logical_slices@.len() as int);
            let hint = line_height_hint as int;
            match r {
                None => prod.len() == 0 && final(fragment_layouts)@ == old_layouts,
                Some(line) => {
                    let segs = line.shaped_segments@;
                    let a = max_ascent_upto(segs, old_layouts, hint, segs.len() as int);
                    let d = max_descent_upto(segs, old_layouts, hint, segs.len() as int);
                    let m = max_aligned_upto(segs, old_layouts, segs.len() as int);
                    &&& prod.len() > 0
                    &&& segs.len() == prod.len()
                    &&& forall|k: int| 0 <= k < segs.len() ==> segment_for(fs, old_layouts, prod[k], #[trigger] segs[k])
                    &&& line.logical_slices@ == logical_slices@
                    &&& line.logical_start == logical_slices@[0].logical_start
                    &&& line.logical_end == logical_slices@.last().logical_end
                    &&& line.indent_px == space_width * indent_spaces
                    &&& line.line_origin == (Point { x: line.indent_px, y: current_y })
                    &&& line.width == widths_before(segs, segs.len() as int)
                    &&& line.height == spec_line_height(a, d, m, hint)
                    &&& line.baseline_above_top == spec_baseline(a, d, m, hint)
                    &&& line.geometry_ok()
                    &&& line.box_ok()
                    &&& line_shaped::<E, H>(old(host).model(), *content, *window_style, rem_size as int, line)
                    &&& placed_on_line(
                        baselined_upto(old_layouts, segs, hint, segs.len() as int),
                        final(fragment_layouts)@,
                        line,
                    )
                },
            }
        }),
        layouts_in_bounds(final(fragment_layouts)@),
        same_kinds(old(fragment_layouts)@, final(fragment_layouts)@),
        final(host).model() == old(host).model(),
{
    let ghost model0 = host.model();
    let ghost fs = content.fragments@;
    let ghost old_layouts = fragment_layouts@;
    let ghost hint = line_height_hint as int;
    let n_slices = logical_slices.len();
    let mut segments: Vec<ShapedSegment> = Vec::new();
    let mut max_ascent: Pixels = 0;
    let mut max_descent: Pixels = 0;
    let mut max_aligned_height: Pixels = 0;
    let mut width: Pixels = 0;
    let mut i: usize = 0;
    while i < n_slices
        invariant
            host.model() == model0,
            fs == content.fragments@,
            n_slices == logical_slices@.len(),
            slices_wf(fs, logical_slices@),
            content_fits(fs),
            styles_in_bounds(*content, *window_style),
            old_layouts.len() == fs.len(),
            layouts_in_bounds(old_layouts),
            extent_ok(line_height_hint as int),
            hint == line_height_hint as int,
            extent_ok(rem_size as int),
            i <= n_slices,
            segments@.len() == productive_upto(fs, old_layouts, logical_slices@, i as int).len(),
            segments@.len() <= i,
            forall|k: int|
                0 <= k < segments@.len() ==> segment_for(
                    fs,
                    old_layouts,
                    productive_upto(fs, old_layouts, logical_slices@, i as int)[k],
                    #[trigger] segments@[k],
                ),
            forall|k: int| 0 <= k < segments@.len() ==> (#[trigger] segments@[k]).wf(),
            forall|k: int|
                0 <= k < segments@.len() ==> segment_shaped::<E, H>(
                    model0,
                    *content,
                    *window_style,
                    rem_size as int,
                    #[trigger] segments@[k],
                ),
            forall|a: int, b: int|
                0 <= a < b < segments@.len() ==> segments@[a].spec_fragment_index()
                    < segments@[b].spec_fragment_index(),
            forall|k: int|
                0 <= k < segments@.len() ==> (#[trigger] segments@[k]).spec_fragment_index() < fs.len()
                    && (i < n_slices ==> segments@[k].spec_fragment_index()
                    < logical_slices@[i as int].fragment_index),
            width == widths_before(segments@, segments@.len() as int),
            0 <= width <= segments@.len() * PX_LIMIT,
            max_ascent == max_ascent_upto(segments@, old_layouts, hint, segments@.len() as int),
            max_descent == max_descent_upto(segments@, old_layouts, hint, segments@.len() as int),
            max_aligned_height == max_aligned_upto(segments@, old_layouts, segments@.len() as int),
            0 <= max_ascent <= PX_LIMIT,
            0 <= max_descent <= 2 * PX_LIMIT,
            0 <= max_aligned_height <= PX_LIMIT,
            fragment_layouts@ == baselined_upto(old_layouts, segments@, hint, segments@.len() as int),
        decreases n_slices - i,
    {
        let slice = logical_slices[i];
        let fi = slice.fragment_index;
        let ghost segs0 = segments@;
        let ghost len0 = segs0.len() as int;
        proof {
            assert(logical_slices@[i as int] == slice);
            assert(fi < fs.len());
            assert(segments@.len() + 1 <= COUNT_LIMIT);
            assert(width + PX_LIMIT <= (segments@.len() + 1) * PX_LIMIT) by (nonlinear_arith)
                requires width <= segments@.len() * PX_LIMIT;
            lemma_baselined_frame(old_layouts, segs0, hint, len0, fi as int);
            assert(productive_upto(fs, old_layouts, logical_slices@, i + 1) == (if slice_productive(fs, old_layouts, slice) {
                productive_upto(fs, old_layouts, logical_slices@, i as int).push(slice)
            } else {
                productive_upto(fs, old_layouts, logical_slices@, i as int)
            }));
            if i + 1 < n_slices {
                assert(logical_slices@[i as int].fragment_index < logical_slices@[i + 1].fragment_index);
            }
        }
        match &content.fragments[fi] {
            InlineFragment::Text { text, style } => {
                if slice.start_in_fragment == slice.end_in_fragment {
                    i = i + 1;
                    continue;
                }
                proof {
                    lemma_fragment_within_total(fs, fi as int);
                    assert(fs[fi as int] == content.fragments@[fi as int]);
                }
                let (piece, font_size, run) = shaping_request(
                    content,
                    text,
                    style,
                    slice.start_in_fragment,
                    slice.end_in_fragment,
                    window_style,
                    rem_size,
                );
                let shaped = host.shape_line(piece.as_str(), font_size, &run);
                max_ascent = px_max(max_ascent, shaped.ascent);
                max_descent = px_max(max_descent, shaped.descent);
                width = width + shaped.width;
                let seg = ShapedSegment::Text {
                    fragment_index: fi,
                    start_in_fragment: slice.start_in_fragment,
                    end_in_fragment: slice.end_in_fragment,
                    logical_start: slice.logical_start,
                    logical_end: slice.logical_end,
                    shaped,
                };
                segments.push(seg);
                proof {
                    lemma_segments_prefix(segs0, seg, old_layouts, hint, len0);
                    assert(segments@[len0] == seg);
                }
            },
            InlineFragment::Element { .. } => {
                match fragment_layouts[fi] {
                    InlineFragmentLayout::Element { instance } => {
                        assert(old_layouts[fi as int] == InlineFragmentLayout::Element { instance });
                        assert(instance.in_bounds());
                        let h = instance.size.height;
                        let seg = ShapedSegment::Element {
                            fragment_index: fi,
                            logical_start: slice.logical_start,
                            logical_end: slice.logical_end,
                            width: instance.size.width,
                        };
                        segments.push(seg);
                        width = width + instance.size.width;
                        match instance.align {
                            InlineElementAlign::Auto => {
                                let offset = match instance.baseline_offset {
                                    Some(o) => o,
                                    None => {
                                        let o = if h <= line_height_hint { px_half(h) } else { h };
                                        let mut updated = instance;
                                        updated.baseline_offset = Some(o);
                                        fragment_layouts.set(fi, InlineFragmentLayout::Element { instance: updated });
                                        o
                                    },
                                };
                                max_ascent = px_max(max_ascent, offset);
                                max_descent = px_max(max_descent, h - offset);
                            },
                            _ => {
                                max_aligned_height = px_max(max_aligned_height, h);
                            },
                        }
                        proof {
                            lemma_segments_prefix(segs0, seg, old_layouts, hint, len0);
                            assert(segments@[len0] == seg);
                            assert(fragment_layouts@ =~= baselined_upto(old_layouts, segments@, hint, segments@.len() as int));
                        }
                    },
                    InlineFragmentLayout::Text => {},
                }
            },
        }
        i = i + 1;
    }
    if segments.len() == 0 {
        return None;
    }
    let content_height = max_ascent + max_descent;
    let mut line_height = px_max(content_height, line_height_hint);
    if max_aligned_height > line_height {
        line_height = max_aligned_height;
    }
    let extra = line_height - content_height;
    let baseline_above_top = if content_height > 0 {
        if extra > 0 {
            max_ascent + px_half(extra)
        } else {
            max_ascent
        }
    } else {
        px_half(line_height)
    };
    let logical_start = logical_slices[0].logical_start;
    let logical_end = logical_slices[n_slices - 1].logical_end;
    proof {
        assert(space_width * indent_spaces <= PX_LIMIT * COUNT_LIMIT) by (nonlinear_arith)
            requires 0 <= space_width <= PX_LIMIT, indent_spaces <= COUNT_LIMIT;
        assert(0 <= space_width * indent_spaces) by (nonlinear_arith)
            requires 0 <= space_width, 0 <= indent_spaces;
        assert(segments@.len() * PX_LIMIT <= COUNT_LIMIT * PX_LIMIT) by (nonlinear_arith)
            requires segments@.len() <= COUNT_LIMIT;
    }
    let indent_px = space_width * (indent_spaces as i64);
    let line = InlineWrapLine {
        logical_slices,
        logical_start,
        logical_end,
        shaped_segments: segments,
        width,
        height: line_height,
        indent_px,
        baseline_above_top,
        line_origin: Point::new(indent_px, current_y),
    };
    proof {
        lemma_baselined_in_bounds(old_layouts, line.shaped_segments@, hint, line.shaped_segments@.len() as int);
    }
    let ghost mid = fragment_layouts@;
    position_inline_elements(&line, fragment_layouts);
    proof {
        lemma_placed_keeps(mid, fragment_layouts@, line);
        lemma_baselined_kinds(old_layouts, line.shaped_segments@, hint, line.shaped_segments@.len() as int);
    }
    Some(line)
}

/// Fragments keep their kind: text stays text, a measured element stays measured.
pub open spec fn same_kinds(a: Seq<InlineFragmentLayout>, b: Seq<InlineFragmentLayout>) -> bool {
    &&& a.len() == b.len()
    &&& forall|i: int| 0 <= i < a.len() ==> (#[trigger] a[i] is Element <==> b[i] is Element)
}

/// Placement advances are non-negative and at most `PX_LIMIT` per segment.
pub proof fn lemma_placement_bounds(segs: Seq<ShapedSegment>, layouts: Seq<InlineFragmentLayout>, k: int)
    requires
        forall|m: int| 0 <= m < segs.len() ==> (#[trigger] segs[m]).wf(),
        segments_ordered(segs, layouts.len() as int),
        layouts_in_bounds(layouts),
        0 <= k <= segs.len(),
    ensures
        0 <= placement_before(segs, layouts, k) <= k * PX_LIMIT,
    decreases k,
{
    if k > 0 {
        lemma_placement_bounds(segs, layouts, k - 1);
        assert(segs[k - 1].wf());
        assert((k - 1) * PX_LIMIT + PX_LIMIT == k * PX_LIMIT) by (nonlinear_arith);
        match segs[k - 1] {
            ShapedSegment::Element { fragment_index, .. } => {
                assert(layouts[fragment_index as int] matches InlineFragmentLayout::Element { instance } ==> instance.in_bounds());
            },
            _ => {},
        }
    }
}

/// Placing elements keeps kinds and bounds.
pub proof fn lemma_placed_keeps(mid: Seq<InlineFragmentLayout>, fin: Seq<InlineFragmentLayout>, line: InlineWrapLine)
    requires
        placed_on_line(mid, fin, line),
        layouts_in_bounds(mid),
        line.geometry_ok(),
        line.box_ok(),
        segments_ordered(line.shaped_segments@, mid.len() as int),
    ensures
        layouts_in_bounds(fin),
        same_kinds(mid, fin),
{
    let segs = line.shaped_segments@;
    assert forall|i: int| 0 <= i < mid.len() implies (#[trigger] fin[i] matches InlineFragmentLayout::Element {
            instance,
        } ==> instance.in_bounds()) && (mid[i] is Element <==> fin[i] is Element) by {
        if exists|k: int| 0 <= k < segs.len() && is_element_segment(segs, k, i) {
            let k = choose|k: int| 0 <= k < segs.len() && is_element_segment(segs, k, i);
            assert(segs[k] is Element);
            assert(fin[i] == placed_entry(mid, line, k));
            lemma_placement_bounds(segs, mid, k);
            assert(k * PX_LIMIT <= wide_limit()) by (nonlinear_arith)
                requires k <= segs.len(), segs.len() <= COUNT_LIMIT;
            assert(mid[i] matches InlineFragmentLayout::Element { instance } ==> instance.in_bounds());
        } else {
            assert(fin[i] == mid[i]);
        }
    }
}

/// Giving baselines keeps kinds.
pub proof fn lemma_baselined_kinds(
    old_layouts: Seq<InlineFragmentLayout>,
    segs: Seq<ShapedSegment>,
    hint: int,
    k: int,
)
    requires
        0 <= k <= segs.len(),
    ensures
        same_kinds(old_layouts, baselined_upto(old_layouts, segs, hint, k)),
    decreases k,
{
    if k > 0 {
        lemma_baselined_kinds(old_layouts, segs, hint, k - 1);
    }
}

/// Giving baselines keeps every measured element within bounds.
pub proof fn lemma_baselined_in_bounds(
    old_layouts: Seq<InlineFragmentLayout>,
    segs: Seq<ShapedSegment>,
    hint: int,
    k: int,
)
    requires
        layouts_in_bounds(old_layouts),
        0 <= hint <= PX_LIMIT,
        0 <= k <= segs.len(),
    ensures
        layouts_in_bounds(baselined_upto(old_layouts, segs, hint, k)),
        baselined_upto(old_layouts, segs, hint, k).len() == old_layouts.len(),
    decreases k,
{
    if k > 0 {
        lemma_baselined_in_bounds(old_layouts, segs, hint, k - 1);
    }
}


/// The slices of a byte range are well formed, and name fragments before `i`.
pub proof fn lemma_line_slices_wf<E>(fs: Seq<InlineFragment<E>>, bs: int, be: int, i: int)
    requires
        content_fits(fs),
        0 <= i <= fs.len(),
    ensures
        slices_wf(fs, spec_line_slices(fs, bs, be, i)),
        spec_line_slices(fs, bs, be, i).len() <= i,
        forall|k: int|
            0 <= k < spec_line_slices(fs, bs, be, i).len() ==> (#[trigger] spec_line_slices(fs, bs, be, i)[k]).fragment_index < i,
    decreases i,
{
    if i > 0 {
        lemma_line_slices_wf(fs, bs, be, i - 1);
        let prev = spec_line_slices(fs, bs, be, i - 1);
        match spec_slice_for(fs, i - 1, bs, be) {
            Some(sl) => {
                let cur = prev.push(sl);
                lemma_fragment_within_total(fs, i - 1);
                let s = bytes_before(fs, i - 1) as int;
                let e = bytes_before(fs, i) as int;
                let is = imax(bs, s);
                let ie = imin(be, e);
                match fs[i - 1] {
                    InlineFragment::Text { text, .. } => {
                        crate::text::lemma_floor_le_ceil(text@, is - s, ie - s);
                        crate::text::lemma_ceil_cell_props(text@, ie - s);
                    },
                    InlineFragment::Element { .. } => {},
                }
                assert forall|k: int| 0 <= k < cur.len() implies (#[trigger] cur[k]).fragment_index < i by {
                    if k < prev.len() {
                        assert(cur[k] == prev[k]);
                    }
                }
                assert forall|a: int, b: int| 0 <= a < b < cur.len() implies cur[a].fragment_index < cur[b].fragment_index by {
                    assert(cur[a] == prev[a]);
                    if b < prev.len() {
                        assert(cur[b] == prev[b]);
                    }
                }
                assert forall|k: int| 0 <= k < cur.len() implies {
                    let s = #[trigger] cur[k];
                    &&& s.fragment_index < fs.len()
                    &&& s.logical_start <= s.logical_end <= COUNT_LIMIT
                    &&& fs[s.fragment_index as int] matches InlineFragment::Text { text, .. } ==> s.start_in_fragment
                        <= s.end_in_fragment <= utf8_len(text@)
                } by {
                    if k < prev.len() {
                        assert(cur[k] == prev[k]);
                    }
                }
            },
            None => {},
        }
    }
}

} // verus!
