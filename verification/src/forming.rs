use vstd::prelude::*;
use crate::content::{InlineFragment, InlineElementAlign, InlineElementInstance};
use crate::geometry::Pixels;
use crate::slices::{InlineFragmentLayout, LogicalSlice};
use crate::wrap_line::{InlineWrapLine, ShapedSegment, widths_before};
use crate::line_build::{
    baselined_upto, effective_offset, is_element_segment, max_aligned_upto, max_ascent_upto, max_descent_upto,
    placed_entry, placed_on_line, productive_upto, seg_aligned_height, seg_ascent, seg_descent, segment_for,
    slice_productive, slices_wf, spec_baseline, spec_line_height, auto_offset,
};
use crate::placement::{keeps_measures, keeps_measure, lemma_productive_keeps};

verus! {

/// `y` gives the baseline that `x` gives on a line with hint `hint`.
pub open spec fn same_effective(x: InlineFragmentLayout, y: InlineFragmentLayout, hint: int) -> bool {
    match (x, y) {
        (InlineFragmentLayout::Element { instance: p }, InlineFragmentLayout::Element { instance: q }) =>
            effective_offset(p, hint) == effective_offset(q, hint),
        _ => true,
    }
}

/// `b` keeps the measurements of `a` and the baselines its elements get on
/// lines with hint `hint`.
pub open spec fn keeps_effective(a: Seq<InlineFragmentLayout>, b: Seq<InlineFragmentLayout>, hint: int) -> bool {
    &&& keeps_measures(a, b)
    &&& forall|i: int| 0 <= i < a.len() ==> same_effective(#[trigger] a[i], b[i], hint)
}

/// A line as its slices form it in `layouts`: a segment for each slice that
/// puts something on the line, the advance of its segments as its width, and
/// its height and baseline from the segments' ascents, descents and aligned
/// heights.
pub open spec fn line_formed<E>(
    fs: Seq<InlineFragment<E>>,
    layouts: Seq<InlineFragmentLayout>,
    line: InlineWrapLine,
    hint: int,
) -> bool {
    let segs = line.shaped_segments@;
    let slices = line.logical_slices@;
    let prod = productive_upto(fs, layouts, slices, slices.len() as int);
    let a = max_ascent_upto(segs, layouts, hint, segs.len() as int);
    let d = max_descent_upto(segs, layouts, hint, segs.len() as int);
    let m = max_aligned_upto(segs, layouts, segs.len() as int);
    &&& slices_wf(fs, slices)
    &&& segs.len() == prod.len()
    &&& forall|k: int| 0 <= k < segs.len() ==> segment_for(fs, layouts, prod[k], #[trigger] segs[k])
    &&& line.width == widths_before(segs, segs.len() as int)
    &&& line.height == spec_line_height(a, d, m, hint)
    &&& line.baseline_above_top == spec_baseline(a, d, m, hint)
}

/// Layouts keep their own measurements and baselines.
pub proof fn lemma_effective_refl(a: Seq<InlineFragmentLayout>, hint: int)
    ensures
        keeps_effective(a, a, hint),
{
    crate::placement::lemma_keeps_refl(a);
}

/// Keeping measurements and baselines composes.
pub proof fn lemma_effective_trans(
    a: Seq<InlineFragmentLayout>,
    b: Seq<InlineFragmentLayout>,
    c: Seq<InlineFragmentLayout>,
    hint: int,
)
    requires
        keeps_effective(a, b, hint),
        keeps_effective(b, c, hint),
    ensures
        keeps_effective(a, c, hint),
{
    crate::placement::lemma_keeps_trans(a, b, c);
    assert forall|i: int| 0 <= i < a.len() implies same_effective(#[trigger] a[i], c[i], hint) by {
        assert(same_effective(a[i], b[i], hint));
        assert(same_effective(b[i], c[i], hint));
        assert(keeps_measure(a[i], b[i]));
        assert(keeps_measure(b[i], c[i]));
    }
}

/// Giving baselines keeps measurements and baselines.
proof fn lemma_baselined_effective(old_layouts: Seq<InlineFragmentLayout>, segs: Seq<ShapedSegment>, hint: int, k: int)
    requires
        0 <= k <= segs.len(),
    ensures
        keeps_effective(old_layouts, baselined_upto(old_layouts, segs, hint, k), hint),
    decreases k,
{
    if k == 0 {
        lemma_effective_refl(old_layouts, hint);
    } else {
        lemma_baselined_effective(old_layouts, segs, hint, k - 1);
        let prev = baselined_upto(old_layouts, segs, hint, k - 1);
        let cur = baselined_upto(old_layouts, segs, hint, k);
        assert forall|i: int| 0 <= i < old_layouts.len() implies keeps_measure(#[trigger] old_layouts[i], cur[i])
            && same_effective(old_layouts[i], cur[i], hint) by {
            assert(keeps_measure(old_layouts[i], prev[i]));
            assert(same_effective(old_layouts[i], prev[i], hint));
        }
    }
}

/// Building a line, which gives baselines and places elements, keeps
/// measurements and baselines.
pub proof fn lemma_line_effective(
    old_layouts: Seq<InlineFragmentLayout>,
    new_layouts: Seq<InlineFragmentLayout>,
    line: InlineWrapLine,
    hint: int,
)
    requires
        placed_on_line(
            baselined_upto(old_layouts, line.shaped_segments@, hint, line.shaped_segments@.len() as int),
            new_layouts,
            line,
        ),
    ensures
        keeps_effective(old_layouts, new_layouts, hint),
{
    let segs = line.shaped_segments@;
    let base = baselined_upto(old_layouts, segs, hint, segs.len() as int);
    lemma_baselined_effective(old_layouts, segs, hint, segs.len() as int);
    assert forall|i: int| 0 <= i < base.len() implies keeps_measure(#[trigger] base[i], new_layouts[i])
        && same_effective(base[i], new_layouts[i], hint) by {
        if exists|k: int| 0 <= k < segs.len() && is_element_segment(segs, k, i) {
            let k = choose|k: int| 0 <= k < segs.len() && is_element_segment(segs, k, i);
            assert(segs[k] is Element);
            assert(new_layouts[i] == placed_entry(base, line, k));
        } else {
            assert(new_layouts[i] == base[i]);
        }
    }
    lemma_effective_trans(old_layouts, base, new_layouts, hint);
}

/// Which slices put something on a line depends on the kinds alone.
proof fn lemma_productive_effective<E>(
    fs: Seq<InlineFragment<E>>,
    a: Seq<InlineFragmentLayout>,
    b: Seq<InlineFragmentLayout>,
    slices: Seq<LogicalSlice>,
    k: int,
    hint: int,
)
    requires
        keeps_effective(a, b, hint),
        a.len() == fs.len(),
        slices_wf(fs, slices),
        0 <= k <= slices.len(),
    ensures
        productive_upto(fs, a, slices, k) == productive_upto(fs, b, slices, k),
    decreases k,
{
    if k > 0 {
        lemma_productive_effective(fs, a, b, slices, k - 1, hint);
        let s = slices[k - 1];
        assert(s.fragment_index < fs.len());
        assert(keeps_measure(a[s.fragment_index as int], b[s.fragment_index as int]));
        assert(slice_productive(fs, a, s) == slice_productive(fs, b, s));
    }
}

/// The line maxima depend on the measurements and baselines alone.
proof fn lemma_maxima_effective(
    segs: Seq<ShapedSegment>,
    a: Seq<InlineFragmentLayout>,
    b: Seq<InlineFragmentLayout>,
    hint: int,
    k: int,
)
    requires
        keeps_effective(a, b, hint),
        forall|q: int| 0 <= q < segs.len() ==> (#[trigger] segs[q]).spec_fragment_index() < a.len(),
        0 <= k <= segs.len(),
    ensures
        max_ascent_upto(segs, a, hint, k) == max_ascent_upto(segs, b, hint, k),
        max_descent_upto(segs, a, hint, k) == max_descent_upto(segs, b, hint, k),
        max_aligned_upto(segs, a, k) == max_aligned_upto(segs, b, k),
    decreases k,
{
    if k > 0 {
        lemma_maxima_effective(segs, a, b, hint, k - 1);
        let seg = segs[k - 1];
        let i = seg.spec_fragment_index() as int;
        assert(i < a.len());
        assert(keeps_measure(a[i], b[i]));
        assert(same_effective(a[i], b[i], hint));
        assert(seg_ascent(seg, a, hint) == seg_ascent(seg, b, hint));
        assert(seg_descent(seg, a, hint) == seg_descent(seg, b, hint));
        assert(seg_aligned_height(seg, a) == seg_aligned_height(seg, b));
    }
}

/// A line formed in `a` is formed the same way in any layouts that keep the
/// measurements and baselines of `a`.
pub proof fn lemma_formed_effective<E>(
    fs: Seq<InlineFragment<E>>,
    a: Seq<InlineFragmentLayout>,
    b: Seq<InlineFragmentLayout>,
    line: InlineWrapLine,
    hint: int,
)
    requires
        keeps_effective(a, b, hint),
        a.len() == fs.len(),
        line_formed(fs, a, line, hint),
    ensures
        line_formed(fs, b, line, hint),
{
    let segs = line.shaped_segments@;
    let slices = line.logical_slices@;
    let prod = productive_upto(fs, a, slices, slices.len() as int);
    lemma_productive_effective(fs, a, b, slices, slices.len() as int, hint);
    lemma_productive_keeps(fs, a, slices, slices.len() as int, |s: LogicalSlice| s.fragment_index < fs.len());
    assert forall|q: int| 0 <= q < segs.len() implies (#[trigger] segs[q]).spec_fragment_index() < a.len() by {
        assert(segment_for(fs, a, prod[q], segs[q]));
        assert(prod[q].fragment_index < fs.len());
    }
    lemma_maxima_effective(segs, a, b, hint, segs.len() as int);
    assert forall|k: int| 0 <= k < segs.len() implies segment_for(fs, b, prod[k], #[trigger] segs[k]) by {
        assert(segment_for(fs, a, prod[k], segs[k]));
        let i = prod[k].fragment_index as int;
        assert(i < fs.len());
        assert(keeps_measure(a[i], b[i]));
    }
}

/// Appending a line built in `pre`, which leaves `post`, keeps every line
/// formed in the layouts.
pub proof fn lemma_formed_push<E>(
    fs: Seq<InlineFragment<E>>,
    before: Seq<InlineWrapLine>,
    line: InlineWrapLine,
    pre: Seq<InlineFragmentLayout>,
    post: Seq<InlineFragmentLayout>,
    hint: int,
)
    requires
        pre.len() == fs.len(),
        forall|j: int| 0 <= j < before.len() ==> line_formed(fs, pre, #[trigger] before[j], hint),
        line_formed(fs, pre, line, hint),
        placed_on_line(
            baselined_upto(pre, line.shaped_segments@, hint, line.shaped_segments@.len() as int),
            post,
            line,
        ),
    ensures
        keeps_effective(pre, post, hint),
        forall|j: int| 0 <= j < before.len() + 1 ==> line_formed(fs, post, #[trigger] before.push(line)[j], hint),
{
    lemma_line_effective(pre, post, line, hint);
    assert forall|j: int| 0 <= j < before.len() + 1 implies line_formed(fs, post, #[trigger] before.push(line)[j], hint) by {
        if j < before.len() {
            lemma_formed_effective(fs, pre, post, before[j], hint);
        } else {
            lemma_formed_effective(fs, pre, post, line, hint);
        }
    }
}

/// What giving baselines makes of a fragment layout: an `Auto` element
/// without a baseline offset gets half its height when it fits the hint,
/// else its full height; anything else stays as it is.
pub open spec fn baselined_entry(x: InlineFragmentLayout, hint: int) -> InlineFragmentLayout {
    match x {
        InlineFragmentLayout::Element { instance } => if instance.align == InlineElementAlign::Auto
            && instance.baseline_offset is None {
            InlineFragmentLayout::Element {
                instance: InlineElementInstance {
                    baseline_offset: Some(auto_offset(instance.size.height as int, hint) as Pixels),
                    ..instance
                },
            }
        } else {
            x
        },
        InlineFragmentLayout::Text => x,
    }
}

/// Giving baselines leaves each layout as it was or gives it its baseline.
proof fn lemma_baselined_either(
    pre: Seq<InlineFragmentLayout>,
    segs: Seq<ShapedSegment>,
    hint: int,
    m: int,
    i: int,
)
    requires
        0 <= m <= segs.len(),
        0 <= i < pre.len(),
    ensures
        baselined_upto(pre, segs, hint, m).len() == pre.len(),
        baselined_upto(pre, segs, hint, m)[i] == pre[i] || baselined_upto(pre, segs, hint, m)[i]
            == baselined_entry(pre[i], hint),
    decreases m,
{
    if m > 0 {
        lemma_baselined_either(pre, segs, hint, m - 1, i);
    }
}

/// The fragment of an element segment among the first `m` has its baseline.
proof fn lemma_baselined_at(pre: Seq<InlineFragmentLayout>, segs: Seq<ShapedSegment>, hint: int, m: int, k: int)
    requires
        0 <= k < m <= segs.len(),
        segs[k] is Element,
        segs[k].spec_fragment_index() < pre.len(),
    ensures
        baselined_upto(pre, segs, hint, m)[segs[k].spec_fragment_index() as int] == baselined_entry(
            pre[segs[k].spec_fragment_index() as int],
            hint,
        ),
    decreases m,
{
    let fi = segs[k].spec_fragment_index() as int;
    lemma_baselined_either(pre, segs, hint, m - 1, fi);
    if m - 1 > k {
        lemma_baselined_at(pre, segs, hint, m - 1, k);
    }
    lemma_baselined_either(pre, segs, hint, m, fi);
}

/// Building a line gives the baseline of each `Auto` element on it: an
/// element on the line keeps its size and alignment, and its baseline
/// offset is the one it had, or, for an `Auto` element that had none, half
/// its height when it fits the line height hint, else its full height.
pub proof fn law_build_line_baselines(
    pre: Seq<InlineFragmentLayout>,
    post: Seq<InlineFragmentLayout>,
    line: InlineWrapLine,
    hint: int,
    k: int,
)
    requires
        placed_on_line(
            baselined_upto(pre, line.shaped_segments@, hint, line.shaped_segments@.len() as int),
            post,
            line,
        ),
        0 <= k < line.shaped_segments@.len(),
        line.shaped_segments@[k] is Element,
        line.shaped_segments@[k].spec_fragment_index() < pre.len(),
    ensures
        ({
            let fi = line.shaped_segments@[k].spec_fragment_index() as int;
            pre[fi] matches InlineFragmentLayout::Element { instance: p } ==> post[fi] matches InlineFragmentLayout::Element {
                instance: q,
            } && q.size == p.size && q.align == p.align && q.baseline_offset == if p.align == InlineElementAlign::Auto
                && p.baseline_offset is None {
                Some(auto_offset(p.size.height as int, hint) as Pixels)
            } else {
                p.baseline_offset
            }
        }),
{
    let segs = line.shaped_segments@;
    lemma_baselined_at(pre, segs, hint, segs.len() as int, k);
}

/// Every `Auto` element on the lines has a baseline offset in `layouts`.
pub open spec fn auto_baselined(lines: Seq<InlineWrapLine>, layouts: Seq<InlineFragmentLayout>) -> bool {
    forall|j: int, k: int|
        #![trigger lines[j].shaped_segments@[k]]
        0 <= j < lines.len() && 0 <= k < lines[j].shaped_segments@.len() && lines[j].shaped_segments@[k] is Element
            ==> lines[j].shaped_segments@[k].spec_fragment_index() < layouts.len() && auto_has_offset(
            layouts[lines[j].shaped_segments@[k].spec_fragment_index() as int],
        )
}

/// An `Auto` element has a baseline offset.
pub open spec fn auto_has_offset(x: InlineFragmentLayout) -> bool {
    match x {
        InlineFragmentLayout::Element { instance } => instance.align == InlineElementAlign::Auto
            ==> instance.baseline_offset is Some,
        InlineFragmentLayout::Text => true,
    }
}

/// The fragment indices of a formed line's segments are fragments of the content.
pub proof fn lemma_formed_indices<E>(
    fs: Seq<InlineFragment<E>>,
    a: Seq<InlineFragmentLayout>,
    line: InlineWrapLine,
    hint: int,
)
    requires
        line_formed(fs, a, line, hint),
    ensures
        forall|q: int|
            0 <= q < line.shaped_segments@.len() ==> (#[trigger] line.shaped_segments@[q]).spec_fragment_index()
                < fs.len(),
{
    let segs = line.shaped_segments@;
    let slices = line.logical_slices@;
    let prod = productive_upto(fs, a, slices, slices.len() as int);
    lemma_productive_keeps(fs, a, slices, slices.len() as int, |s: LogicalSlice| s.fragment_index < fs.len());
    assert forall|q: int| 0 <= q < segs.len() implies (#[trigger] segs[q]).spec_fragment_index() < fs.len() by {
        assert(segment_for(fs, a, prod[q], segs[q]));
        assert(prod[q].fragment_index < fs.len());
    }
}

/// Appending a line built in `pre`, which leaves `post`, keeps every `Auto`
/// element on the lines with a baseline offset.
pub proof fn lemma_baselined_push<E>(
    fs: Seq<InlineFragment<E>>,
    before: Seq<InlineWrapLine>,
    line: InlineWrapLine,
    pre: Seq<InlineFragmentLayout>,
    post: Seq<InlineFragmentLayout>,
    hint: int,
)
    requires
        pre.len() == fs.len(),
        auto_baselined(before, pre),
        line_formed(fs, pre, line, hint),
        placed_on_line(
            baselined_upto(pre, line.shaped_segments@, hint, line.shaped_segments@.len() as int),
            post,
            line,
        ),
        keeps_measures(pre, post),
    ensures
        auto_baselined(before.push(line), post),
{
    lemma_formed_indices(fs, pre, line, hint);
    let lines = before.push(line);
    assert forall|j: int, k: int|
        0 <= j < lines.len() && 0 <= k < lines[j].shaped_segments@.len() && (#[trigger] lines[j].shaped_segments@[k]) is Element
            implies lines[j].shaped_segments@[k].spec_fragment_index() < post.len() && auto_has_offset(
        post[lines[j].shaped_segments@[k].spec_fragment_index() as int],
    ) by {
        if j < before.len() {
            assert(lines[j] == before[j]);
            assert(before[j].shaped_segments@[k] is Element);
            let fi = before[j].shaped_segments@[k].spec_fragment_index() as int;
            assert(keeps_measure(pre[fi], post[fi]));
        } else {
            assert(lines[j] == line);
            let fi = line.shaped_segments@[k].spec_fragment_index() as int;
            law_build_line_baselines(pre, post, line, hint, k);
            assert(keeps_measure(pre[fi], post[fi]));
        }
    }
}

/// Where the layouts keep the measurements and baselines of `resolved` and
/// every `Auto` element on the lines has a baseline offset, that offset is
/// the baseline the element's resolved layout gives: its own offset, or
/// the default for one that had none.
pub proof fn lemma_recorded_baselines(
    lines: Seq<InlineWrapLine>,
    resolved: Seq<InlineFragmentLayout>,
    layouts: Seq<InlineFragmentLayout>,
    hint: int,
)
    requires
        keeps_effective(resolved, layouts, hint),
        auto_baselined(lines, layouts),
    ensures
        baselines_recorded(lines, resolved, layouts, hint),
{
    assert forall|j: int, k: int|
        0 <= j < lines.len() && 0 <= k < lines[j].shaped_segments@.len() && (#[trigger] lines[j].shaped_segments@[k]) is Element
            implies recorded_baseline(resolved, layouts, lines[j].shaped_segments@[k].spec_fragment_index() as int, hint) by {
        let fi = lines[j].shaped_segments@[k].spec_fragment_index() as int;
        assert(keeps_measure(resolved[fi], layouts[fi]));
        assert(same_effective(resolved[fi], layouts[fi], hint));
    }
}

/// The layout of fragment `i` records the baseline its resolved layout
/// gives, for an `Auto` element.
pub open spec fn recorded_baseline(
    resolved: Seq<InlineFragmentLayout>,
    layouts: Seq<InlineFragmentLayout>,
    i: int,
    hint: int,
) -> bool {
    match resolved[i] {
        InlineFragmentLayout::Element { instance: p } => p.align == InlineElementAlign::Auto ==> (
        layouts[i] matches InlineFragmentLayout::Element { instance: q } && q.baseline_offset == Some(
            effective_offset(p, hint) as Pixels,
        )),
        InlineFragmentLayout::Text => true,
    }
}

/// Every `Auto` element on the lines records in `layouts` the baseline its
/// layout in `resolved` gives: its own offset, or, where it had none, half
/// its height when that fits the hint, else its full height.
pub open spec fn baselines_recorded(
    lines: Seq<InlineWrapLine>,
    resolved: Seq<InlineFragmentLayout>,
    layouts: Seq<InlineFragmentLayout>,
    hint: int,
) -> bool {
    forall|j: int, k: int|
        #![trigger lines[j].shaped_segments@[k]]
        0 <= j < lines.len() && 0 <= k < lines[j].shaped_segments@.len() && lines[j].shaped_segments@[k] is Element
            ==> recorded_baseline(resolved, layouts, lines[j].shaped_segments@[k].spec_fragment_index() as int, hint)
}

} // verus!
