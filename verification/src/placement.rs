use vstd::prelude::*;
use crate::content::InlineFragment;
use crate::slices::{InlineFragmentLayout, LogicalSlice, bytes_before, spec_line_slices, content_fits};
use crate::wrap_line::{InlineWrapLine, ShapedSegment};
use crate::line_build::{placed, placement_before, placement_advance, placed_on_line, placed_entry, baselined_upto,
    is_element_segment, productive_upto, segment_for};

verus! {

/// Element segment `k` of `line` is placed in `layouts`: its fragment holds a
/// measured element whose left edge is where the segment starts on the line
/// and whose top is where its alignment puts it on the line.
pub open spec fn element_placed(layouts: Seq<InlineFragmentLayout>, line: InlineWrapLine, k: int) -> bool {
    let segs = line.shaped_segments@;
    match layouts[segs[k].spec_fragment_index() as int] {
        InlineFragmentLayout::Element { instance } => instance == placed(
            instance,
            line.line_origin.x + placement_before(segs, layouts, k),
            line,
        ),
        InlineFragmentLayout::Text => false,
    }
}

/// Every inline element on the lines is placed in `layouts`.
pub open spec fn elements_placed(lines: Seq<InlineWrapLine>, layouts: Seq<InlineFragmentLayout>) -> bool {
    forall|j: int, k: int|
        #![trigger lines[j].shaped_segments@[k]]
        0 <= j < lines.len() && 0 <= k < lines[j].shaped_segments@.len() && lines[j].shaped_segments@[k] is Element
            ==> element_placed(layouts, lines[j], k)
}

/// Every inline element on the lines is a fragment of the layouts that
/// starts before byte `b` of the content.
pub open spec fn elements_before<E>(
    lines: Seq<InlineWrapLine>,
    fs: Seq<InlineFragment<E>>,
    n: int,
    b: int,
) -> bool {
    forall|j: int, k: int|
        #![trigger lines[j].shaped_segments@[k]]
        0 <= j < lines.len() && 0 <= k < lines[j].shaped_segments@.len() && lines[j].shaped_segments@[k] is Element
            ==> lines[j].shaped_segments@[k].spec_fragment_index() < n && bytes_before(
                fs,
                lines[j].shaped_segments@[k].spec_fragment_index() as int,
            ) < b
}

/// A slice names a fragment, and the byte of an element lies in `[bs, be)`.
pub open spec fn slice_element_within<E>(fs: Seq<InlineFragment<E>>, sl: LogicalSlice, bs: int, be: int) -> bool {
    &&& sl.fragment_index < fs.len()
    &&& fs[sl.fragment_index as int] is Element ==> bs <= bytes_before(fs, sl.fragment_index as int) < be
}

/// The slices of bytes `[bs, be)` name fragments, and their elements' bytes lie within.
pub proof fn lemma_slices_element_within<E>(fs: Seq<InlineFragment<E>>, bs: int, be: int, m: int)
    requires
        content_fits(fs),
        0 <= m <= fs.len(),
    ensures
        forall|q: int|
            0 <= q < spec_line_slices(fs, bs, be, m).len() ==> slice_element_within(
                fs,
                #[trigger] spec_line_slices(fs, bs, be, m)[q],
                bs,
                be,
            ),
    decreases m,
{
    if m > 0 {
        lemma_slices_element_within(fs, bs, be, m - 1);
        let prev = spec_line_slices(fs, bs, be, m - 1);
        let cur = spec_line_slices(fs, bs, be, m);
        assert forall|q: int| 0 <= q < cur.len() implies slice_element_within(fs, #[trigger] cur[q], bs, be) by {
            if q < prev.len() {
                assert(cur[q] == prev[q]);
            } else {
                assert(bytes_before(fs, m) == bytes_before(fs, m - 1) + 1 || !(fs[m - 1] is Element));
            }
        }
    }
}

/// What holds of every slice holds of the productive ones.
pub proof fn lemma_productive_keeps<E>(
    fs: Seq<InlineFragment<E>>,
    layouts: Seq<InlineFragmentLayout>,
    slices: Seq<LogicalSlice>,
    k: int,
    pred: spec_fn(LogicalSlice) -> bool,
)
    requires
        0 <= k <= slices.len(),
        forall|q: int| 0 <= q < slices.len() ==> pred(#[trigger] slices[q]),
    ensures
        forall|q: int|
            0 <= q < productive_upto(fs, layouts, slices, k).len() ==> pred(
                #[trigger] productive_upto(fs, layouts, slices, k)[q],
            ),
    decreases k,
{
    if k > 0 {
        lemma_productive_keeps(fs, layouts, slices, k - 1, pred);
        let prev = productive_upto(fs, layouts, slices, k - 1);
        let cur = productive_upto(fs, layouts, slices, k);
        assert forall|q: int| 0 <= q < cur.len() implies pred(#[trigger] cur[q]) by {
            if q < prev.len() {
                assert(cur[q] == prev[q]);
            } else {
                assert(cur[q] == slices[k - 1]);
            }
        }
    }
}

/// The element segments made from slices within `[bs, be)` are elements of
/// fragments whose bytes lie within, measured in the layouts.
pub proof fn lemma_segments_within<E>(
    fs: Seq<InlineFragment<E>>,
    layouts: Seq<InlineFragmentLayout>,
    prod: Seq<LogicalSlice>,
    segs: Seq<ShapedSegment>,
    bs: int,
    be: int,
)
    requires
        segs.len() == prod.len(),
        forall|k: int| 0 <= k < segs.len() ==> segment_for(fs, layouts, prod[k], #[trigger] segs[k]),
        forall|q: int| 0 <= q < prod.len() ==> slice_element_within(fs, #[trigger] prod[q], bs, be),
    ensures
        forall|k: int|
            0 <= k < segs.len() && (#[trigger] segs[k]) is Element ==> {
                let fi = segs[k].spec_fragment_index() as int;
                &&& fi < fs.len()
                &&& fs[fi] is Element
                &&& layouts[fi] is Element
                &&& bs <= bytes_before(fs, fi) < be
            },
{
    assert forall|k: int| 0 <= k < segs.len() && (#[trigger] segs[k]) is Element implies {
        let fi = segs[k].spec_fragment_index() as int;
        &&& fi < fs.len()
        &&& fs[fi] is Element
        &&& layouts[fi] is Element
        &&& bs <= bytes_before(fs, fi) < be
    } by {
        assert(segment_for(fs, layouts, prod[k], segs[k]));
        assert(slice_element_within(fs, prod[k], bs, be));
    }
}

/// Placement advances agree where the layouts agree on the segments' elements.
proof fn lemma_placement_before_frame(
    segs: Seq<ShapedSegment>,
    a: Seq<InlineFragmentLayout>,
    b: Seq<InlineFragmentLayout>,
    k: int,
)
    requires
        0 <= k <= segs.len(),
        forall|m: int| 0 <= m < k ==> placement_advance(#[trigger] segs[m], a) == placement_advance(segs[m], b),
    ensures
        placement_before(segs, a, k) == placement_before(segs, b, k),
    decreases k,
{
    if k > 0 {
        lemma_placement_before_frame(segs, a, b, k - 1);
    }
}

/// Giving baselines leaves alone every fragment that no element segment names.
proof fn lemma_baselined_frame_elements(
    old_layouts: Seq<InlineFragmentLayout>,
    segs: Seq<ShapedSegment>,
    hint: int,
    k: int,
    j: int,
)
    requires
        0 <= k <= segs.len(),
        0 <= j < old_layouts.len(),
        forall|m: int| 0 <= m < k && (#[trigger] segs[m]) is Element ==> segs[m].spec_fragment_index() != j,
    ensures
        baselined_upto(old_layouts, segs, hint, k).len() == old_layouts.len(),
        baselined_upto(old_layouts, segs, hint, k)[j] == old_layouts[j],
    decreases k,
{
    if k > 0 {
        lemma_baselined_frame_elements(old_layouts, segs, hint, k - 1, j);
    }
}

/// Giving baselines keeps the kind and size of every fragment.
proof fn lemma_baselined_sizes(
    old_layouts: Seq<InlineFragmentLayout>,
    segs: Seq<ShapedSegment>,
    hint: int,
    k: int,
    j: int,
)
    requires
        0 <= k <= segs.len(),
        0 <= j < old_layouts.len(),
    ensures
        baselined_upto(old_layouts, segs, hint, k).len() == old_layouts.len(),
        match (old_layouts[j], baselined_upto(old_layouts, segs, hint, k)[j]) {
            (InlineFragmentLayout::Element { instance: a }, InlineFragmentLayout::Element { instance: b }) => a.size
                == b.size && a.align == b.align,
            (InlineFragmentLayout::Text, InlineFragmentLayout::Text) => true,
            _ => false,
        },
    decreases k,
{
    if k > 0 {
        lemma_baselined_sizes(old_layouts, segs, hint, k - 1, j);
    }
}

/// Building a line that places its elements, all of whose bytes lie at or
/// after `bs` while those of the elements already placed lie before it,
/// keeps the earlier elements where they were and places the new ones.
pub proof fn lemma_placed_push<E>(
    fs: Seq<InlineFragment<E>>,
    lines: Seq<InlineWrapLine>,
    line: InlineWrapLine,
    old_layouts: Seq<InlineFragmentLayout>,
    new_layouts: Seq<InlineFragmentLayout>,
    hint: int,
    bs: int,
    be: int,
)
    requires
        old_layouts.len() == fs.len(),
        elements_placed(lines, old_layouts),
        elements_before(lines, fs, fs.len() as int, bs),
        bs <= be,
        forall|k: int|
            0 <= k < line.shaped_segments@.len() && (#[trigger] line.shaped_segments@[k]) is Element ==> {
                let fi = line.shaped_segments@[k].spec_fragment_index() as int;
                &&& fi < fs.len()
                &&& old_layouts[fi] is Element
                &&& bs <= bytes_before(fs, fi) < be
            },
        placed_on_line(
            baselined_upto(old_layouts, line.shaped_segments@, hint, line.shaped_segments@.len() as int),
            new_layouts,
            line,
        ),
    ensures
        elements_placed(lines.push(line), new_layouts),
        elements_before(lines.push(line), fs, fs.len() as int, be),
{
    let segs = line.shaped_segments@;
    let n = segs.len() as int;
    let base = baselined_upto(old_layouts, segs, hint, n);
    let next = lines.push(line);
    // fragments that are not elements of the new line keep their layout
    assert forall|i: int|
        0 <= i < old_layouts.len() && (forall|m: int|
            0 <= m < n && (#[trigger] segs[m]) is Element ==> segs[m].spec_fragment_index() != i) implies new_layouts[i]
        == old_layouts[i] by {
        lemma_baselined_frame_elements(old_layouts, segs, hint, n, i);
        assert forall|m: int| 0 <= m < n implies !is_element_segment(segs, m, i) by {
            if segs[m] is Element {
                assert(segs[m].spec_fragment_index() != i);
            }
        }
    }
    // the new line's elements keep their sizes when placed
    assert forall|m: int| 0 <= m < n implies placement_advance(#[trigger] segs[m], new_layouts) == placement_advance(
        segs[m],
        base,
    ) by {
        if segs[m] is Element {
            let fi = segs[m].spec_fragment_index() as int;
            lemma_baselined_sizes(old_layouts, segs, hint, n, fi);
            assert(new_layouts[fi] == placed_entry(base, line, m));
        }
    }
    assert forall|j: int, k: int|
        #![trigger next[j].shaped_segments@[k]]
        0 <= j < next.len() && 0 <= k < next[j].shaped_segments@.len() && next[j].shaped_segments@[k] is Element
            implies element_placed(new_layouts, next[j], k) && next[j].shaped_segments@[k].spec_fragment_index()
            < fs.len() && bytes_before(fs, next[j].shaped_segments@[k].spec_fragment_index() as int) < be by {
        if j < lines.len() {
            let old_line = lines[j];
            assert(next[j] == old_line);
            let osegs = old_line.shaped_segments@;
            let fi = osegs[k].spec_fragment_index() as int;
            assert(element_placed(old_layouts, old_line, k));
            // the new line's elements all start at or after `bs`, the old ones before it
            assert forall|m: int| 0 <= m < n && (#[trigger] segs[m]) is Element implies segs[m].spec_fragment_index()
                != fi by {
                assert(bs <= bytes_before(fs, segs[m].spec_fragment_index() as int));
            }
            assert(new_layouts[fi] == old_layouts[fi]);
            assert forall|m: int| 0 <= m < k implies placement_advance(#[trigger] osegs[m], new_layouts)
                == placement_advance(osegs[m], old_layouts) by {
                if osegs[m] is Element {
                    let fm = osegs[m].spec_fragment_index() as int;
                    assert(lines[j].shaped_segments@[m] is Element);
                    assert(bytes_before(fs, fm) < bs);
                    assert forall|p: int| 0 <= p < n && (#[trigger] segs[p]) is Element implies segs[p].spec_fragment_index()
                        != fm by {
                        assert(bs <= bytes_before(fs, segs[p].spec_fragment_index() as int));
                    }
                    assert(new_layouts[fm] == old_layouts[fm]);
                }
            }
            lemma_placement_before_frame(osegs, new_layouts, old_layouts, k);
        } else {
            assert(next[j] == line);
            let fi = segs[k].spec_fragment_index() as int;
            lemma_baselined_sizes(old_layouts, segs, hint, n, fi);
            assert(new_layouts[fi] == placed_entry(base, line, k));
            assert forall|m: int| 0 <= m < k implies placement_advance(#[trigger] segs[m], new_layouts)
                == placement_advance(segs[m], base) by {
                assert(placement_advance(segs[m], new_layouts) == placement_advance(segs[m], base));
            }
            lemma_placement_before_frame(segs, new_layouts, base, k);
        }
    }
}

/// `b` keeps the measurements of `a`: the same kinds, and each element the
/// same size and alignment, and its baseline offset when it had one.
pub open spec fn keeps_measures(a: Seq<InlineFragmentLayout>, b: Seq<InlineFragmentLayout>) -> bool {
    &&& a.len() == b.len()
    &&& forall|i: int| 0 <= i < a.len() ==> keeps_measure(#[trigger] a[i], b[i])
}

/// `y` keeps the measurement of `x`.
pub open spec fn keeps_measure(x: InlineFragmentLayout, y: InlineFragmentLayout) -> bool {
    match (x, y) {
        (InlineFragmentLayout::Element { instance: p }, InlineFragmentLayout::Element { instance: q }) => p.size
            == q.size && p.align == q.align && (p.baseline_offset is Some ==> q.baseline_offset == p.baseline_offset),
        (InlineFragmentLayout::Text, InlineFragmentLayout::Text) => true,
        _ => false,
    }
}

/// Keeping measurements composes.
pub proof fn lemma_keeps_trans(a: Seq<InlineFragmentLayout>, b: Seq<InlineFragmentLayout>, c: Seq<InlineFragmentLayout>)
    requires
        keeps_measures(a, b),
        keeps_measures(b, c),
    ensures
        keeps_measures(a, c),
{
    assert forall|i: int| 0 <= i < a.len() implies keeps_measure(#[trigger] a[i], c[i]) by {
        assert(keeps_measure(a[i], b[i]));
        assert(keeps_measure(b[i], c[i]));
    }
}

/// Layouts keep their own measurements.
pub proof fn lemma_keeps_refl(a: Seq<InlineFragmentLayout>)
    ensures
        keeps_measures(a, a),
{
    assert forall|i: int| 0 <= i < a.len() implies keeps_measure(#[trigger] a[i], a[i]) by {}
}

/// Giving baselines keeps measurements.
proof fn lemma_baselined_keeps(old_layouts: Seq<InlineFragmentLayout>, segs: Seq<ShapedSegment>, hint: int, k: int)
    requires
        0 <= k <= segs.len(),
    ensures
        keeps_measures(old_layouts, baselined_upto(old_layouts, segs, hint, k)),
    decreases k,
{
    if k == 0 {
        lemma_keeps_refl(old_layouts);
    } else {
        lemma_baselined_keeps(old_layouts, segs, hint, k - 1);
        let prev = baselined_upto(old_layouts, segs, hint, k - 1);
        let cur = baselined_upto(old_layouts, segs, hint, k);
        assert forall|i: int| 0 <= i < old_layouts.len() implies keeps_measure(#[trigger] old_layouts[i], cur[i]) by {
            assert(keeps_measure(old_layouts[i], prev[i]));
        }
    }
}

/// Building a line, which gives baselines and places elements, keeps measurements.
pub proof fn lemma_line_keeps(
    old_layouts: Seq<InlineFragmentLayout>,
    new_layouts: Seq<InlineFragmentLayout>,
    line: InlineWrapLine,
    hint: int,
)
    requires
        placed_on_line(
            baselined_upto(old_layouts, line.shaped_segments@, hint, line.shaped_segments@.len() as int),
            new_layouts,
            line,
        ),
    ensures
        keeps_measures(old_layouts, new_layouts),
{
    let segs = line.shaped_segments@;
    let base = baselined_upto(old_layouts, segs, hint, segs.len() as int);
    lemma_baselined_keeps(old_layouts, segs, hint, segs.len() as int);
    assert forall|i: int| 0 <= i < base.len() implies keeps_measure(#[trigger] base[i], new_layouts[i]) by {
        if exists|k: int| 0 <= k < segs.len() && is_element_segment(segs, k, i) {
            let k = choose|k: int| 0 <= k < segs.len() && is_element_segment(segs, k, i);
            assert(segs[k] is Element);
            assert(new_layouts[i] == placed_entry(base, line, k));
        } else {
            assert(new_layouts[i] == base[i]);
        }
    }
    lemma_keeps_trans(old_layouts, base, new_layouts);
}

} // verus!
