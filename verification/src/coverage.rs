use vstd::prelude::*;
use crate::text::{utf8_len, cell_offset, ceil_cell, floor_cell, lemma_ceil_cell_unique, lemma_floor_cell_unique, lemma_ceil_cell_props, lemma_cell_offset_strict, lemma_cell_offset_end, lemma_chars_le_bytes, lemma_cell_offset_mono, lemma_floor_ceil_bounded};
use crate::content::InlineFragment;
use crate::wrap_line::InlineWrapLine;
use crate::host::{is_break_position, fragment_break, Boundary};
use crate::line_build::{productive_upto, slice_productive, segment_for};
use crate::wrap_line::ShapedSegment;
use crate::slices::{bytes_before, cells_before, frag_bytes, frag_cells, total_bytes, total_cells, spec_slice_for, spec_line_slices, LogicalSlice, lemma_bytes_before_mono, lemma_cells_before_mono, lemma_fragment_within_total, content_fits, LineFragment, InlineFragmentLayout, line_fragment_of, line_bytes_before};

verus! {

/// Byte `o` of fragment `f` lies between two of its cells, or at one of its
/// ends.
pub open spec fn content_break<E>(f: InlineFragment<E>, o: int) -> bool {
    match f {
        InlineFragment::Text { text, .. } => 0 <= o <= utf8_len(text@) && cell_offset(
            text@,
            ceil_cell(text@, o) as int,
        ) == o,
        InlineFragment::Element { .. } => o == 0 || o == 1,
    }
}

/// Byte `b` of the content lies between two cells of some fragment, or at
/// the edge of one.
pub open spec fn is_content_break<E>(fs: Seq<InlineFragment<E>>, b: int) -> bool {
    exists|i: int| 0 <= i < fs.len() && #[trigger] content_break(fs[i], b - bytes_before(fs, i))
}

/// The cells of fragment `f` that start before its byte `o`.
pub open spec fn cells_started<E>(f: InlineFragment<E>, o: int) -> nat {
    match f {
        InlineFragment::Text { text, .. } => ceil_cell(text@, o),
        InlineFragment::Element { .. } => if o > 0 { 1 } else { 0 },
    }
}

/// The cells of the first `m` fragments that start before byte `b` of the
/// content.
pub open spec fn cells_at_upto<E>(fs: Seq<InlineFragment<E>>, b: int, m: int) -> nat
    decreases m,
{
    if m <= 0 {
        0
    } else {
        cells_at_upto(fs, b, m - 1) + cells_started(fs[m - 1], b - bytes_before(fs, m - 1))
    }
}

/// The logical index at byte `b` of the content: the number of cells that
/// start before it.
pub open spec fn cell_at<E>(fs: Seq<InlineFragment<E>>, b: int) -> nat {
    cells_at_upto(fs, b, fs.len() as int)
}

/// A fragment has all its cells started at or past its end, and none at or
/// before its start.
proof fn lemma_cells_started_edges<E>(f: InlineFragment<E>, o: int)
    ensures
        o >= frag_bytes(f) ==> cells_started(f, o) == frag_cells(f),
        o <= 0 ==> cells_started(f, o) == 0,
        frag_bytes(f) == 0 ==> frag_cells(f) == 0,
{
    match f {
        InlineFragment::Text { text, .. } => {
            let t = text@;
            lemma_chars_le_bytes(t);
            lemma_cell_offset_end(t);
            if o >= utf8_len(t) {
                assert forall|j: int| 0 <= j < t.len() implies cell_offset(t, j) < o by {
                    lemma_cell_offset_strict(t, j, t.len() as int);
                }
                lemma_ceil_cell_unique(t, o, t.len() as int);
            }
            if o <= 0 {
                assert(t.take(0) =~= Seq::<char>::empty());
                lemma_ceil_cell_unique(t, o, 0);
            }
        },
        InlineFragment::Element { .. } => {},
    }
}

/// Fragments that end at or before `b` have all their cells started.
proof fn lemma_cells_at_full<E>(fs: Seq<InlineFragment<E>>, b: int, m: int)
    requires
        0 <= m <= fs.len(),
        b >= bytes_before(fs, m),
    ensures
        cells_at_upto(fs, b, m) == cells_before(fs, m),
    decreases m,
{
    if m > 0 {
        lemma_bytes_before_mono(fs, m - 1, m);
        lemma_cells_at_full(fs, b, m - 1);
        lemma_cells_started_edges(fs[m - 1], b - bytes_before(fs, m - 1));
    }
}

/// Fragments that start at or after `b` have no cells started.
proof fn lemma_cells_at_rest<E>(fs: Seq<InlineFragment<E>>, b: int, k: int, m: int)
    requires
        0 <= k <= m <= fs.len(),
        b <= bytes_before(fs, k),
    ensures
        cells_at_upto(fs, b, m) == cells_at_upto(fs, b, k),
    decreases m,
{
    if m > k {
        lemma_cells_at_rest(fs, b, k, m - 1);
        lemma_bytes_before_mono(fs, k, m - 1);
        lemma_cells_started_edges(fs[m - 1], b - bytes_before(fs, m - 1));
    }
}

/// Within fragment `i`, the logical index is that of the fragment's start
/// plus the cells of the fragment started so far.
pub proof fn lemma_cell_at_within<E>(fs: Seq<InlineFragment<E>>, b: int, i: int)
    requires
        0 <= i < fs.len(),
        bytes_before(fs, i) <= b <= bytes_before(fs, i + 1),
    ensures
        cell_at(fs, b) == cells_before(fs, i) + cells_started(fs[i], b - bytes_before(fs, i)),
{
    lemma_cells_at_full(fs, b, i);
    lemma_cells_at_rest(fs, b, i + 1, fs.len() as int);
}

/// The logical index at the start of the content is zero, and at its end
/// the number of cells.
pub proof fn lemma_cell_at_ends<E>(fs: Seq<InlineFragment<E>>)
    ensures
        cell_at(fs, 0) == 0,
        cell_at(fs, total_bytes(fs) as int) == total_cells(fs),
{
    lemma_cells_at_full(fs, total_bytes(fs) as int, fs.len() as int);
    lemma_cells_at_rest(fs, 0, 0, fs.len() as int);
}


/// Counting cells over more fragments never gives fewer.
proof fn lemma_cells_at_upto_mono<E>(fs: Seq<InlineFragment<E>>, b: int, k: int, m: int)
    requires
        0 <= k <= m,
    ensures
        cells_at_upto(fs, b, k) <= cells_at_upto(fs, b, m),
    decreases m,
{
    if m > k {
        lemma_cells_at_upto_mono(fs, b, k, m - 1);
    }
}

/// No slices among the first `k` fragments means none of them meets the bytes.
proof fn lemma_no_slices<E>(fs: Seq<InlineFragment<E>>, bs: int, be: int, k: int)
    requires
        spec_line_slices(fs, bs, be, k).len() == 0,
    ensures
        forall|j: int| 0 <= j < k ==> spec_slice_for(fs, j, bs, be) is None,
    decreases k,
{
    if k > 0 {
        lemma_slices_len_mono(fs, bs, be, k - 1);
        lemma_no_slices(fs, bs, be, k - 1);
    }
}

/// Slices over more fragments are never fewer.
proof fn lemma_slices_len_mono<E>(fs: Seq<InlineFragment<E>>, bs: int, be: int, k: int)
    requires
        0 <= k,
    ensures
        spec_line_slices(fs, bs, be, k).len() <= spec_line_slices(fs, bs, be, k + 1).len(),
{
}

/// The first slice comes from the first fragment that meets the bytes.
proof fn lemma_first_slice<E>(fs: Seq<InlineFragment<E>>, bs: int, be: int, m: int) -> (i0: int)
    requires
        0 <= m,
        spec_line_slices(fs, bs, be, m).len() > 0,
    ensures
        0 <= i0 < m,
        spec_slice_for(fs, i0, bs, be) == Some(spec_line_slices(fs, bs, be, m)[0]),
        forall|j: int| 0 <= j < i0 ==> spec_slice_for(fs, j, bs, be) is None,
    decreases m,
{
    let prev = spec_line_slices(fs, bs, be, m - 1);
    if prev.len() > 0 {
        let i0 = lemma_first_slice(fs, bs, be, m - 1);
        i0
    } else {
        lemma_no_slices(fs, bs, be, m - 1);
        m - 1
    }
}

/// The last slice comes from the last fragment that meets the bytes.
proof fn lemma_last_slice<E>(fs: Seq<InlineFragment<E>>, bs: int, be: int, m: int) -> (i1: int)
    requires
        0 <= m,
        spec_line_slices(fs, bs, be, m).len() > 0,
    ensures
        0 <= i1 < m,
        spec_slice_for(fs, i1, bs, be) == Some(spec_line_slices(fs, bs, be, m).last()),
        forall|j: int| i1 < j < m ==> spec_slice_for(fs, j, bs, be) is None,
    decreases m,
{
    match spec_slice_for(fs, m - 1, bs, be) {
        Some(sl) => m - 1,
        None => {
            let i1 = lemma_last_slice(fs, bs, be, m - 1);
            i1
        },
    }
}

/// Every fragment before the first one meeting `[bs, be)` ends at or before `bs`.
proof fn lemma_before_first<E>(fs: Seq<InlineFragment<E>>, bs: int, be: int, i0: int)
    requires
        0 <= i0 <= fs.len(),
        0 <= bs < be,
        forall|j: int| 0 <= j < i0 ==> spec_slice_for(fs, j, bs, be) is None,
    ensures
        bytes_before(fs, i0) <= bs,
    decreases i0,
{
    if i0 > 0 {
        lemma_before_first(fs, bs, be, i0 - 1);
        assert(spec_slice_for(fs, i0 - 1, bs, be) is None);
    }
}

/// Every fragment after the last one meeting `[bs, be)` starts at or after `be`.
proof fn lemma_after_last<E>(fs: Seq<InlineFragment<E>>, bs: int, be: int, k: int)
    requires
        0 <= k <= fs.len(),
        bs < be <= bytes_before(fs, fs.len() as int),
        forall|j: int| k <= j < fs.len() ==> spec_slice_for(fs, j, bs, be) is None,
    ensures
        bytes_before(fs, k) >= be,
    decreases fs.len() - k,
{
    if k < fs.len() {
        lemma_after_last(fs, bs, be, k + 1);
        assert(spec_slice_for(fs, k, bs, be) is None);
    }
}

/// The fragment holding byte `b` of the content.
proof fn lemma_locate<E>(fs: Seq<InlineFragment<E>>, b: int, m: int) -> (i: int)
    requires
        0 <= m <= fs.len(),
        0 <= b < bytes_before(fs, m),
    ensures
        0 <= i < m,
        bytes_before(fs, i) <= b < bytes_before(fs, i + 1),
    decreases m,
{
    if b >= bytes_before(fs, m - 1) {
        m - 1
    } else {
        let i = lemma_locate(fs, b, m - 1);
        i
    }
}

/// At a cell boundary of a text, the floor and ceiling cells agree.
proof fn lemma_boundary_floor_ceil(t: Seq<char>, o: int)
    requires
        0 <= o,
        cell_offset(t, ceil_cell(t, o) as int) == o,
    ensures
        floor_cell(t, o) == ceil_cell(t, o),
{
    let c = ceil_cell(t, o) as int;
    lemma_ceil_cell_props(t, o);
    if c < t.len() {
        lemma_cell_offset_strict(t, c, c + 1);
    }
    lemma_floor_cell_unique(t, o, c);
}

/// The slices of bytes `[bs, be)` of the content, starting at the start of
/// the content or at a break, run from the logical index at `bs` to the one
/// at `be`, which is larger; the first puts something on the line.
pub proof fn lemma_line_slices_span<E>(fs: Seq<InlineFragment<E>>, bs: int, be: int)
    requires
        content_fits(fs),
        0 <= bs < be <= total_bytes(fs),
        bs == 0 || is_content_break(fs, bs),
    ensures
        ({
            let sl = spec_line_slices(fs, bs, be, fs.len() as int);
            &&& sl.len() > 0
            &&& sl[0].logical_start == cell_at(fs, bs)
            &&& sl.last().logical_end == cell_at(fs, be)
            &&& fs[sl[0].fragment_index as int] is Text ==> sl[0].start_in_fragment < sl[0].end_in_fragment
        }),
        cell_at(fs, bs) < cell_at(fs, be),
{
    let n = fs.len() as int;
    let sl = spec_line_slices(fs, bs, be, n);
    let ib = lemma_locate(fs, bs, n);
    if sl.len() == 0 {
        lemma_no_slices(fs, bs, be, n);
        assert(spec_slice_for(fs, ib, bs, be) is None);
    }
    let i0 = lemma_first_slice(fs, bs, be, n);
    let i1 = lemma_last_slice(fs, bs, be, n);
    lemma_before_first(fs, bs, be, i0);
    lemma_after_last(fs, bs, be, i1 + 1);
    lemma_fragment_within_total(fs, i0);
    lemma_fragment_within_total(fs, i1);
    let s0 = bytes_before(fs, i0) as int;
    let e0 = bytes_before(fs, i0 + 1) as int;
    let s1 = bytes_before(fs, i1) as int;
    let e1 = bytes_before(fs, i1 + 1) as int;
    assert(bs < e0);
    assert(s1 < be);
    lemma_cell_at_within(fs, bs, i0);
    lemma_cell_at_within(fs, be, i1);
    let c0 = cells_before(fs, i0) as int;
    // the start of the line
    match fs[i0] {
        InlineFragment::Text { text, .. } => {
            let t = text@;
            let o = bs - s0;
            lemma_floor_ceil_bounded(t, o, o);
            if bs == 0 {
                lemma_cells_started_edges(fs[i0], o);
                assert(t.take(0) =~= Seq::<char>::empty());
                if t.len() > 0 {
                    lemma_cell_offset_strict(t, 0, 1);
                }
                lemma_floor_cell_unique(t, o, 0);
            } else {
                let w = choose|w: int| 0 <= w < fs.len() && #[trigger] content_break(fs[w], bs - bytes_before(fs, w));
                if w < i0 {
                    lemma_bytes_before_mono(fs, w + 1, i0);
                    assert(bytes_before(fs, w + 1) == bytes_before(fs, w) + frag_bytes(fs[w]));
                    assert(bs - bytes_before(fs, w) <= frag_bytes(fs[w]));
                    assert(o == 0);
                    lemma_cells_started_edges(fs[i0], o);
                    assert(t.take(0) =~= Seq::<char>::empty());
                    if t.len() > 0 {
                        lemma_cell_offset_strict(t, 0, 1);
                    }
                    lemma_floor_cell_unique(t, o, 0);
                } else if w > i0 {
                    lemma_bytes_before_mono(fs, i0 + 1, w);
                    assert(false);
                } else {
                    lemma_boundary_floor_ceil(t, o);
                }
            }
        },
        InlineFragment::Element { .. } => {},
    }
    // the end of the line
    match fs[i1] {
        InlineFragment::Text { text, .. } => {
            lemma_floor_ceil_bounded(text@, be - s1, be - s1);
        },
        InlineFragment::Element { .. } => {},
    }
    // the line is not empty
    let cs = cell_at(fs, bs) as int;
    let ce = cell_at(fs, be) as int;
    lemma_cells_before_mono(fs, i0, i0 + 1);
    if be >= e0 {
        lemma_cells_at_full(fs, be, i0 + 1);
        lemma_cells_at_upto_mono(fs, be, i0 + 1, n);
        match fs[i0] {
            InlineFragment::Text { text, .. } => {
                let t = text@;
                let c = ceil_cell(t, bs - s0) as int;
                lemma_ceil_cell_props(t, bs - s0);
                lemma_cell_offset_end(t);
                assert(cells_before(fs, i0 + 1) == c0 + t.len());
                lemma_start_cell_inside(fs, bs, i0);
            },
            InlineFragment::Element { .. } => {},
        }
    } else {
        match fs[i0] {
            InlineFragment::Text { text, .. } => {
                assert(i1 == i0) by {
                    if i1 > i0 {
                        lemma_bytes_before_mono(fs, i0 + 1, i1);
                    }
                    if i1 < i0 {
                        lemma_bytes_before_mono(fs, i1 + 1, i0);
                    }
                }
                let t = text@;
                lemma_start_cell_inside(fs, bs, i0);
                let c = ceil_cell(t, bs - s0) as int;
                let d = ceil_cell(t, be - s0) as int;
                lemma_ceil_cell_props(t, be - s0);
                if d <= c {
                    lemma_cell_offset_mono(t, d, c);
                }
            },
            InlineFragment::Element { .. } => {
                assert(false);
            },
        }
    }
}

/// Where a line starts inside a text fragment, at its start or at a break,
/// the cell it starts at is a cell of the fragment whose boundary is there.
proof fn lemma_start_cell_inside<E>(fs: Seq<InlineFragment<E>>, bs: int, i0: int)
    requires
        0 <= i0 < fs.len(),
        bytes_before(fs, i0) <= bs < bytes_before(fs, i0 + 1),
        bs == 0 || is_content_break(fs, bs),
        fs[i0] is Text,
    ensures
        ({
            let t = fs[i0]->Text_text@;
            let o = bs - bytes_before(fs, i0);
            &&& ceil_cell(t, o) < t.len()
            &&& cell_offset(t, ceil_cell(t, o) as int) == o
        }),
{
    let t = fs[i0]->Text_text@;
    let s0 = bytes_before(fs, i0) as int;
    let o = bs - s0;
    lemma_cell_offset_end(t);
    lemma_ceil_cell_props(t, o);
    if bs != 0 {
        let w = choose|w: int| 0 <= w < fs.len() && #[trigger] content_break(fs[w], bs - bytes_before(fs, w));
        if w < i0 {
            lemma_bytes_before_mono(fs, w + 1, i0);
            assert(bytes_before(fs, w + 1) == bytes_before(fs, w) + frag_bytes(fs[w]));
            assert(o == 0);
        } else if w > i0 {
            lemma_bytes_before_mono(fs, i0 + 1, w);
            assert(false);
        }
    }
    if o == 0 {
        assert(t.take(0) =~= Seq::<char>::empty());
        lemma_ceil_cell_unique(t, o, 0);
    }
    let c = ceil_cell(t, o) as int;
    if c == t.len() {
        assert(cell_offset(t, c) == utf8_len(t));
        assert(bytes_before(fs, i0 + 1) == s0 + utf8_len(t));
    }
}

/// The lines cover the logical cells `[0, end)` in order: each is non-empty
/// and starts where the one before it ends, the first at zero and the last
/// at `end`; there are none when `end` is zero.
pub open spec fn lines_chain(lines: Seq<InlineWrapLine>, end: int) -> bool {
    &&& forall|j: int| 0 <= j < lines.len() ==> (#[trigger] lines[j]).logical_start < lines[j].logical_end
    &&& forall|j: int| 0 < j < lines.len() ==> lines[j - 1].logical_end == (#[trigger] lines[j]).logical_start
    &&& lines.len() > 0 ==> lines[0].logical_start == 0 && lines.last().logical_end == end
    &&& lines.len() == 0 ==> end == 0
}

/// A break the line wrapper reports in the line fragments is a break of the
/// content.
pub proof fn lemma_wrapper_break_in_content<E>(
    fs: Seq<InlineFragment<E>>,
    layouts: Seq<InlineFragmentLayout>,
    lfs: Seq<LineFragment>,
    b: int,
)
    requires
        lfs.len() == fs.len(),
        layouts.len() == fs.len(),
        forall|k: int| 0 <= k < fs.len() ==> #[trigger] lfs[k] == line_fragment_of(fs[k], layouts[k]),
        forall|i: int| 0 <= i <= fs.len() ==> #[trigger] line_bytes_before(lfs, i) == bytes_before(fs, i),
        is_break_position(lfs, b),
    ensures
        is_content_break(fs, b),
{
    let i = choose|i: int| 0 <= i < lfs.len() && #[trigger] fragment_break(lfs[i], b - line_bytes_before(lfs, i));
    assert(lfs[i] == line_fragment_of(fs[i], layouts[i]));
    assert(line_bytes_before(lfs, i) == bytes_before(fs, i));
    assert(content_break(fs[i], b - bytes_before(fs, i)));
}

/// An empty byte range has no slices.
pub proof fn lemma_empty_range_slices<E>(fs: Seq<InlineFragment<E>>, b: int, m: int)
    ensures
        spec_line_slices(fs, b, b, m).len() == 0,
    decreases m,
{
    if m > 0 {
        lemma_empty_range_slices(fs, b, m - 1);
    }
}

/// When the first slice puts something on the line, some slice does.
pub proof fn lemma_productive_first<E>(
    fs: Seq<InlineFragment<E>>,
    layouts: Seq<InlineFragmentLayout>,
    slices: Seq<LogicalSlice>,
    k: int,
)
    requires
        1 <= k <= slices.len(),
        slice_productive(fs, layouts, slices[0]),
    ensures
        productive_upto(fs, layouts, slices, k).len() > 0,
    decreases k,
{
    if k > 1 {
        lemma_productive_first(fs, layouts, slices, k - 1);
    } else {
        assert(productive_upto(fs, layouts, slices, 0).len() == 0);
    }
}

/// A non-empty line that starts where the lines end extends them.
pub proof fn lemma_chain_push(lines: Seq<InlineWrapLine>, line: InlineWrapLine, start: int, end: int)
    requires
        lines_chain(lines, start),
        line.logical_start == start,
        start < end,
        line.logical_end == end,
    ensures
        lines_chain(lines.push(line), end),
{
    let next = lines.push(line);
    assert forall|j: int| 0 <= j < next.len() implies (#[trigger] next[j]).logical_start < next[j].logical_end by {
        if j < lines.len() {
            assert(next[j] == lines[j]);
        }
    }
    assert forall|j: int| 0 < j < next.len() implies next[j - 1].logical_end == (#[trigger] next[j]).logical_start by {
        if j < lines.len() {
            assert(next[j] == lines[j]);
            assert(next[j - 1] == lines[j - 1]);
        } else {
            assert(next[j - 1] == lines[j - 1]);
        }
    }
    if lines.len() > 0 {
        assert(next[0] == lines[0]);
    }
}

/// Every inline element on the lines occupies exactly one logical cell.
pub open spec fn elements_single_cell(lines: Seq<InlineWrapLine>) -> bool {
    forall|j: int, k: int|
        #![trigger lines[j].shaped_segments@[k]]
        0 <= j < lines.len() && 0 <= k < lines[j].shaped_segments@.len() && lines[j].shaped_segments@[k] is Element
            ==> lines[j].shaped_segments@[k].spec_logical_end() == lines[j].shaped_segments@[k].spec_logical_start() + 1
}

/// A slice of an element fragment spans exactly one logical cell.
pub open spec fn slice_single_cell<E>(fs: Seq<InlineFragment<E>>, sl: LogicalSlice) -> bool {
    fs[sl.fragment_index as int] is Element ==> sl.logical_end == sl.logical_start + 1
}

/// The slices of a byte range give each element a single cell.
pub proof fn lemma_slices_single_cell<E>(fs: Seq<InlineFragment<E>>, bs: int, be: int, m: int)
    requires
        content_fits(fs),
        0 <= m <= fs.len(),
    ensures
        forall|q: int|
            0 <= q < spec_line_slices(fs, bs, be, m).len() ==> slice_single_cell(
                fs,
                #[trigger] spec_line_slices(fs, bs, be, m)[q],
            ),
    decreases m,
{
    if m > 0 {
        lemma_slices_single_cell(fs, bs, be, m - 1);
        let prev = spec_line_slices(fs, bs, be, m - 1);
        let cur = spec_line_slices(fs, bs, be, m);
        lemma_fragment_within_total(fs, m - 1);
        assert forall|q: int| 0 <= q < cur.len() implies slice_single_cell(fs, #[trigger] cur[q]) by {
            if q < prev.len() {
                assert(cur[q] == prev[q]);
            }
        }
    }
}

/// The segments made from single-cell slices give each element a single cell.
pub proof fn lemma_segments_single_cell<E>(
    fs: Seq<InlineFragment<E>>,
    layouts: Seq<InlineFragmentLayout>,
    prod: Seq<LogicalSlice>,
    segs: Seq<ShapedSegment>,
)
    requires
        segs.len() == prod.len(),
        forall|k: int| 0 <= k < segs.len() ==> segment_for(fs, layouts, prod[k], #[trigger] segs[k]),
        forall|q: int| 0 <= q < prod.len() ==> slice_single_cell(fs, #[trigger] prod[q]),
    ensures
        forall|k: int|
            0 <= k < segs.len() && (#[trigger] segs[k]) is Element ==> segs[k].spec_logical_end()
                == segs[k].spec_logical_start() + 1,
{
    assert forall|k: int| 0 <= k < segs.len() && (#[trigger] segs[k]) is Element implies segs[k].spec_logical_end()
        == segs[k].spec_logical_start() + 1 by {
        assert(segment_for(fs, layouts, prod[k], segs[k]));
        assert(slice_single_cell(fs, prod[k]));
    }
}

/// Adding a line whose elements each occupy one cell keeps that property.
pub proof fn lemma_single_cell_push(lines: Seq<InlineWrapLine>, line: InlineWrapLine)
    requires
        elements_single_cell(lines),
        forall|k: int|
            0 <= k < line.shaped_segments@.len() && (#[trigger] line.shaped_segments@[k]) is Element
                ==> line.shaped_segments@[k].spec_logical_end() == line.shaped_segments@[k].spec_logical_start() + 1,
    ensures
        elements_single_cell(lines.push(line)),
{
    let next = lines.push(line);
    assert forall|j: int, k: int|
        #![trigger next[j].shaped_segments@[k]]
        0 <= j < next.len() && 0 <= k < next[j].shaped_segments@.len() && next[j].shaped_segments@[k] is Element
            implies next[j].shaped_segments@[k].spec_logical_end() == next[j].shaped_segments@[k].spec_logical_start()
            + 1 by {
        if j < lines.len() {
            assert(next[j] == lines[j]);
        } else {
            assert(next[j] == line);
        }
    }
}

/// The lines follow the wrapper's breaks `bs`: the first line starts
/// unindented, each later line starts at the logical index of the break
/// before it and is indented by that break's indent in spaces of
/// `space_width`, and every line is at least `hint` tall.
pub open spec fn lines_follow_breaks<E>(
    lines: Seq<InlineWrapLine>,
    fs: Seq<InlineFragment<E>>,
    bs: Seq<Boundary>,
    space_width: int,
    hint: int,
) -> bool {
    &&& forall|j: int| 0 <= j < lines.len() ==> (#[trigger] lines[j]).height >= hint
    &&& lines.len() > 0 ==> lines[0].indent_px == 0
    &&& forall|j: int|
        0 < j < lines.len() ==> (#[trigger] lines[j]).logical_start == cell_at(fs, bs[j - 1].ix as int)
            && lines[j].indent_px == space_width * bs[j - 1].next_indent
}

/// A line built for the next break keeps the lines following the breaks.
pub proof fn lemma_follow_push<E>(
    lines: Seq<InlineWrapLine>,
    line: InlineWrapLine,
    fs: Seq<InlineFragment<E>>,
    bs: Seq<Boundary>,
    space_width: int,
    hint: int,
)
    requires
        lines_follow_breaks(lines, fs, bs, space_width, hint),
        line.height >= hint,
        lines.len() == 0 ==> line.indent_px == 0,
        lines.len() > 0 ==> line.logical_start == cell_at(fs, bs[lines.len() - 1].ix as int) && line.indent_px
            == space_width * bs[lines.len() - 1].next_indent,
    ensures
        lines_follow_breaks(lines.push(line), fs, bs, space_width, hint),
{
    let next = lines.push(line);
    assert forall|j: int| 0 <= j < next.len() implies (#[trigger] next[j]).height >= hint by {
        if j < lines.len() {
            assert(next[j] == lines[j]);
        }
    }
    assert forall|j: int| 0 < j < next.len() implies (#[trigger] next[j]).logical_start == cell_at(
        fs,
        bs[j - 1].ix as int,
    ) && next[j].indent_px == space_width * bs[j - 1].next_indent by {
        if j < lines.len() {
            assert(next[j] == lines[j]);
        }
    }
    if lines.len() > 0 {
        assert(next[0] == lines[0]);
    }
}

} // verus!
