use vstd::prelude::*;
use crate::geometry::{Pixels, COUNT_LIMIT};
use crate::style::SharedString;
use crate::text::{utf8_len, cell_offset, cell_boundaries, lemma_cell_offset_strict,
    lemma_cell_offset_end, floor_cell, ceil_cell, lemma_floor_cell_unique, lemma_ceil_cell_unique,
    lemma_floor_ceil_bounded};
use crate::content::{InlineContent, InlineFragment, InlineElementInstance};

verus! {

/// Runtime layout state of one fragment.
#[derive(Clone, Copy, Debug, PartialEq, Eq, Structural)]
pub enum InlineFragmentLayout {
    /// A text fragment.
    Text,
    /// A measured inline element.
    Element {
        /// The measured element.
        instance: InlineElementInstance,
    },
}

/// A fragment as the line wrapper sees it.
#[derive(Clone, Debug, PartialEq, Eq)]
pub enum LineFragment {
    /// Text that may be broken between characters.
    Text {
        /// The text.
        text: SharedString,
    },
    /// An unbreakable element.
    Element {
        /// Its width.
        width: Pixels,
        /// The number of bytes it stands for in the wrapped byte sequence.
        len_utf8: usize,
    },
}

/// The logical cells of a fragment: `[logical_start, logical_end)`.
#[derive(Clone, Copy, Debug, PartialEq, Eq, Structural)]
pub struct FragmentLogicalRange {
    /// The fragment.
    pub fragment_index: usize,
    /// Logical index of the fragment's first cell.
    pub logical_start: usize,
    /// Logical index after the fragment's last cell.
    pub logical_end: usize,
}

/// Byte offsets of the cell boundaries of a text fragment.
#[derive(Clone, Debug, PartialEq, Eq)]
pub struct TextFragmentCells {
    /// `0`, then the end of each character.
    pub offsets: Vec<usize>,
}

/// The part of one fragment that falls on a line.
#[derive(Clone, Copy, Debug, PartialEq, Eq, Structural)]
pub struct LogicalSlice {
    /// The fragment.
    pub fragment_index: usize,
    /// First byte of the part within the fragment.
    pub start_in_fragment: usize,
    /// Byte after the part within the fragment.
    pub end_in_fragment: usize,
    /// Logical index of the part's first cell.
    pub logical_start: usize,
    /// Logical index after the part's last cell.
    pub logical_end: usize,
}

/// The bytes a fragment occupies in the wrapped byte sequence: its UTF-8
/// length for text, one for an element.
pub open spec fn frag_bytes<E>(f: InlineFragment<E>) -> nat {
    match f {
        InlineFragment::Text { text, .. } => utf8_len(text@),
        InlineFragment::Element { .. } => 1,
    }
}

/// The logical cells a fragment occupies: one per character of text, one
/// for an element.
pub open spec fn frag_cells<E>(f: InlineFragment<E>) -> nat {
    match f {
        InlineFragment::Text { text, .. } => text@.len(),
        InlineFragment::Element { .. } => 1,
    }
}

/// The bytes of the first `i` fragments.
pub open spec fn bytes_before<E>(fs: Seq<InlineFragment<E>>, i: int) -> nat
    decreases i,
{
    if i <= 0 {
        0
    } else {
        bytes_before(fs, i - 1) + frag_bytes(fs[i - 1])
    }
}

/// The logical cells of the first `i` fragments.
pub open spec fn cells_before<E>(fs: Seq<InlineFragment<E>>, i: int) -> nat
    decreases i,
{
    if i <= 0 {
        0
    } else {
        cells_before(fs, i - 1) + frag_cells(fs[i - 1])
    }
}

/// The total number of logical cells of the content.
pub open spec fn total_cells<E>(fs: Seq<InlineFragment<E>>) -> nat {
    cells_before(fs, fs.len() as int)
}

/// The total number of bytes of the content.
pub open spec fn total_bytes<E>(fs: Seq<InlineFragment<E>>) -> nat {
    bytes_before(fs, fs.len() as int)
}

/// The content is small enough for every byte and cell count to fit the layout.
pub open spec fn content_fits<E>(fs: Seq<InlineFragment<E>>) -> bool {
    &&& fs.len() <= COUNT_LIMIT
    &&& total_bytes(fs) <= COUNT_LIMIT
    &&& total_cells(fs) <= COUNT_LIMIT
}

/// Prefix sums of bytes do not decrease.
pub proof fn lemma_bytes_before_mono<E>(fs: Seq<InlineFragment<E>>, i: int, j: int)
    requires
        0 <= i <= j <= fs.len(),
    ensures
        bytes_before(fs, i) <= bytes_before(fs, j),
    decreases j - i,
{
    if i < j {
        lemma_bytes_before_mono(fs, i, j - 1);
    }
}

/// Prefix sums of cells do not decrease.
pub proof fn lemma_cells_before_mono<E>(fs: Seq<InlineFragment<E>>, i: int, j: int)
    requires
        0 <= i <= j <= fs.len(),
    ensures
        cells_before(fs, i) <= cells_before(fs, j),
    decreases j - i,
{
    if i < j {
        lemma_cells_before_mono(fs, i, j - 1);
    }
}

/// No fragment has more bytes or cells than the whole content.
pub proof fn lemma_fragment_within_total<E>(fs: Seq<InlineFragment<E>>, i: int)
    requires
        0 <= i < fs.len(),
    ensures
        frag_bytes(fs[i]) <= total_bytes(fs),
        frag_cells(fs[i]) <= total_cells(fs),
        bytes_before(fs, i + 1) <= total_bytes(fs),
        cells_before(fs, i + 1) <= total_cells(fs),
{
    lemma_bytes_before_mono(fs, i + 1, fs.len() as int);
    lemma_cells_before_mono(fs, i + 1, fs.len() as int);
}

/// The logical range of each fragment and the cell boundaries of each text
/// fragment are those of the content.
pub open spec fn ranges_match<E>(
    fs: Seq<InlineFragment<E>>,
    ranges: Seq<FragmentLogicalRange>,
    cells: Seq<Option<TextFragmentCells>>,
) -> bool {
    &&& ranges.len() == fs.len()
    &&& cells.len() == fs.len()
    &&& forall|i: int|
        0 <= i < fs.len() ==> #[trigger] ranges[i] == (FragmentLogicalRange {
            fragment_index: i as usize,
            logical_start: cells_before(fs, i) as usize,
            logical_end: cells_before(fs, i + 1) as usize,
        })
    &&& forall|i: int|
        0 <= i < fs.len() ==> match #[trigger] fs[i] {
            InlineFragment::Text { text, .. } => cells[i] matches Some(c) && c.offsets@.len()
                == text@.len() + 1 && forall|k: int|
                0 <= k <= text@.len() ==> #[trigger] c.offsets@[k] == cell_offset(text@, k),
            InlineFragment::Element { .. } => cells[i] is None,
        }
}

/// The line fragment of each content fragment: the same text, or an element
/// of the measured width standing for one byte.
pub open spec fn line_fragment_of<E>(f: InlineFragment<E>, layout: InlineFragmentLayout) -> LineFragment {
    match f {
        InlineFragment::Text { text, .. } => LineFragment::Text { text },
        InlineFragment::Element { .. } => LineFragment::Element {
            width: match layout {
                InlineFragmentLayout::Element { instance } => instance.size.width,
                InlineFragmentLayout::Text => 0,
            },
            len_utf8: 1,
        },
    }
}

/// The line fragments of the content with the given fragment layouts.
pub open spec fn spec_line_fragments<E>(fs: Seq<InlineFragment<E>>, layouts: Seq<InlineFragmentLayout>) -> Seq<LineFragment> {
    Seq::new(fs.len(), |i: int| line_fragment_of(fs[i], layouts[i]))
}

/// The bytes a line fragment occupies.
pub open spec fn line_fragment_bytes(f: LineFragment) -> nat {
    match f {
        LineFragment::Text { text } => utf8_len(text@),
        LineFragment::Element { len_utf8, .. } => len_utf8 as nat,
    }
}

/// The bytes of the first `i` line fragments.
pub open spec fn line_bytes_before(fs: Seq<LineFragment>, i: int) -> nat
    decreases i,
{
    if i <= 0 {
        0
    } else {
        line_bytes_before(fs, i - 1) + line_fragment_bytes(fs[i - 1])
    }
}

/// The line fragments, logical ranges and cell boundaries of the content.
pub fn build_line_fragments<E>(
    content: &InlineContent<E>,
    layouts: &Vec<InlineFragmentLayout>,
) -> (r: (Vec<LineFragment>, Vec<FragmentLogicalRange>, Vec<Option<TextFragmentCells>>))
    requires
        layouts@.len() == content.fragments@.len(),
        content_fits(content.fragments@),
    ensures
        r.0@.len() == content.fragments@.len(),
        forall|i: int|
            0 <= i < content.fragments@.len() ==> #[trigger] r.0@[i] == line_fragment_of(
                content.fragments@[i],
                layouts@[i],
            ),
        ranges_match(content.fragments@, r.1@, r.2@),
{
    let fs = &content.fragments;
    let n = fs.len();
    let mut line_fragments: Vec<LineFragment> = Vec::new();
    let mut ranges: Vec<FragmentLogicalRange> = Vec::new();
    let mut cells: Vec<Option<TextFragmentCells>> = Vec::new();
    let mut logical_index: usize = 0;
    let mut ix: usize = 0;
    while ix < n
        invariant
            n == fs@.len(),
            fs == content.fragments,
            layouts@.len() == n,
            content_fits(fs@),
            ix <= n,
            logical_index == cells_before(fs@, ix as int),
            line_fragments@.len() == ix,
            ranges@.len() == ix,
            cells@.len() == ix,
            forall|i: int|
                0 <= i < ix ==> #[trigger] line_fragments@[i] == line_fragment_of(
                    fs@[i],
                    layouts@[i],
                ),
            forall|i: int|
                0 <= i < ix ==> #[trigger] ranges@[i] == (FragmentLogicalRange {
                    fragment_index: i as usize,
                    logical_start: cells_before(fs@, i) as usize,
                    logical_end: cells_before(fs@, i + 1) as usize,
                }),
            forall|i: int|
                0 <= i < ix ==> match #[trigger] fs@[i] {
                    InlineFragment::Text { text, .. } => cells@[i] matches Some(c)
                        && c.offsets@.len() == text@.len() + 1 && forall|k: int|
                        0 <= k <= text@.len() ==> #[trigger] c.offsets@[k] == cell_offset(
                            text@,
                            k,
                        ),
                    InlineFragment::Element { .. } => cells@[i] is None,
                },
        decreases n - ix,
    {
        proof {
            lemma_cells_before_mono(fs@, ix + 1, n as int);
            lemma_bytes_before_mono(fs@, ix + 1, n as int);
        }
        match &fs[ix] {
            InlineFragment::Text { text, .. } => {
                proof {
                    assert(utf8_len(text@) <= bytes_before(fs@, ix + 1));
                }
                let text_str = text.as_str();
                line_fragments.push(LineFragment::Text { text: text.clone() });
                let offsets = cell_boundaries(text_str);
                let count = offsets.len() - 1;
                let logical_start = logical_index;
                logical_index = logical_index + count;
                ranges.push(
                    FragmentLogicalRange {
                        fragment_index: ix,
                        logical_start,
                        logical_end: logical_index,
                    },
                );
                cells.push(Some(TextFragmentCells { offsets }));
            },
            InlineFragment::Element { .. } => {
                let width = match &layouts[ix] {
                    InlineFragmentLayout::Element { instance } => instance.size.width,
                    InlineFragmentLayout::Text => 0,
                };
                line_fragments.push(LineFragment::Element { width, len_utf8: 1 });
                ranges.push(
                    FragmentLogicalRange {
                        fragment_index: ix,
                        logical_start: logical_index,
                        logical_end: logical_index + 1,
                    },
                );
                logical_index = logical_index + 1;
                cells.push(None);
            },
        }
        ix = ix + 1;
    }
    (line_fragments, ranges, cells)
}

/// The total number of bytes the line fragments occupy.
pub fn total_byte_len(fragments: &Vec<LineFragment>) -> (r: usize)
    requires
        line_bytes_before(fragments@, fragments@.len() as int) <= usize::MAX,
    ensures
        r == line_bytes_before(fragments@, fragments@.len() as int),
{
    let n = fragments.len();
    let mut total: usize = 0;
    let mut i: usize = 0;
    while i < n
        invariant
            n == fragments@.len(),
            i <= n,
            total == line_bytes_before(fragments@, i as int),
            line_bytes_before(fragments@, n as int) <= usize::MAX,
        decreases n - i,
    {
        proof {
            lemma_line_bytes_before_mono(fragments@, i + 1, n as int);
        }
        let len = match &fragments[i] {
            LineFragment::Text { text } => crate::text::byte_len(text.as_str()),
            LineFragment::Element { len_utf8, .. } => *len_utf8,
        };
        total = total + len;
        i = i + 1;
    }
    total
}

/// Prefix sums of line fragment bytes do not decrease.
pub proof fn lemma_line_bytes_before_mono(fs: Seq<LineFragment>, i: int, j: int)
    requires
        0 <= i <= j <= fs.len(),
    ensures
        line_bytes_before(fs, i) <= line_bytes_before(fs, j),
    decreases j - i,
{
    if i < j {
        lemma_line_bytes_before_mono(fs, i, j - 1);
    }
}

/// The overlap of `[a_start, a_end)` and `[b_start, b_end)`, when non-empty.
pub open spec fn spec_intersect(a: (int, int), b: (int, int)) -> Option<(int, int)> {
    let start = if a.0 >= b.0 { a.0 } else { b.0 };
    let end = if a.1 <= b.1 { a.1 } else { b.1 };
    if start < end { Some((start, end)) } else { None }
}

/// The overlap of two ranges, when it is not empty.
pub fn intersect_ranges(a: core::ops::Range<usize>, b: core::ops::Range<usize>) -> (r: Option<core::ops::Range<usize>>)
    ensures
        match spec_intersect((a.start as int, a.end as int), (b.start as int, b.end as int)) {
            Some((s, e)) => r matches Some(x) && x.start == s && x.end == e,
            None => r is None,
        },
{
    let start = if a.start >= b.start { a.start } else { b.start };
    let end = if a.end <= b.end { a.end } else { b.end };
    if start < end {
        Some(start..end)
    } else {
        None
    }
}


/// The values of `offsets` increase strictly.
pub open spec fn strictly_increasing(offsets: Seq<usize>) -> bool {
    forall|i: int, j: int| 0 <= i < j < offsets.len() ==> offsets[i] < offsets[j]
}

/// Binary search of `target` among strictly increasing offsets: where it is,
/// or where it would be inserted.
pub fn search_offsets(offsets: &Vec<usize>, target: usize) -> (r: Result<usize, usize>)
    requires
        strictly_increasing(offsets@),
    ensures
        match r {
            Ok(k) => k < offsets@.len() && offsets@[k as int] == target,
            Err(ix) => ix <= offsets@.len() && (forall|j: int|
                0 <= j < ix ==> offsets@[j] < target) && (forall|j: int|
                ix <= j < offsets@.len() ==> offsets@[j] > target),
        },
{
    let mut lo: usize = 0;
    let mut hi: usize = offsets.len();
    while lo < hi
        invariant
            strictly_increasing(offsets@),
            lo <= hi <= offsets@.len(),
            forall|j: int| 0 <= j < lo ==> offsets@[j] < target,
            forall|j: int| hi <= j < offsets@.len() ==> offsets@[j] > target,
        decreases hi - lo,
    {
        let mid = lo + (hi - lo) / 2;
        let v = offsets[mid];
        if v == target {
            return Ok(mid);
        } else if v < target {
            lo = mid + 1;
        } else {
            hi = mid;
        }
    }
    Err(lo)
}

/// The larger of two integers.
pub open spec fn imax(a: int, b: int) -> int {
    if a >= b { a } else { b }
}

/// The smaller of two integers.
pub open spec fn imin(a: int, b: int) -> int {
    if a <= b { a } else { b }
}

/// The part of fragment `i` within bytes `[bs, be)`, if any: for text the
/// bytes it covers and the cells from the one holding its first byte to the
/// first boundary at or after its end; for an element its single cell.
pub open spec fn spec_slice_for<E>(fs: Seq<InlineFragment<E>>, i: int, bs: int, be: int) -> Option<LogicalSlice> {
    let s = bytes_before(fs, i) as int;
    let e = bytes_before(fs, i + 1) as int;
    let is = imax(bs, s);
    let ie = imin(be, e);
    if is < ie {
        Some(
            match fs[i] {
                InlineFragment::Text { text, .. } => LogicalSlice {
                    fragment_index: i as usize,
                    start_in_fragment: (is - s) as usize,
                    end_in_fragment: (ie - s) as usize,
                    logical_start: (cells_before(fs, i) + floor_cell(text@, is - s)) as usize,
                    logical_end: (cells_before(fs, i) + ceil_cell(text@, ie - s)) as usize,
                },
                InlineFragment::Element { .. } => LogicalSlice {
                    fragment_index: i as usize,
                    start_in_fragment: 0,
                    end_in_fragment: 0,
                    logical_start: cells_before(fs, i) as usize,
                    logical_end: cells_before(fs, i + 1) as usize,
                },
            },
        )
    } else {
        None
    }
}

/// The slices of the first `i` fragments that fall within bytes `[bs, be)`, in order.
pub open spec fn spec_line_slices<E>(fs: Seq<InlineFragment<E>>, bs: int, be: int, i: int) -> Seq<LogicalSlice>
    decreases i,
{
    if i <= 0 {
        Seq::empty()
    } else {
        let prev = spec_line_slices(fs, bs, be, i - 1);
        match spec_slice_for(fs, i - 1, bs, be) {
            Some(sl) => prev.push(sl),
            None => prev,
        }
    }
}

/// The slices of every fragment that falls within bytes `[byte_start, byte_end)`
/// of the wrapped byte sequence, in fragment order.
pub fn compute_logical_slices_for_line<E>(
    byte_start: usize,
    byte_end: usize,
    content: &InlineContent<E>,
    ranges: &Vec<FragmentLogicalRange>,
    cells: &Vec<Option<TextFragmentCells>>,
) -> (r: Vec<LogicalSlice>)
    requires
        content_fits(content.fragments@),
        ranges_match(content.fragments@, ranges@, cells@),
    ensures
        r@ == spec_line_slices(
            content.fragments@,
            byte_start as int,
            byte_end as int,
            content.fragments@.len() as int,
        ),
{
    let fs = &content.fragments;
    let n = ranges.len();
    let mut slices: Vec<LogicalSlice> = Vec::new();
    let mut frag_byte_start: usize = 0;
    let mut i: usize = 0;
    while i < n
        invariant
            fs == content.fragments,
            n == fs@.len(),
            content_fits(fs@),
            ranges_match(fs@, ranges@, cells@),
            i <= n,
            frag_byte_start == bytes_before(fs@, i as int),
            slices@ == spec_line_slices(fs@, byte_start as int, byte_end as int, i as int),
        decreases n - i,
    {
        proof {
            lemma_bytes_before_mono(fs@, i + 1, n as int);
            lemma_cells_before_mono(fs@, i + 1, n as int);
        }
        let range = ranges[i];
        let ix = range.fragment_index;
        assert(ix == i);
        let fragment = &fs[ix];
        let frag_byte_len: usize = match fragment {
            InlineFragment::Text { text, .. } => crate::text::byte_len(text.as_str()),
            InlineFragment::Element { .. } => 1,
        };
        let frag_byte_end = frag_byte_start + frag_byte_len;
        let intersect_start = if byte_start >= frag_byte_start { byte_start } else { frag_byte_start };
        let intersect_end = if byte_end <= frag_byte_end { byte_end } else { frag_byte_end };
        if intersect_start < intersect_end {
            match fragment {
                InlineFragment::Text { text, .. } => {
                    let local_start = intersect_start - frag_byte_start;
                    let local_end = intersect_end - frag_byte_start;
                    let offsets = match &cells[ix] {
                        Some(c) => &c.offsets,
                        None => {
                            assert(false);
                            return slices;
                        },
                    };
                    let (cell_start, cell_end) = cells_of_byte_range(text.as_str(), offsets, local_start, local_end);
                    proof {
                        lemma_floor_ceil_bounded(text@, local_start as int, local_end as int);
                    }
                    slices.push(
                        LogicalSlice {
                            fragment_index: ix,
                            start_in_fragment: local_start,
                            end_in_fragment: local_end,
                            logical_start: range.logical_start + cell_start,
                            logical_end: range.logical_start + cell_end,
                        },
                    );
                },
                InlineFragment::Element { .. } => {
                    slices.push(
                        LogicalSlice {
                            fragment_index: ix,
                            start_in_fragment: 0,
                            end_in_fragment: 0,
                            logical_start: range.logical_start,
                            logical_end: range.logical_end,
                        },
                    );
                },
            }
        }
        frag_byte_start = frag_byte_end;
        i = i + 1;
    }
    slices
}


/// The cells covering bytes `[local_start, local_end)` of a text whose cell
/// boundaries are `offsets`: from the cell holding the first byte to the first
/// boundary at or after the end.
pub fn cells_of_byte_range(text: &str, offsets: &Vec<usize>, local_start: usize, local_end: usize) -> (r: (usize, usize))
    requires
        offsets@.len() == text@.len() + 1,
        forall|k: int| 0 <= k <= text@.len() ==> #[trigger] offsets@[k] == cell_offset(text@, k),
        local_end <= utf8_len(text@),
    ensures
        r.0 == floor_cell(text@, local_start as int),
        r.1 == ceil_cell(text@, local_end as int),
{
    proof {
        assert forall|a: int, b: int| 0 <= a < b < offsets@.len() implies offsets@[a] < offsets@[b] by {
            lemma_cell_offset_strict(text@, a, b);
        }
        lemma_cell_offset_end(text@);
        assert(offsets@[0] == cell_offset(text@, 0));
        assert(text@.take(0) =~= Seq::<char>::empty());
    }
    let cell_start: usize = match search_offsets(offsets, local_start) {
        Ok(k) => {
            proof {
                if k < text@.len() {
                    lemma_cell_offset_strict(text@, k as int, k + 1);
                }
                lemma_floor_cell_unique(text@, local_start as int, k as int);
            }
            k
        },
        Err(ix2) => {
            assert(offsets@[0] == 0);
            assert(ix2 >= 1);
            proof {
                assert(offsets@[ix2 - 1] == cell_offset(text@, ix2 - 1));
                if ix2 <= text@.len() {
                    assert(offsets@[ix2 as int] == cell_offset(text@, ix2 as int));
                }
                lemma_floor_cell_unique(text@, local_start as int, ix2 - 1);
            }
            ix2 - 1
        },
    };
    let cell_end: usize = match search_offsets(offsets, local_end) {
        Ok(k) => {
            proof {
                assert forall|j: int| 0 <= j < k implies cell_offset(text@, j) < local_end by {
                    lemma_cell_offset_strict(text@, j, k as int);
                }
                lemma_ceil_cell_unique(text@, local_end as int, k as int);
            }
            k
        },
        Err(ix2) => {
            assert(offsets@[text@.len() as int] == utf8_len(text@));
            assert(ix2 <= text@.len());
            proof {
                assert forall|j: int| 0 <= j < ix2 implies cell_offset(text@, j) < local_end by {
                    assert(offsets@[j] == cell_offset(text@, j));
                }
                if ix2 < text@.len() {
                    assert(offsets@[ix2 as int] == cell_offset(text@, ix2 as int));
                }
                lemma_ceil_cell_unique(text@, local_end as int, ix2 as int);
            }
            ix2
        },
    };
    (cell_start, cell_end)
}

} // verus!
