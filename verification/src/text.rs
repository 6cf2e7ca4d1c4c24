use vstd::prelude::*;

verus! {

broadcast use vstd::string::group_string_axioms;

/// The number of bytes in the UTF-8 encoding of `c`.
pub open spec fn char_width(c: char) -> nat {
    let v = c as u32;
    if v <= 0x7f {
        1
    } else if v <= 0x7ff {
        2
    } else if v <= 0xffff {
        3
    } else {
        4
    }
}

/// The number of bytes in the UTF-8 encoding of the characters `s`.
pub open spec fn utf8_len(s: Seq<char>) -> nat
    decreases s.len(),
{
    if s.len() == 0 {
        0
    } else {
        utf8_len(s.drop_last()) + char_width(s.last())
    }
}

/// The characters of `text`, in order.
pub fn text_chars(text: &str) -> (r: Vec<char>)
    ensures
        r@ == text@,
{
    let mut out: Vec<char> = Vec::new();
    for c in it: text.chars()
        invariant
            it.seq() == text@,
            out@ == it.seq().take(it.index() as int),
    {
        out.push(c);
    }
    out
}


/// The byte offset at which cell `k` of `s` starts: the UTF-8 length of the
/// first `k` characters.
pub open spec fn cell_offset(s: Seq<char>, k: int) -> nat {
    utf8_len(s.take(k))
}

/// The number of bytes in the UTF-8 encoding of `c`.
pub fn char_len_utf8(c: char) -> (r: usize)
    ensures
        r == char_width(c),
        1 <= r <= 4,
{
    let v = c as u32;
    if v <= 0x7f {
        1
    } else if v <= 0x7ff {
        2
    } else if v <= 0xffff {
        3
    } else {
        4
    }
}

/// The encoding of a character has `char_width` bytes.
pub proof fn lemma_char_width_is_encoding(c: char)
    ensures
        vstd::utf8::encode_scalar(c as u32).len() == char_width(c),
{
    vstd::utf8::char_is_scalar(c);
}

/// Lengths of encodings add up under concatenation.
pub proof fn lemma_utf8_len_concat(a: Seq<char>, b: Seq<char>)
    ensures
        utf8_len(a + b) == utf8_len(a) + utf8_len(b),
    decreases b.len(),
{
    if b.len() == 0 {
        assert(a + b =~= a);
    } else {
        lemma_utf8_len_concat(a, b.drop_last());
        assert((a + b).drop_last() =~= a + b.drop_last());
        assert((a + b).last() == b.last());
    }
}

/// `utf8_len` is the length of the UTF-8 encoding, and so the byte length of a `str`.
pub proof fn lemma_utf8_len_is_encoding(s: Seq<char>)
    ensures
        utf8_len(s) == vstd::utf8::encode_utf8(s).len(),
    decreases s.len(),
{
    if s.len() > 0 {
        lemma_utf8_len_is_encoding(s.drop_first());
        lemma_char_width_is_encoding(s[0]);
        lemma_utf8_len_concat(seq![s[0]], s.drop_first());
        assert(seq![s[0]] + s.drop_first() =~= s);
        assert(seq![s[0]].drop_last() =~= Seq::<char>::empty());
        assert(utf8_len(Seq::<char>::empty()) == 0);
        assert(utf8_len(seq![s[0]]) == char_width(s[0]));
        assert(vstd::utf8::encode_utf8(s) == vstd::utf8::encode_scalar(s[0] as u32)
            + vstd::utf8::encode_utf8(s.drop_first()));
    }
}

/// Cell offsets grow strictly with the cell index.
pub proof fn lemma_cell_offset_strict(s: Seq<char>, i: int, j: int)
    requires
        0 <= i < j <= s.len(),
    ensures
        cell_offset(s, i) < cell_offset(s, j),
    decreases j - i,
{
    assert(s.take(j).drop_last() =~= s.take(j - 1));
    if i < j - 1 {
        lemma_cell_offset_strict(s, i, j - 1);
    }
}

/// Cell offsets do not decrease with the cell index.
pub proof fn lemma_cell_offset_mono(s: Seq<char>, i: int, j: int)
    requires
        0 <= i <= j <= s.len(),
    ensures
        cell_offset(s, i) <= cell_offset(s, j),
{
    if i < j {
        lemma_cell_offset_strict(s, i, j);
    }
}

/// The offset one cell further is the offset plus the width of the character.
pub proof fn lemma_cell_offset_step(s: Seq<char>, k: int)
    requires
        0 <= k < s.len(),
    ensures
        cell_offset(s, k + 1) == cell_offset(s, k) + char_width(s[k]),
{
    assert(s.take(k + 1).drop_last() =~= s.take(k));
}

/// The offset past the last cell is the byte length of the text.
pub proof fn lemma_cell_offset_end(s: Seq<char>)
    ensures
        cell_offset(s, s.len() as int) == utf8_len(s),
{
    assert(s.take(s.len() as int) =~= s);
}

/// The byte offset at which cell `cell_index` of `text` starts, or the byte
/// length of `text` when it has no such cell.
pub fn cell_to_byte_offset(text: &str, cell_index: usize) -> (r: usize)
    requires
        utf8_len(text@) <= usize::MAX,
    ensures
        r == cell_offset(text@, if cell_index <= text@.len() { cell_index as int } else { text@.len() as int }),
{
    if cell_index == 0 {
        return 0;
    }
    let chars = text_chars(text);
    let n = chars.len();
    let mut offset: usize = 0;
    let mut count: usize = 0;
    proof {
        lemma_cell_offset_end(text@);
    }
    while count < n
        invariant
            chars@ == text@,
            n == chars@.len(),
            0 < cell_index,
            count <= n,
            count <= cell_index,
            offset == cell_offset(text@, count as int),
            utf8_len(text@) <= usize::MAX,
        decreases n - count,
    {
        if count == cell_index {
            return offset;
        }
        proof {
            lemma_cell_offset_step(text@, count as int);
            lemma_cell_offset_mono(text@, count + 1, n as int);
            lemma_cell_offset_end(text@);
        }
        offset = offset + char_len_utf8(chars[count]);
        count = count + 1;
    }
    offset
}

/// The index of the first cell of `text` that starts at or after
/// `byte_offset`, or the number of cells when none does.
pub fn byte_offset_to_cell_index(text: &str, byte_offset: usize) -> (r: usize)
    requires
        utf8_len(text@) <= usize::MAX,
    ensures
        r <= text@.len(),
        r == text@.len() || cell_offset(text@, r as int) >= byte_offset,
        forall|k: int| 0 <= k < r ==> cell_offset(text@, k) < byte_offset,
        r == ceil_cell(text@, byte_offset as int),
{
    let r = byte_offset_to_cell_index_scan(text, byte_offset);
    proof {
        lemma_ceil_cell_unique(text@, byte_offset as int, r as int);
    }
    r
}

fn byte_offset_to_cell_index_scan(text: &str, byte_offset: usize) -> (r: usize)
    requires
        utf8_len(text@) <= usize::MAX,
    ensures
        r <= text@.len(),
        r == text@.len() || cell_offset(text@, r as int) >= byte_offset,
        forall|k: int| 0 <= k < r ==> cell_offset(text@, k) < byte_offset,
{
    if byte_offset == 0 {
        return 0;
    }
    let chars = text_chars(text);
    let n = chars.len();
    let mut offset: usize = 0;
    let mut count: usize = 0;
    proof {
        lemma_cell_offset_end(text@);
    }
    while count < n
        invariant
            chars@ == text@,
            n == chars@.len(),
            count <= n,
            offset == cell_offset(text@, count as int),
            utf8_len(text@) <= usize::MAX,
            forall|k: int| 0 <= k < count ==> cell_offset(text@, k) < byte_offset,
        decreases n - count,
    {
        if offset >= byte_offset {
            return count;
        }
        proof {
            lemma_cell_offset_step(text@, count as int);
            lemma_cell_offset_mono(text@, count + 1, n as int);
            lemma_cell_offset_end(text@);
        }
        offset = offset + char_len_utf8(chars[count]);
        count = count + 1;
    }
    count
}

/// The byte offsets of all cell boundaries of `text`: `0`, then the end of
/// each character in turn.
pub fn cell_boundaries(text: &str) -> (r: Vec<usize>)
    requires
        utf8_len(text@) <= usize::MAX,
    ensures
        r@.len() == text@.len() + 1,
        forall|k: int| 0 <= k <= text@.len() ==> r@[k] == cell_offset(text@, k),
{
    let chars = text_chars(text);
    let n = chars.len();
    let mut offsets: Vec<usize> = Vec::new();
    offsets.push(0);
    let mut offset: usize = 0;
    let mut count: usize = 0;
    proof {
        lemma_cell_offset_end(text@);
        assert(text@.take(0) =~= Seq::<char>::empty());
    }
    while count < n
        invariant
            chars@ == text@,
            n == chars@.len(),
            count <= n,
            offset == cell_offset(text@, count as int),
            utf8_len(text@) <= usize::MAX,
            offsets@.len() == count + 1,
            forall|k: int| 0 <= k <= count ==> offsets@[k] == cell_offset(text@, k),
        decreases n - count,
    {
        proof {
            lemma_cell_offset_step(text@, count as int);
            lemma_cell_offset_mono(text@, count + 1, n as int);
            lemma_cell_offset_end(text@);
        }
        offset = offset + char_len_utf8(chars[count]);
        count = count + 1;
        offsets.push(offset);
    }
    offsets
}

/// The byte length of `text`.
pub fn byte_len(text: &str) -> (r: usize)
    requires
        utf8_len(text@) <= usize::MAX,
    ensures
        r == utf8_len(text@),
{
    proof {
        lemma_utf8_len_is_encoding(text@);
    }
    text.len()
}

/// The largest cell index `k <= m` whose boundary lies at or before byte `o`
/// (zero when there is none).
pub open spec fn floor_cell_from(t: Seq<char>, o: int, m: int) -> nat
    decreases m,
{
    if m <= 0 {
        0
    } else if cell_offset(t, m) <= o {
        m as nat
    } else {
        floor_cell_from(t, o, m - 1)
    }
}

/// The cell containing byte `o` of `t`: the last cell boundary at or before `o`.
pub open spec fn floor_cell(t: Seq<char>, o: int) -> nat {
    floor_cell_from(t, o, t.len() as int)
}

/// The first cell index `k >= m` whose boundary lies at or after byte `o`,
/// or the number of cells.
pub open spec fn ceil_cell_from(t: Seq<char>, o: int, m: int) -> nat
    decreases t.len() - m,
{
    if m >= t.len() {
        t.len()
    } else if cell_offset(t, m) >= o {
        if m < 0 { 0 } else { m as nat }
    } else {
        ceil_cell_from(t, o, m + 1)
    }
}

/// The first cell boundary of `t` at or after byte `o`.
pub open spec fn ceil_cell(t: Seq<char>, o: int) -> nat {
    ceil_cell_from(t, o, 0)
}

/// A cell index whose boundary is at or before `o` while the next one is
/// past `o` is the floor cell of `o`.
pub proof fn lemma_floor_cell_unique(t: Seq<char>, o: int, k: int)
    requires
        0 <= k <= t.len(),
        cell_offset(t, k) <= o,
        k == t.len() || cell_offset(t, k + 1) > o,
    ensures
        floor_cell(t, o) == k,
{
    lemma_floor_cell_from(t, o, k, t.len() as int);
}

proof fn lemma_floor_cell_from(t: Seq<char>, o: int, k: int, m: int)
    requires
        0 <= k <= m <= t.len(),
        cell_offset(t, k) <= o,
        k == t.len() || cell_offset(t, k + 1) > o,
    ensures
        floor_cell_from(t, o, m) == k,
    decreases m,
{
    if m > k {
        lemma_cell_offset_mono(t, k + 1, m);
        lemma_floor_cell_from(t, o, k, m - 1);
    }
}

/// A cell index whose boundary is at or after `o` while all earlier ones are
/// before `o` is the ceiling cell of `o`.
pub proof fn lemma_ceil_cell_unique(t: Seq<char>, o: int, k: int)
    requires
        0 <= k <= t.len(),
        k == t.len() || cell_offset(t, k) >= o,
        forall|j: int| 0 <= j < k ==> cell_offset(t, j) < o,
    ensures
        ceil_cell(t, o) == k,
{
    lemma_ceil_cell_from(t, o, k, 0);
}

proof fn lemma_ceil_cell_from(t: Seq<char>, o: int, k: int, m: int)
    requires
        0 <= m <= k <= t.len(),
        k == t.len() || cell_offset(t, k) >= o,
        forall|j: int| 0 <= j < k ==> cell_offset(t, j) < o,
    ensures
        ceil_cell_from(t, o, m) == k,
    decreases k - m,
{
    if m < k {
        lemma_ceil_cell_from(t, o, k, m + 1);
    }
}

/// Floor and ceiling cells never pass the number of cells.
pub proof fn lemma_floor_ceil_bounded(t: Seq<char>, a: int, b: int)
    ensures
        floor_cell(t, a) <= t.len(),
        ceil_cell(t, b) <= t.len(),
{
    lemma_floor_from_bounded(t, a, t.len() as int);
    lemma_ceil_from_bounded(t, b, 0);
}

proof fn lemma_floor_from_bounded(t: Seq<char>, o: int, m: int)
    requires
        m <= t.len(),
    ensures
        floor_cell_from(t, o, m) <= t.len(),
    decreases m,
{
    if m > 0 {
        lemma_floor_from_bounded(t, o, m - 1);
    }
}

proof fn lemma_ceil_from_bounded(t: Seq<char>, o: int, m: int)
    ensures
        ceil_cell_from(t, o, m) <= t.len(),
    decreases t.len() - m,
{
    if m < t.len() {
        lemma_ceil_from_bounded(t, o, m + 1);
    }
}

/// A text has at least as many bytes as characters.
pub proof fn lemma_chars_le_bytes(s: Seq<char>)
    ensures
        s.len() <= utf8_len(s),
    decreases s.len(),
{
    if s.len() > 0 {
        lemma_chars_le_bytes(s.drop_last());
    }
}

/// The ceiling cell does not decrease with the byte offset.
pub proof fn lemma_ceil_cell_mono(t: Seq<char>, a: int, b: int)
    requires
        a <= b,
    ensures
        ceil_cell(t, a) <= ceil_cell(t, b),
{
    lemma_ceil_cell_from_mono(t, a, b, 0);
}

proof fn lemma_ceil_cell_from_mono(t: Seq<char>, a: int, b: int, m: int)
    requires
        a <= b,
        0 <= m,
    ensures
        ceil_cell_from(t, a, m) <= ceil_cell_from(t, b, m),
    decreases t.len() - m,
{
    if m < t.len() {
        lemma_ceil_cell_from_mono(t, a, b, m + 1);
        lemma_ceil_from_ge(t, b, m);
    }
}

proof fn lemma_ceil_from_ge(t: Seq<char>, o: int, m: int)
    requires
        0 <= m,
    ensures
        ceil_cell_from(t, o, m) >= (if m <= t.len() { m } else { t.len() as int }),
    decreases t.len() - m,
{
    if m < t.len() {
        lemma_ceil_from_ge(t, o, m + 1);
    }
}

/// The floor cell of a non-negative offset is a cell whose boundary is at or before it.
pub proof fn lemma_floor_cell_props(t: Seq<char>, o: int)
    requires
        0 <= o,
    ensures
        floor_cell(t, o) <= t.len(),
        cell_offset(t, floor_cell(t, o) as int) <= o,
{
    lemma_floor_from_props(t, o, t.len() as int);
}

proof fn lemma_floor_from_props(t: Seq<char>, o: int, m: int)
    requires
        0 <= o,
        0 <= m <= t.len(),
    ensures
        floor_cell_from(t, o, m) <= m,
        cell_offset(t, floor_cell_from(t, o, m) as int) <= o,
    decreases m,
{
    if m > 0 {
        lemma_floor_from_props(t, o, m - 1);
    } else {
        assert(t.take(0) =~= Seq::<char>::empty());
    }
}

/// The ceiling cell of an offset is the first cell whose boundary is at or after it.
pub proof fn lemma_ceil_cell_props(t: Seq<char>, o: int)
    ensures
        ceil_cell(t, o) <= t.len(),
        ceil_cell(t, o) == t.len() || cell_offset(t, ceil_cell(t, o) as int) >= o,
        forall|j: int| 0 <= j < ceil_cell(t, o) ==> cell_offset(t, j) < o,
{
    lemma_ceil_from_props(t, o, 0);
}

proof fn lemma_ceil_from_props(t: Seq<char>, o: int, m: int)
    requires
        0 <= m,
        forall|j: int| 0 <= j < m ==> cell_offset(t, j) < o,
    ensures
        ceil_cell_from(t, o, m) <= t.len() || m > t.len(),
        ceil_cell_from(t, o, m) == t.len() || cell_offset(t, ceil_cell_from(t, o, m) as int) >= o,
        forall|j: int| 0 <= j < ceil_cell_from(t, o, m) ==> cell_offset(t, j) < o,
    decreases t.len() - m,
{
    if m < t.len() {
        if cell_offset(t, m) < o {
            lemma_ceil_from_props(t, o, m + 1);
        }
    }
}

/// The floor cell of `a` does not pass the ceiling cell of a larger `b`
/// within the text.
pub proof fn lemma_floor_le_ceil(t: Seq<char>, a: int, b: int)
    requires
        0 <= a < b <= utf8_len(t),
    ensures
        floor_cell(t, a) <= ceil_cell(t, b),
{
    lemma_floor_cell_props(t, a);
    lemma_ceil_cell_props(t, b);
    lemma_cell_offset_end(t);
    if floor_cell(t, a) > ceil_cell(t, b) {
        lemma_cell_offset_strict(t, ceil_cell(t, b) as int, floor_cell(t, a) as int);
    }
}

} // verus!
