use vstd::prelude::*;
use crate::geometry::{Pixels, Size, AvailableSize, COUNT_LIMIT};
use crate::style::{Font, TextRun};
use crate::text::{utf8_len, cell_offset, ceil_cell};
use crate::shaping::ShapedLine;
use crate::slices::{LineFragment, line_bytes_before};
use crate::content::InlineElementContext;

verus! {

/// A place where the line wrapper breaks a line.
#[derive(Clone, Copy, Debug, PartialEq, Eq, Structural)]
pub struct Boundary {
    /// Byte index, in the wrapped byte sequence, where the next line starts.
    pub ix: usize,
    /// Number of spaces the next line is indented by.
    pub next_indent: u32,
}

/// Byte `o` of a line fragment lies between two of its characters (or at
/// one of its ends).
pub open spec fn fragment_break(f: LineFragment, o: int) -> bool {
    match f {
        LineFragment::Text { text } => 0 <= o <= utf8_len(text@) && cell_offset(
            text@,
            ceil_cell(text@, o) as int,
        ) == o,
        LineFragment::Element { len_utf8, .. } => o == 0 || o == len_utf8,
    }
}

/// Byte `b` of the wrapped byte sequence lies between two characters or at
/// the edge of a fragment.
pub open spec fn is_break_position(fs: Seq<LineFragment>, b: int) -> bool {
    exists|i: int|
        0 <= i < fs.len() && #[trigger] fragment_break(fs[i], b - line_bytes_before(fs, i))
}

/// Line boundaries as a line wrapper produces them: strictly increasing
/// positions strictly inside the wrapped bytes, each between characters, and
/// indents no larger than the text.
pub open spec fn boundaries_wf(bs: Seq<Boundary>, fs: Seq<LineFragment>) -> bool {
    let total = line_bytes_before(fs, fs.len() as int);
    &&& forall|i: int|
        0 <= i < bs.len() ==> 0 < (#[trigger] bs[i]).ix < total && is_break_position(
            fs,
            bs[i].ix as int,
        ) && bs[i].next_indent <= total
    &&& forall|i: int, j: int| 0 <= i < j < bs.len() ==> bs[i].ix < bs[j].ix
}

/// The services a span needs from the environment it is laid out in:
/// building and measuring its elements, shaping text, wrapping lines and
/// measuring characters.
pub trait LayoutHost<E> {
    /// What the host's answers depend on: fonts, metrics and the like, which
    /// none of its services changes.
    type Model;

    /// The host's current model.
    spec fn model(&self) -> Self::Model;

    /// `r` is a size a host of model `m` may give `element` built for
    /// `context` and laid out within `space`.
    spec fn measures(m: Self::Model, element: E, context: InlineElementContext, space: AvailableSize, r: Size) -> bool;

    /// `r` are breaks the line wrapper of a host of model `m` may report for
    /// `fragments` at `wrap_width` in `font` at `font_size`.
    spec fn wraps(m: Self::Model, fragments: Seq<LineFragment>, wrap_width: Pixels, font: Font, font_size: Pixels, r: Seq<Boundary>) -> bool;

    /// `r` is a shaping a host of model `m` may give `text` at `font_size`
    /// in the style of `run`.
    spec fn shapes(m: Self::Model, text: Seq<char>, font_size: Pixels, run: TextRun, r: ShapedLine) -> bool;

    /// `r` is an advance a host of model `m` may give `ch` in `font` at
    /// `font_size`.
    spec fn advances(m: Self::Model, font: Font, font_size: Pixels, ch: char, r: Option<Size>) -> bool;

    /// Builds `element` for `context` and lays it out within `space`,
    /// returning its size.
    fn layout_element(&mut self, element: &E, context: &InlineElementContext, space: AvailableSize) -> (r: Size)
        ensures
            r.is_extent(),
            Self::measures(old(self).model(), *element, *context, space, r),
            final(self).model() == old(self).model(),
    ;

    /// Shapes `text` at `font_size` in the style of `run`.
    fn shape_line(&mut self, text: &str, font_size: Pixels, run: &TextRun) -> (r: ShapedLine)
        requires
            utf8_len(text@) <= COUNT_LIMIT,
        ensures
            r.wf(),
            r.text@ == text@,
            Self::shapes(old(self).model(), text@, font_size, *run, r),
            final(self).model() == old(self).model(),
    ;

    /// The places where `fragments` break into lines no wider than `wrap_width`.
    fn wrap_line(&mut self, fragments: &Vec<LineFragment>, wrap_width: Pixels, font: &Font, font_size: Pixels) -> (r: Vec<Boundary>)
        requires
            fragments@.len() <= COUNT_LIMIT,
            line_bytes_before(fragments@, fragments@.len() as int) <= COUNT_LIMIT,
        ensures
            boundaries_wf(r@, fragments@),
            Self::wraps(old(self).model(), fragments@, wrap_width, *font, font_size, r@),
            final(self).model() == old(self).model(),
    ;

    /// The advance of `ch` in `font` at `font_size`, if the font has it.
    fn advance(&mut self, font: &Font, font_size: Pixels, ch: char) -> (r: Option<Size>)
        ensures
            r matches Some(s) ==> s.is_extent(),
            Self::advances(old(self).model(), *font, font_size, ch, r),
            final(self).model() == old(self).model(),
    ;
}

} // verus!
