use vstd::prelude::*;
use crate::geometry::{Pixels, Size, Point, Bounds, AvailableSize, AvailableSpace, px, px_half, spec_half, px_ok, extent_ok, coord_ok};
use crate::style::{TextStyle, Font, SharedString};

verus! {

/// How an inline element is placed vertically within its line.
#[derive(Clone, Copy, Debug, PartialEq, Eq, Structural)]
pub enum InlineElementAlign {
    /// Sit on the text baseline, using the element's baseline offset.
    Auto,
    /// Align the element's top edge with the top of the line box.
    Top,
    /// Center the element vertically within the line box.
    Middle,
    /// Align the element's bottom edge with the bottom of the line box.
    Bottom,
}

impl Default for InlineElementAlign {
    fn default() -> (r: InlineElementAlign)
        ensures
            r == InlineElementAlign::Auto,
    {
        InlineElementAlign::Auto
    }
}

/// Which side of a logical position a caret prefers.
#[derive(Clone, Copy, Debug, PartialEq, Eq, Structural)]
pub enum CaretAffinity {
    /// Before the logical cell.
    Upstream,
    /// After the logical cell.
    Downstream,
}

/// The place of an inline element in the content: the element itself, as the
/// host knows it, and the alignment it was added with.
#[derive(Clone, Debug)]
pub struct InlineElementSlot<E> {
    /// The element, instantiated and measured by the host during layout.
    pub element: E,
    /// Vertical alignment of the element.
    pub align: InlineElementAlign,
}

/// One fragment of inline content.
#[derive(Clone, Debug)]
pub enum InlineFragment<E> {
    /// Styled text that takes part in wrapping.
    Text {
        /// The text.
        text: SharedString,
        /// Its style; the content's default style when absent.
        style: Option<TextStyle>,
    },
    /// An inline element, one logical cell wide.
    Element {
        /// The element and its alignment.
        slot: InlineElementSlot<E>,
    },
}

/// The first style carried by a text fragment of `fragments`, if any.
pub open spec fn first_text_style<E>(fragments: Seq<InlineFragment<E>>) -> Option<TextStyle>
    decreases fragments.len(),
{
    if fragments.len() == 0 {
        None
    } else {
        match fragments[0] {
            InlineFragment::Text { style: Some(s), .. } => Some(s),
            _ => first_text_style(fragments.drop_first()),
        }
    }
}

/// When every style on a text fragment is within bounds, so is the first one.
pub proof fn lemma_first_text_style_in_bounds<E>(fs: Seq<InlineFragment<E>>)
    requires
        forall|i: int|
            0 <= i < fs.len() ==> (#[trigger] fs[i] matches InlineFragment::Text { style: Some(s), .. }
                ==> s.in_bounds()),
    ensures
        first_text_style(fs) matches Some(s) ==> s.in_bounds(),
    decreases fs.len(),
{
    if fs.len() > 0 {
        let rest = fs.drop_first();
        assert forall|i: int|
            0 <= i < rest.len() implies (#[trigger] rest[i] matches InlineFragment::Text { style: Some(s), .. }
                ==> s.in_bounds()) by {
            assert(rest[i] == fs[i + 1]);
        }
        lemma_first_text_style_in_bounds(rest);
    }
}

/// Inline content: fragments in order, an optional default style and the
/// default alignment of its elements.
#[derive(Clone, Debug)]
pub struct InlineContent<E> {
    /// The fragments, in reading order.
    pub fragments: Vec<InlineFragment<E>>,
    /// The default text style.
    pub default_style: Option<TextStyle>,
    /// The default alignment of inline elements.
    pub inline_align: InlineElementAlign,
}

impl<E> InlineContent<E> {
    /// The effective default style: the explicit default, else the style of
    /// the first styled text fragment.
    pub open spec fn spec_resolved_style(&self) -> Option<TextStyle> {
        match self.default_style {
            Some(s) => Some(s),
            None => first_text_style(self.fragments@),
        }
    }

    /// The number of fragments.
    pub fn len(&self) -> (r: usize)
        ensures
            r == self.fragments@.len(),
    {
        self.fragments.len()
    }

    /// The effective default style: the explicit default first, then the
    /// first style found on a text fragment.
    pub fn resolve_default_style(&self) -> (r: Option<&TextStyle>)
        ensures
            match r {
                Some(s) => self.spec_resolved_style() == Some(*s),
                None => self.spec_resolved_style() is None,
            },
    {
        match &self.default_style {
            Some(s) => Some(s),
            None => {
                let n = self.fragments.len();
                let mut i: usize = 0;
                assert(self.fragments@.skip(0) =~= self.fragments@);
                while i < n
                    invariant
                        n == self.fragments@.len(),
                        i <= n,
                        self.default_style is None,
                        first_text_style(self.fragments@) == first_text_style(
                            self.fragments@.skip(i as int),
                        ),
                    decreases n - i,
                {
                    assert(self.fragments@.skip(i as int).drop_first() =~= self.fragments@.skip(
                        i + 1,
                    ));
                    assert(self.fragments@.skip(i as int)[0] == self.fragments@[i as int]);
                    match &self.fragments[i] {
                        InlineFragment::Text { style: Some(s), .. } => {
                            assert(self.fragments@.skip(i as int).len() > 0);
                            assert(first_text_style(self.fragments@.skip(i as int)) == Some(*s));
                            return Some(s);
                        },
                        _ => {},
                    }
                    i = i + 1;
                }
                None
            },
        }
    }

    /// The font of the effective default style, or `fallback`.
    pub fn default_font_or(&self, fallback: Font) -> (r: Font)
        ensures
            r == match self.spec_resolved_style() {
                Some(s) => s.spec_font(),
                None => fallback,
            },
    {
        match self.resolve_default_style() {
            Some(s) => s.font(),
            None => fallback,
        }
    }

    /// The font size of the effective default style, or `fallback`.
    pub fn default_font_size_or(&self, fallback: Pixels, rem_size: Pixels) -> (r: Pixels)
        requires
            extent_ok(rem_size as int),
            self.spec_resolved_style() matches Some(s) ==> s.in_bounds(),
        ensures
            r == match self.spec_resolved_style() {
                Some(s) => s.font_size.spec_to_pixels(rem_size as int),
                None => fallback as int,
            },
    {
        match self.resolve_default_style() {
            Some(s) => s.font_size.to_pixels(rem_size),
            None => fallback,
        }
    }
}

/// What an inline element learns about its surroundings when it is built.
#[derive(Clone, Debug, PartialEq, Eq)]
pub struct InlineElementContext {
    /// Width available to the element, if limited.
    pub max_width: Option<Pixels>,
    /// Height of the line the element should fit.
    pub line_height: Pixels,
    /// Default font of the surrounding span.
    pub font: Font,
    /// Default font size of the surrounding span.
    pub font_size: Pixels,
    /// Vertical alignment of the element.
    pub alignment: InlineElementAlign,
}

/// The measurement of an inline element.
#[derive(Clone, Copy, Debug, PartialEq, Eq, Structural)]
pub struct InlineElementSpec {
    /// Space requested for the element's layout.
    pub requested_space: AvailableSize,
    /// Distance from the element's top to its baseline, if known.
    pub baseline_offset: Option<Pixels>,
    /// Vertical alignment within the line box.
    pub align: InlineElementAlign,
    /// Whether the element's width is limited to the wrap width.
    pub constrain_width: bool,
    /// Size the element was measured at.
    pub premeasured_size: Size,
}

/// The baseline offset an alignment implies for an element of height `height`:
/// none for `Auto`, the full height for `Top`, zero for `Bottom`, half the
/// height for `Middle`.
pub open spec fn aligned_baseline(align: InlineElementAlign, height: int, auto: Option<Pixels>) -> Option<Pixels> {
    match align {
        InlineElementAlign::Auto => auto,
        InlineElementAlign::Top => Some(height as Pixels),
        InlineElementAlign::Bottom => Some(0),
        InlineElementAlign::Middle => Some(spec_half(height) as Pixels),
    }
}

impl InlineElementSpec {
    /// This spec with the given alignment, and the baseline offset that
    /// alignment implies.
    pub fn with_alignment(self, align: InlineElementAlign) -> (r: Self)
        ensures
            r.align == align,
            r.baseline_offset == aligned_baseline(
                align,
                self.premeasured_size.height as int,
                self.baseline_offset,
            ),
            r.requested_space == self.requested_space,
            r.constrain_width == self.constrain_width,
            r.premeasured_size == self.premeasured_size,
    {
        let mut s = self;
        s.align = align;
        s.baseline_offset = match align {
            InlineElementAlign::Auto => self.baseline_offset,
            InlineElementAlign::Top => Some(self.premeasured_size.height),
            InlineElementAlign::Bottom => Some(0),
            InlineElementAlign::Middle => Some(px_half(self.premeasured_size.height)),
        };
        s
    }

    /// The spec of an element measured at `measured_size`: it asks for its
    /// content width and its measured height.
    pub fn from_measured_element(measured_size: Size, align: InlineElementAlign) -> (r: Self)
        ensures
            r.align == align,
            r.baseline_offset == aligned_baseline(align, measured_size.height as int, None),
            r.requested_space == (AvailableSize {
                width: AvailableSpace::MaxContent,
                height: AvailableSpace::Definite(measured_size.height),
            }),
            !r.constrain_width,
            r.premeasured_size == measured_size,
    {
        let baseline_offset = match align {
            InlineElementAlign::Auto => None,
            InlineElementAlign::Top => Some(measured_size.height),
            InlineElementAlign::Bottom => Some(0),
            InlineElementAlign::Middle => Some(px_half(measured_size.height)),
        };
        InlineElementSpec {
            requested_space: AvailableSize {
                width: AvailableSpace::MaxContent,
                height: AvailableSpace::Definite(measured_size.height),
            },
            baseline_offset,
            align,
            constrain_width: false,
            premeasured_size: measured_size,
        }
    }
}

/// A measured inline element placed by the layout.
#[derive(Clone, Copy, Debug, PartialEq, Eq, Structural)]
pub struct InlineElementInstance {
    /// Measured size.
    pub size: Size,
    /// Bounds relative to the span origin.
    pub bounds: Bounds,
    /// Distance from the element's top to its baseline.
    pub baseline_offset: Option<Pixels>,
    /// Vertical alignment within the line box.
    pub align: InlineElementAlign,
}

impl InlineElementInstance {
    /// An unplaced instance of a measured element: at the origin, with its
    /// measured size.
    pub fn new(spec: InlineElementSpec) -> (r: Self)
        ensures
            r.size == spec.premeasured_size,
            r.bounds == (Bounds { origin: Point { x: 0, y: 0 }, size: spec.premeasured_size }),
            r.baseline_offset == spec.baseline_offset,
            r.align == spec.align,
    {
        let size = spec.premeasured_size;
        InlineElementInstance {
            size,
            bounds: Bounds::new(Point::new(px(0), px(0)), size),
            baseline_offset: spec.baseline_offset,
            align: spec.align,
        }
    }

    /// The instance's numbers are within the bounds the layout accepts.
    pub open spec fn in_bounds(self) -> bool {
        &&& self.size.is_extent()
        &&& self.baseline_offset matches Some(b) ==> px_ok(b as int)
        &&& coord_ok(self.bounds.origin.x as int)
        &&& coord_ok(self.bounds.origin.y as int)
    }
}

} // verus!
