use vstd::prelude::*;
use crate::geometry::{Pixels, Size, Bounds, AvailableSize, KnownSize, px_ok, extent_ok, coord_ok};
use crate::style::{StyleRefinement, TextStyleRefinement, TextStyle, AbsoluteLength};
use crate::content::{InlineContent, InlineFragment};
use crate::slices::{content_fits};
use crate::host::LayoutHost;
use crate::line_build::styles_in_bounds;
use crate::layout::{InlineSpanLayout, spec_line_height_hint, spec_base_font_size, spec_wrap_width, layout_reusable, prepared_instance, rewrapped, prepared_measured,
    spec_element_context};
use crate::paint::{PaintCommand, ElementPrepaint, segments_indexed, spec_paint_commands, element_prepaints};

verus! {

/// A span of inline content: styled text and inline elements laid out in
/// wrapped lines.
#[derive(Debug)]
pub struct InlineSpan<E> {
    /// The content.
    pub content: InlineContent<E>,
    /// The layout state.
    pub layout: InlineSpanLayout,
    /// Style overrides of the span.
    pub style: StyleRefinement,
}

impl<E> InlineSpan<E> {
    /// A span of `content` with a fresh layout and no style overrides.
    pub fn new(content: InlineContent<E>) -> (r: Self)
        ensures
            r.content == content,
            r.layout.is_fresh(),
            r.layout.wf(),
            r.style.text == TextStyleRefinement::spec_empty(),
    {
        InlineSpan { content, layout: InlineSpanLayout::default(), style: StyleRefinement::empty() }
    }

    /// Marks the layout for recomputation at the next layout pass.
    pub fn invalidate_layout(&mut self)
        ensures
            final(self).layout.dirty,
            final(self).layout.prepared_elements@.len() == 0,
            old(self).layout.wf() ==> final(self).layout.wf(),
            final(self).layout.lines == old(self).layout.lines,
            final(self).layout.fragment_layouts == old(self).layout.fragment_layouts,
            final(self).layout.measured_size == old(self).layout.measured_size,
            final(self).layout.bounds == old(self).layout.bounds,
            final(self).layout.last_wrap_width == old(self).layout.last_wrap_width,
            final(self).layout.last_line_height == old(self).layout.last_line_height,
            final(self).layout.decorations == old(self).layout.decorations,
            final(self).content == old(self).content,
            final(self).style == old(self).style,
    {
        self.layout.mark_dirty();
    }

    /// A copy of the current layout state, for hit testing and selections.
    pub fn layout_state(&self) -> (r: InlineSpanLayout)
        ensures
            r.same_as(&self.layout),
    {
        self.layout.duplicate()
    }

    /// This span with `layout` as its layout state.
    pub fn with_layout(self, layout: InlineSpanLayout) -> (r: Self)
        ensures
            r.layout == layout,
            r.content == self.content,
            r.style == self.style,
    {
        let mut s = self;
        s.layout = layout;
        s
    }

    /// The span's style overrides, to change.
    pub fn style(&mut self) -> (r: &mut StyleRefinement)
        ensures
            *r == old(self).style,
            final(self).style == *final(r),
            final(self).content == old(self).content,
            final(self).layout == old(self).layout,
    {
        &mut self.style
    }

    /// Starts a layout pass: refines the inherited text style by the span's
    /// overrides, and measures every inline element ahead of wrapping with
    /// the line height hint of that style. Returns the refined style.
    pub fn request_layout<H: LayoutHost<E>>(&mut self, window_style: &TextStyle, rem_size: Pixels, host: &mut H) -> (r:
        TextStyle)
        requires
            styles_in_bounds(old(self).content, window_style.spec_refined(old(self).style.text)),
            extent_ok(rem_size as int),
            px_ok(spec_base_font_size(old(self).content, window_style.spec_refined(old(self).style.text), rem_size as int)),
        ensures
            r == window_style.spec_refined(old(self).style.text),
            old(self).layout.wf() ==> final(self).layout.wf(),
            final(self).layout.prepared_elements@.len() == old(self).content.fragments@.len(),
            forall|i: int|
                0 <= i < old(self).content.fragments@.len() ==> match #[trigger] old(self).content.fragments@[i] {
                    InlineFragment::Text { .. } => final(self).layout.prepared_elements@[i] is None,
                    InlineFragment::Element { slot } => final(self).layout.prepared_elements@[i] matches Some(inst)
                        && prepared_instance(slot.align, inst) && prepared_measured::<E, H>(
                        old(host).model(),
                        slot,
                        inst,
                        spec_element_context(
                            old(self).content,
                            spec_line_height_hint(
                                old(self).content,
                                window_style.spec_refined(old(self).style.text),
                                rem_size as int,
                            ) as Pixels,
                            None,
                            window_style.spec_refined(old(self).style.text),
                            rem_size as int,
                        ),
                    ),
                },
            final(self).layout.lines == old(self).layout.lines,
            final(self).layout.fragment_layouts == old(self).layout.fragment_layouts,
            final(self).layout.measured_size == old(self).layout.measured_size,
            final(self).layout.bounds == old(self).layout.bounds,
            final(self).layout.last_wrap_width == old(self).layout.last_wrap_width,
            final(self).layout.last_line_height == old(self).layout.last_line_height,
            final(self).layout.dirty == old(self).layout.dirty,
            final(self).layout.decorations == old(self).layout.decorations,
            final(host).model() == old(host).model(),
            final(self).content == old(self).content,
            final(self).style == old(self).style,
    {
        proof {
            crate::content::lemma_first_text_style_in_bounds(self.content.fragments@);
        }
        let style = window_style.refined(&self.style.text);
        let base_font_size = self.content.default_font_size_or(style.font_size.to_pixels(rem_size), rem_size);
        let line_height_hint = style.line_height.to_pixels(AbsoluteLength::Pixels(base_font_size), rem_size);
        self.layout.prepare_inline_elements(&self.content, line_height_hint, host, &style, rem_size);
        style
    }

    /// The span's size for the given constraints, under the text style in
    /// effect when the layout engine asks: the last layout's size when it
    /// can be reused, else that of a fresh layout.
    pub fn measure<H: LayoutHost<E>>(
        &mut self,
        known_dimensions: KnownSize,
        available_space: AvailableSize,
        window_style: &TextStyle,
        rem_size: Pixels,
        host: &mut H,
    ) -> (r: Size)
        requires
            old(self).layout.wf(),
            content_fits(old(self).content.fragments@),
            styles_in_bounds(old(self).content, *window_style),
            extent_ok(rem_size as int),
            px_ok(spec_base_font_size(old(self).content, *window_style, rem_size as int)),
            extent_ok(spec_line_height_hint(old(self).content, *window_style, rem_size as int)),
        ensures
            final(self).layout.wf(),
            r == final(self).layout.measured_size,
            final(self).content == old(self).content,
            final(self).style == old(self).style,
            ({
                let wrap_width = spec_wrap_width(*window_style, known_dimensions, available_space);
                let hint = spec_line_height_hint(old(self).content, *window_style, rem_size as int) as Pixels;
                &&& layout_reusable(final(self).layout, wrap_width, hint)
                &&& if layout_reusable(old(self).layout, wrap_width, hint) {
                    &&& final(self).layout == old(self).layout
                    &&& *final(host) == *old(host)
                } else {
                    rewrapped::<E, H>(
                        old(self).layout,
                        final(self).layout,
                        old(self).content,
                        wrap_width,
                        hint,
                        *window_style,
                        rem_size as int,
                        old(host).model(),
                    )
                }
            }),
            final(host).model() == old(host).model(),
    {
        self.layout.measure(&self.content, known_dimensions, available_space, window_style, rem_size, host)
    }

    /// Records the bounds the span was given and lists the elements to lay
    /// out and prepaint, with where.
    pub fn prepaint(&mut self, bounds: Bounds) -> (r: Vec<ElementPrepaint>)
        requires
            old(self).layout.wf(),
            coord_ok(bounds.origin.x as int),
            coord_ok(bounds.origin.y as int),
        ensures
            final(self).layout.bounds == Some(bounds),
            final(self).layout.wf(),
            r@ == element_prepaints(
                old(self).layout.fragment_layouts@,
                bounds.origin,
                old(self).layout.fragment_layouts@.len() as int,
            ),
            final(self).layout.lines == old(self).layout.lines,
            final(self).layout.fragment_layouts == old(self).layout.fragment_layouts,
            final(self).layout.decorations == old(self).layout.decorations,
            final(self).content == old(self).content,
            final(self).style == old(self).style,
    {
        self.layout.prepaint(bounds)
    }

    /// What painting the span draws.
    pub fn paint(&self, debug_outlines: bool) -> (r: Vec<PaintCommand>)
        requires
            self.layout.wf(),
            segments_indexed(self.layout.lines@, self.layout.fragment_layouts@.len() as int),
            self.layout.bounds matches Some(b) ==> coord_ok(b.origin.x as int) && coord_ok(b.origin.y as int),
        ensures
            r@ == match self.layout.bounds {
                None => Seq::empty(),
                Some(b) => spec_paint_commands(self.layout, b, debug_outlines),
            },
    {
        self.layout.paint_commands(debug_outlines)
    }
}

} // verus!
