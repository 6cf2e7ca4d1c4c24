use vstd::prelude::*;
use crate::geometry::{Pixels, spec_half};
use crate::content::{InlineContent, InlineElementContext, InlineFragment};
use crate::slices::InlineFragmentLayout;
use crate::style::TextStyle;
use crate::host::LayoutHost;
use crate::layout::{InlineSpanLayout, rewrapped, pass_steps, usable_prepared, spec_element_context, content_space};
use crate::line_build::{max_ascent_upto, max_descent_upto, max_aligned_upto, seg_ascent, seg_descent, seg_aligned_height};
use crate::wrap_line::{ShapedSegment, widths_before};
use crate::forming::line_formed;
use crate::placement::keeps_measure;

verus! {

/// Laying content out again measures each of its elements: an element
/// measured ahead keeps that measurement and alignment; every other one is
/// built by the host in a context at most the wrap width wide, with the line
/// height hint, the content's default font and font size, and the slot's
/// own alignment, and laid out at its content size.
pub proof fn law_rewrap_measures_elements<E, H: LayoutHost<E>>(
    old: InlineSpanLayout,
    new: InlineSpanLayout,
    content: InlineContent<E>,
    wrap_width: Option<Pixels>,
    hint: Pixels,
    window_style: TextStyle,
    rem_size: int,
    model: H::Model,
    i: int,
)
    requires
        rewrapped::<E, H>(old, new, content, wrap_width, hint, window_style, rem_size, model),
        0 <= i < content.fragments@.len(),
    ensures
        match content.fragments@[i] {
            InlineFragment::Element { slot } => {
                let prepared = usable_prepared(old, content.fragments@.len() as int);
                let base = spec_element_context(content, hint, wrap_width, window_style, rem_size);
                new.fragment_layouts@[i] matches InlineFragmentLayout::Element { instance: q } && if i
                    < prepared.len() && prepared[i] is Some {
                    q.size == prepared[i]->0.size && q.align == prepared[i]->0.align
                } else {
                    q.align == slot.align && H::measures(
                        model,
                        slot.element,
                        InlineElementContext {
                            max_width: wrap_width,
                            line_height: hint,
                            font: base.font,
                            font_size: base.font_size,
                            alignment: slot.align,
                        },
                        content_space(),
                        q.size,
                    )
                }
            },
            InlineFragment::Text { .. } => new.fragment_layouts@[i] is Text,
        },
{
    let fs = content.fragments@;
    let prepared = usable_prepared(old, fs.len() as int);
    let context = spec_element_context(content, hint, wrap_width, window_style, rem_size);
    let (resolved, bs, sw) = choose|resolved: Seq<InlineFragmentLayout>, bs: Seq<crate::host::Boundary>, sw: Pixels|
        #[trigger] pass_steps::<E, H>(model, fs, new, prepared, context, wrap_width, hint, resolved, bs, sw);
    assert(crate::layout::resolved_layout::<E, H>(model, fs[i], prepared, i, context, resolved[i]));
    assert(keeps_measure(resolved[i], new.fragment_layouts@[i]));
}

/// The maxima over a line's segments are at least zero and at least each
/// segment's ascent, descent and aligned height.
proof fn lemma_maxima_bound(segs: Seq<ShapedSegment>, layouts: Seq<InlineFragmentLayout>, hint: int, k: int)
    requires
        0 <= k <= segs.len(),
    ensures
        max_ascent_upto(segs, layouts, hint, k) >= 0,
        max_descent_upto(segs, layouts, hint, k) >= 0,
        max_aligned_upto(segs, layouts, k) >= 0,
        forall|q: int|
            0 <= q < k ==> seg_ascent(#[trigger] segs[q], layouts, hint) <= max_ascent_upto(segs, layouts, hint, k)
                && seg_descent(segs[q], layouts, hint) <= max_descent_upto(segs, layouts, hint, k) && seg_aligned_height(
                segs[q],
                layouts,
            ) <= max_aligned_upto(segs, layouts, k),
    decreases k,
{
    if k > 0 {
        lemma_maxima_bound(segs, layouts, hint, k - 1);
    }
}

/// The box of a line: with `a` and `d` the largest ascent and descent of its
/// segments and `m` the height of its tallest aligned element, its height is
/// the largest of `a + d`, the line height hint and `m`; its baseline lies
/// `a` below its top, pushed down by half the height beyond `a + d`, or
/// halfway down when `a + d` is zero; its width is the advance of its
/// segments.
pub proof fn law_line_box<E>(
    fs: Seq<InlineFragment<E>>,
    layouts: Seq<InlineFragmentLayout>,
    line: crate::wrap_line::InlineWrapLine,
    hint: int,
)
    requires
        line_formed(fs, layouts, line, hint),
    ensures
        ({
            let segs = line.shaped_segments@;
            let a = max_ascent_upto(segs, layouts, hint, segs.len() as int);
            let d = max_descent_upto(segs, layouts, hint, segs.len() as int);
            let m = max_aligned_upto(segs, layouts, segs.len() as int);
            &&& a >= 0 && d >= 0 && m >= 0
            &&& forall|q: int|
                0 <= q < segs.len() ==> seg_ascent(#[trigger] segs[q], layouts, hint) <= a && seg_descent(
                    segs[q],
                    layouts,
                    hint,
                ) <= d && seg_aligned_height(segs[q], layouts) <= m
            &&& line.height >= a + d && line.height >= hint && line.height >= m
            &&& line.height == a + d || line.height == hint || line.height == m
            &&& a + d > 0 ==> line.baseline_above_top == a + spec_half(line.height - (a + d))
            &&& a + d <= 0 ==> line.baseline_above_top == spec_half(line.height as int)
            &&& line.width == widths_before(segs, segs.len() as int)
        }),
{
    let segs = line.shaped_segments@;
    lemma_maxima_bound(segs, layouts, hint, segs.len() as int);
}

} // verus!
