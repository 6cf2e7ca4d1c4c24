use vstd::prelude::*;
use crate::geometry::px;
use crate::style::{TextStyle, SharedString, FontWeight, FontStyle, Hsla, AbsoluteLength, Rems, UnderlineStyle, rems, style_or_default};
use crate::content::{InlineContent, InlineFragment, InlineElementSlot, InlineElementAlign};

use crate::span::InlineSpan;

verus! {

/// Values that become the text of a fragment.
pub trait IntoSharedString {
    /// The characters of the value.
    spec fn text_view(&self) -> Seq<char>;

    /// The value as shared text.
    fn into_shared_string(self) -> (r: SharedString)
        ensures
            r@ == self.text_view(),
    ;
}

impl<'a> IntoSharedString for &'a str {
    open spec fn text_view(&self) -> Seq<char> {
        (**self)@
    }

    fn into_shared_string(self) -> (r: SharedString) {
        self.to_owned()
    }
}

impl IntoSharedString for String {
    open spec fn text_view(&self) -> Seq<char> {
        (*self)@
    }

    fn into_shared_string(self) -> (r: SharedString) {
        self
    }
}

/// Values that give a text fragment its style, or none.
pub trait IntoOptionalStyle {
    /// The style the value stands for.
    spec fn style_view(&self) -> Option<TextStyle>;

    /// The value as an optional style.
    fn into_optional_style(self) -> (r: Option<TextStyle>)
        ensures
            r == self.style_view(),
    ;
}

impl IntoOptionalStyle for TextStyle {
    open spec fn style_view(&self) -> Option<TextStyle> {
        Some(*self)
    }

    fn into_optional_style(self) -> (r: Option<TextStyle>) {
        Some(self)
    }
}

impl IntoOptionalStyle for Option<TextStyle> {
    open spec fn style_view(&self) -> Option<TextStyle> {
        *self
    }

    fn into_optional_style(self) -> (r: Option<TextStyle>) {
        self
    }
}

/// Builds inline content fragment by fragment.
#[derive(Debug)]
pub struct InlineSpanBuilder<E> {
    /// The fragments added so far.
    pub fragments: Vec<InlineFragment<E>>,
    /// The style text children are added with.
    pub default_style: Option<TextStyle>,
    /// The alignment elements are added with.
    pub inline_align: InlineElementAlign,
}

/// Children that can be added to an inline span: text, or wrappers around it.
pub trait IntoInlineChild<E> {
    /// Adding this child turns the builder `before` into `after`.
    spec fn added(&self, before: InlineSpanBuilder<E>, after: InlineSpanBuilder<E>) -> bool;

    /// Adds this child to the builder: fragments are only appended, and the
    /// builder's alignment is as before.
    fn add_to_inline_builder(self, builder: &mut InlineSpanBuilder<E>)
        ensures
            self.added(*old(builder), *final(builder)),
            final(builder).inline_align == old(builder).inline_align,
            final(builder).default_style == old(builder).default_style,
            old(builder).fragments@.len() <= final(builder).fragments@.len(),
            final(builder).fragments@.subrange(0, old(builder).fragments@.len() as int)
                == old(builder).fragments@,
    ;
}

/// The builder with one more text fragment: `text` in `style`.
pub open spec fn pushed_text<E>(
    old_b: InlineSpanBuilder<E>,
    new_b: InlineSpanBuilder<E>,
    text: Seq<char>,
    style: Option<TextStyle>,
) -> bool {
    &&& new_b.default_style == old_b.default_style
    &&& new_b.inline_align == old_b.inline_align
    &&& new_b.fragments@.len() == old_b.fragments@.len() + 1
    &&& new_b.fragments@.subrange(0, old_b.fragments@.len() as int) == old_b.fragments@
    &&& new_b.fragments@.last() matches InlineFragment::Text { text: t, style: s } && t@ == text && s == style
}

/// The builder with one more element fragment: `element` with `align`.
pub open spec fn pushed_element<E>(old_b: InlineSpanBuilder<E>, new_b: InlineSpanBuilder<E>, element: E, align: InlineElementAlign) -> bool {
    &&& new_b.default_style == old_b.default_style
    &&& new_b.inline_align == old_b.inline_align
    &&& new_b.fragments@ == old_b.fragments@.push(
        InlineFragment::Element { slot: InlineElementSlot { element, align } },
    )
}

/// `after` is `before` with one more text fragment holding `text` in the
/// builder's default style, or with no style of its own (so that it inherits
/// the style of its context) when the builder has none.
pub open spec fn pushed_text_child<E>(before: InlineSpanBuilder<E>, after: InlineSpanBuilder<E>, text: Seq<char>) -> bool {
    pushed_text(before, after, text, before.default_style)
}

impl<'a, E> IntoInlineChild<E> for &'a str {
    /// The text is appended in the builder's default style, or with no style
    /// of its own when the builder has none.
    open spec fn added(&self, before: InlineSpanBuilder<E>, after: InlineSpanBuilder<E>) -> bool {
        pushed_text_child(before, after, (**self)@)
    }

    fn add_to_inline_builder(self, builder: &mut InlineSpanBuilder<E>) {
        let style: Option<TextStyle> = match &builder.default_style {
            Some(s) => Some(s.duplicate()),
            None => None,
        };
        builder.push_text(self, style);
    }
}

impl<E> IntoInlineChild<E> for String {
    /// The text is appended in the builder's default style, or with no style
    /// of its own when the builder has none.
    open spec fn added(&self, before: InlineSpanBuilder<E>, after: InlineSpanBuilder<E>) -> bool {
        pushed_text_child(before, after, (*self)@)
    }

    fn add_to_inline_builder(self, builder: &mut InlineSpanBuilder<E>) {
        let style: Option<TextStyle> = match &builder.default_style {
            Some(s) => Some(s.duplicate()),
            None => None,
        };
        builder.push_text(self, style);
    }
}

/// A new builder with no fragments, no default style and `Auto` alignment.
pub fn inline<E>() -> (r: InlineSpanBuilder<E>)
    ensures
        r.fragments@.len() == 0,
        r.default_style is None,
        r.inline_align == InlineElementAlign::Auto,
{
    InlineSpanBuilder::default()
}

impl<E> InlineSpanBuilder<E> {
    /// A builder with no default style, which text then inherits from its context.
    pub fn default() -> (r: Self)
        ensures
            r.fragments@.len() == 0,
            r.default_style is None,
            r.inline_align == InlineElementAlign::Auto,
    {
        InlineSpanBuilder { fragments: Vec::new(), inline_align: InlineElementAlign::Auto, default_style: None }
    }

    /// A builder whose text children get `style`.
    pub fn new(style: TextStyle) -> (r: Self)
        ensures
            r.fragments@.len() == 0,
            r.default_style == Some(style),
            r.inline_align == InlineElementAlign::Auto,
    {
        InlineSpanBuilder { fragments: Vec::new(), inline_align: InlineElementAlign::Auto, default_style: Some(style) }
    }

    /// Appends `text` in `style`.
    pub fn text<T: IntoSharedString>(self, text: T, style: TextStyle) -> (r: Self)
        ensures
            pushed_text(self, r, text.text_view(), Some(style)),
    {
        let mut b = self;
        b.push_text(text, style);
        b
    }

    /// Adds a child (text or a wrapped child).
    pub fn child<C: IntoInlineChild<E>>(self, child: C) -> (r: Self)
        ensures
            child.added(self, r),
            r.inline_align == self.inline_align,
            r.default_style == self.default_style,
            self.fragments@.len() <= r.fragments@.len(),
            r.fragments@.subrange(0, self.fragments@.len() as int) == self.fragments@,
    {
        let mut b = self;
        child.add_to_inline_builder(&mut b);
        b
    }

    /// Adds a child (text or a wrapped child), in place.
    pub fn push_child<C: IntoInlineChild<E>>(&mut self, child: C) -> (r: &mut Self)
        ensures
            child.added(*old(self), *r),
            r.inline_align == old(self).inline_align,
            r.default_style == old(self).default_style,
            old(self).fragments@.len() <= r.fragments@.len(),
            r.fragments@.subrange(0, old(self).fragments@.len() as int) == old(self).fragments@,
            *final(self) == *final(r),
    {
        child.add_to_inline_builder(self);
        self
    }

    /// Appends `text` with `style` (a style or no style), in place.
    pub fn push_text<T: IntoSharedString, S: IntoOptionalStyle>(&mut self, text: T, style: S) -> (r: &mut Self)
        ensures
            pushed_text(*old(self), *r, text.text_view(), style.style_view()),
            *final(self) == *final(r),
    {
        let t = text.into_shared_string();
        let s = style.into_optional_style();
        self.fragments.push(InlineFragment::Text { text: t, style: s });
        proof {
            assert(self.fragments@.subrange(0, old(self).fragments@.len() as int) =~= old(self).fragments@);
        }
        self
    }

    /// Sets the style text children are added with.
    pub fn with_style(self, style: TextStyle) -> (r: Self)
        ensures
            r.fragments == self.fragments,
            r.default_style == Some(style),
            r.inline_align == self.inline_align,
    {
        let mut b = self;
        b.default_style = Some(style);
        b
    }

    /// Sets the alignment elements are added with.
    pub fn with_alignment(self, align: InlineElementAlign) -> (r: Self)
        ensures
            r.fragments == self.fragments,
            r.default_style == self.default_style,
            r.inline_align == align,
    {
        let mut b = self;
        b.inline_align = align;
        b
    }

    /// Appends an element with the builder's alignment.
    pub fn element(self, element: E) -> (r: Self)
        ensures
            pushed_element(self, r, element, self.inline_align),
    {
        let mut b = self;
        let align = b.inline_align;
        b.push_element_with_context(align, element);
        b
    }

    /// Appends an element with the builder's alignment, in place.
    pub fn push_element(&mut self, element: E) -> (r: &mut Self)
        ensures
            pushed_element(*old(self), *r, element, old(self).inline_align),
            *final(self) == *final(r),
    {
        let align = self.inline_align;
        self.push_element_with_context(align, element)
    }

    /// Appends an element with the given alignment; the builder's alignment
    /// stays as it is.
    pub fn element_aligned(self, align: InlineElementAlign, element: E) -> (r: Self)
        ensures
            pushed_element(self, r, element, align),
    {
        let mut b = self;
        b.push_element_aligned(align, element);
        b
    }

    /// Appends an element with the given alignment, in place.
    pub fn push_element_aligned(&mut self, align: InlineElementAlign, element: E) -> (r: &mut Self)
        ensures
            pushed_element(*old(self), *r, element, align),
            *final(self) == *final(r),
    {
        self.push_element_with_context(align, element)
    }

    /// Appends an element, built during layout with the surrounding context,
    /// with the given alignment.
    pub fn element_with_context(self, align: InlineElementAlign, element: E) -> (r: Self)
        ensures
            pushed_element(self, r, element, align),
    {
        let mut b = self;
        b.push_element_with_context(align, element);
        b
    }

    /// Appends an element with the given alignment, in place.
    pub fn push_element_with_context(&mut self, align: InlineElementAlign, element: E) -> (r: &mut Self)
        ensures
            pushed_element(*old(self), *r, element, align),
            *final(self) == *final(r),
    {
        self.fragments.push(InlineFragment::Element { slot: InlineElementSlot { element, align } });
        self
    }

    /// The span of the built content, with a fresh layout.
    pub fn build(self) -> (r: InlineSpan<E>)
        ensures
            r.content.fragments == self.fragments,
            r.content.default_style == self.default_style,
            r.content.inline_align == self.inline_align,
            r.layout.is_fresh(),
            r.layout.wf(),
            r.style.text == crate::style::TextStyleRefinement::spec_empty(),
    {
        InlineSpan::new(
            InlineContent {
                fragments: self.fragments,
                default_style: self.default_style,
                inline_align: self.inline_align,
            },
        )
    }
}


/// A child of an inline span with its own alignment and style.
#[derive(Debug)]
pub struct InlineSpanChild<T> {
    /// The wrapped child.
    pub content: T,
    /// Alignment for the elements of the child, if set.
    pub alignment: Option<InlineElementAlign>,
    /// Style for the text of the child, if set.
    pub style: Option<TextStyle>,
}

/// The style of a child after a setter: its own style (or the default style
/// when it has none) with the setter's change.
pub open spec fn set_style<T>(old_child: InlineSpanChild<T>, new_child: InlineSpanChild<T>, changed: TextStyle) -> bool {
    &&& new_child.alignment == old_child.alignment
    &&& new_child.content == old_child.content
    &&& new_child.style == Some(changed)
}

/// Wraps a child so it can be given its own alignment and style.
pub fn span<T>(content: T) -> (r: InlineSpanChild<T>)
    ensures
        r.content == content,
        r.alignment is None,
        r.style is None,
{
    InlineSpanChild { content, alignment: None, style: None }
}

impl<T> InlineSpanChild<T> {
    /// Sets the alignment for this child.
    pub fn with_alignment(self, alignment: InlineElementAlign) -> (r: Self)
        ensures
            r.content == self.content,
            r.alignment == Some(alignment),
            r.style == self.style,
    {
        let mut c = self;
        c.alignment = Some(alignment);
        c
    }

    /// Sets the text style for this child.
    pub fn with_style(self, style: TextStyle) -> (r: Self)
        ensures
            r.content == self.content,
            r.alignment == self.alignment,
            r.style == Some(style),
    {
        let mut c = self;
        c.style = Some(style);
        c
    }

    /// The child's style, or the default style when it has none.
    fn text_style(&self) -> (r: TextStyle)
        ensures
            r == style_or_default(self.style, r.font_family),
            self.style is None ==> r.font_family@ == ".SystemUIFont"@,
    {
        match &self.style {
            Some(s) => s.duplicate(),
            None => TextStyle::default(),
        }
    }

    /// Sets the font family.
    pub fn font_family<F: IntoSharedString>(self, family: F) -> (r: Self)
        ensures
            r.style matches Some(s) && s.font_family@ == family.text_view() && set_style(
                self,
                r,
                TextStyle { font_family: s.font_family, ..style_or_default(self.style, s.font_family) },
            ),
    {
        let mut c = self;
        let mut st = c.text_style();
        st.font_family = family.into_shared_string();
        c.style = Some(st);
        c
    }

    /// Sets the font weight.
    pub fn font_weight(self, weight: FontWeight) -> (r: Self)
        ensures
            r.style matches Some(s) && set_style(
                self,
                r,
                TextStyle { font_weight: weight, ..style_or_default(self.style, s.font_family) },
            ),
            self.style is None ==> r.style->0.font_family@ == ".SystemUIFont"@,
    {
        let mut c = self;
        let mut st = c.text_style();
        st.font_weight = weight;
        c.style = Some(st);
        c
    }

    /// Sets the font slant.
    pub fn font_style(self, style: FontStyle) -> (r: Self)
        ensures
            r.style matches Some(s) && set_style(
                self,
                r,
                TextStyle { font_style: style, ..style_or_default(self.style, s.font_family) },
            ),
            self.style is None ==> r.style->0.font_family@ == ".SystemUIFont"@,
    {
        let mut c = self;
        let mut st = c.text_style();
        st.font_style = style;
        c.style = Some(st);
        c
    }

    /// Sets the text color.
    pub fn text_color(self, color: Hsla) -> (r: Self)
        ensures
            r.style matches Some(s) && set_style(
                self,
                r,
                TextStyle { color, ..style_or_default(self.style, s.font_family) },
            ),
            self.style is None ==> r.style->0.font_family@ == ".SystemUIFont"@,
    {
        let mut c = self;
        let mut st = c.text_style();
        st.color = color;
        c.style = Some(st);
        c
    }

    /// Sets the background color.
    pub fn bg(self, color: Hsla) -> (r: Self)
        ensures
            r.style matches Some(s) && set_style(
                self,
                r,
                TextStyle { background_color: Some(color), ..style_or_default(self.style, s.font_family) },
            ),
            self.style is None ==> r.style->0.font_family@ == ".SystemUIFont"@,
    {
        let mut c = self;
        let mut st = c.text_style();
        st.background_color = Some(color);
        c.style = Some(st);
        c
    }

    /// Turns a one-unit solid underline on, or the underline off.
    pub fn underline(self, underline: bool) -> (r: Self)
        ensures
            r.style matches Some(s) && set_style(
                self,
                r,
                TextStyle {
                    underline: if underline {
                        Some(UnderlineStyle { thickness: 1, color: None, wavy: false })
                    } else {
                        None
                    },
                    ..style_or_default(self.style, s.font_family)
                },
            ),
            self.style is None ==> r.style->0.font_family@ == ".SystemUIFont"@,
    {
        let mut c = self;
        let mut st = c.text_style();
        if underline {
            st.underline = Some(UnderlineStyle { thickness: px(1), color: None, wavy: false });
        } else {
            st.underline = None;
        }
        c.style = Some(st);
        c
    }

    /// Sets the slant to italic.
    pub fn italic(self) -> (r: Self)
        ensures
            r.style matches Some(s) && set_style(
                self,
                r,
                TextStyle { font_style: FontStyle::Italic, ..style_or_default(self.style, s.font_family) },
            ),
            self.style is None ==> r.style->0.font_family@ == ".SystemUIFont"@,
    {
        self.font_style(FontStyle::Italic)
    }

    /// Sets the weight to bold.
    pub fn bold(self) -> (r: Self)
        ensures
            r.style matches Some(s) && set_style(
                self,
                r,
                TextStyle { font_weight: FontWeight(700), ..style_or_default(self.style, s.font_family) },
            ),
            self.style is None ==> r.style->0.font_family@ == ".SystemUIFont"@,
    {
        self.font_weight(FontWeight::bold())
    }

    /// Sets the font size.
    pub fn text_size(self, size: AbsoluteLength) -> (r: Self)
        ensures
            r.style matches Some(s) && set_style(
                self,
                r,
                TextStyle { font_size: size, ..style_or_default(self.style, s.font_family) },
            ),
            self.style is None ==> r.style->0.font_family@ == ".SystemUIFont"@,
    {
        let mut c = self;
        let mut st = c.text_style();
        st.font_size = size;
        c.style = Some(st);
        c
    }

    /// Sets the font size to seven eighths of a rem.
    pub fn text_sm(self) -> (r: Self)
        ensures
            r.style matches Some(s) && set_style(
                self,
                r,
                TextStyle { font_size: AbsoluteLength::Rems(Rems(875)), ..style_or_default(self.style, s.font_family) },
            ),
            self.style is None ==> r.style->0.font_family@ == ".SystemUIFont"@,
    {
        self.text_size(AbsoluteLength::Rems(rems(875)))
    }

    /// Sets the font size to nine eighths of a rem.
    pub fn text_lg(self) -> (r: Self)
        ensures
            r.style matches Some(s) && set_style(
                self,
                r,
                TextStyle { font_size: AbsoluteLength::Rems(Rems(1125)), ..style_or_default(self.style, s.font_family) },
            ),
            self.style is None ==> r.style->0.font_family@ == ".SystemUIFont"@,
    {
        self.text_size(AbsoluteLength::Rems(rems(1125)))
    }
}

/// The builder a wrapped child is added to: `before` with the child's
/// alignment and style, where it sets them.
pub open spec fn child_scope<E, T>(child: InlineSpanChild<T>, before: InlineSpanBuilder<E>) -> InlineSpanBuilder<E> {
    InlineSpanBuilder {
        fragments: before.fragments,
        default_style: match child.style {
            Some(s) => Some(s),
            None => before.default_style,
        },
        inline_align: match child.alignment {
            Some(a) => a,
            None => before.inline_align,
        },
    }
}

impl<E, T: IntoInlineChild<E>> IntoInlineChild<E> for InlineSpanChild<T> {
    /// The wrapped child is added with the child's alignment and style in
    /// effect, for this child only: the builder's alignment and default style
    /// are then as they were.
    open spec fn added(&self, before: InlineSpanBuilder<E>, after: InlineSpanBuilder<E>) -> bool {
        exists|inner: InlineSpanBuilder<E>|
            #![trigger self.content.added(child_scope(*self, before), inner)]
            self.content.added(child_scope(*self, before), inner) && after.fragments == inner.fragments
                && after.inline_align == before.inline_align && after.default_style == before.default_style
    }

    /// Adds the wrapped child with the child's alignment and style in effect.
    fn add_to_inline_builder(self, builder: &mut InlineSpanBuilder<E>) {
        let old_align = match self.alignment {
            Some(_) => Some(builder.inline_align),
            None => None,
        };
        let mut old_style: Option<TextStyle> = None;
        core::mem::swap(&mut old_style, &mut builder.default_style);
        builder.default_style = match &old_style {
            Some(s) => Some(s.duplicate()),
            None => None,
        };
        match self.alignment {
            Some(align) => {
                builder.inline_align = align;
            },
            None => {},
        }
        match &self.style {
            Some(style) => {
                builder.default_style = Some(style.duplicate());
            },
            None => {},
        }
        let ghost mid = *builder;
        proof {
            assert(mid == child_scope(self, *old(builder)));
        }
        self.content.add_to_inline_builder(builder);
        let ghost inner = *builder;
        match old_align {
            Some(align) => {
                builder.inline_align = align;
            },
            None => {},
        }
        builder.default_style = old_style;
        proof {
            assert(self.content.added(child_scope(self, *old(builder)), inner));
        }
    }
}

/// An inline element given as a child of a span.
#[derive(Debug)]
pub struct ElementChild<E>(pub E);

impl<E> IntoInlineChild<E> for ElementChild<E> {
    /// The element is appended with the builder's alignment.
    open spec fn added(&self, before: InlineSpanBuilder<E>, after: InlineSpanBuilder<E>) -> bool {
        pushed_element(before, after, self.0, before.inline_align)
    }

    fn add_to_inline_builder(self, builder: &mut InlineSpanBuilder<E>) {
        let align = builder.inline_align;
        let ElementChild(element) = self;
        builder.push_element_with_context(align, element);
        proof {
            assert(builder.fragments@.subrange(0, old(builder).fragments@.len() as int) =~= old(builder).fragments@);
        }
    }
}

} // verus!
