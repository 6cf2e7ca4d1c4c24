use vstd::prelude::*;
use crate::geometry::{Pixels, PX_LIMIT, px_ok, extent_ok, trunc_div};

verus! {

/// Shared text: the text of a fragment or the name of a font family.
pub type SharedString = String;

/// A length in thousandths of the root font size.
#[derive(Clone, Copy, Debug, PartialEq, Eq, Structural)]
pub struct Rems(pub i64);

/// A length of `thousandths / 1000` times the root font size.
pub fn rems(thousandths: i64) -> (r: Rems)
    ensures
        r.0 == thousandths,
{
    Rems(thousandths)
}

/// A length that is either absolute or relative to the root font size.
#[derive(Clone, Copy, Debug, PartialEq, Eq, Structural)]
pub enum AbsoluteLength {
    /// A length in layout units.
    Pixels(Pixels),
    /// A length relative to the root font size.
    Rems(Rems),
}

impl AbsoluteLength {
    /// The magnitudes in the length are within the accepted bounds.
    pub open spec fn in_bounds(self) -> bool {
        match self {
            AbsoluteLength::Pixels(p) => px_ok(p as int),
            AbsoluteLength::Rems(r) => px_ok(r.0 as int),
        }
    }

    /// The length in layout units, for the given root font size.
    pub open spec fn spec_to_pixels(self, rem_size: int) -> int {
        match self {
            AbsoluteLength::Pixels(p) => p as int,
            AbsoluteLength::Rems(r) => trunc_div(r.0 * rem_size, 1000),
        }
    }

    /// Converts the length to layout units for the given root font size.
    pub fn to_pixels(&self, rem_size: Pixels) -> (r: Pixels)
        requires
            self.in_bounds(),
            extent_ok(rem_size as int),
        ensures
            r == self.spec_to_pixels(rem_size as int),
            -PX_LIMIT * PX_LIMIT <= r <= PX_LIMIT * PX_LIMIT,
    {
        match self {
            AbsoluteLength::Pixels(p) => *p,
            AbsoluteLength::Rems(r) => {
                let v = r.0;
                proof {
                    lemma_product_bounds(v as int, rem_size as int);
                }
                let prod = v * rem_size;
                if prod >= 0 {
                    prod / 1000
                } else {
                    let neg = -prod;
                    -(neg / 1000)
                }
            },
        }
    }
}

/// A product of two bounded lengths stays far inside `i64`.
proof fn lemma_product_bounds(a: int, b: int)
    requires
        px_ok(a),
        px_ok(b),
    ensures
        -PX_LIMIT * PX_LIMIT <= a * b <= PX_LIMIT * PX_LIMIT,
{
    assert(-PX_LIMIT * PX_LIMIT <= a * b <= PX_LIMIT * PX_LIMIT) by (nonlinear_arith)
        requires
            -PX_LIMIT <= a <= PX_LIMIT,
            -PX_LIMIT <= b <= PX_LIMIT,
            PX_LIMIT > 0,
    ;
}

/// A length that may also be a fraction of a reference length.
#[derive(Clone, Copy, Debug, PartialEq, Eq, Structural)]
pub enum DefiniteLength {
    /// An absolute length.
    Absolute(AbsoluteLength),
    /// Thousandths of the reference length.
    Fraction(i64),
}

impl DefiniteLength {
    /// The magnitudes in the length are within the accepted bounds.
    pub open spec fn in_bounds(self) -> bool {
        match self {
            DefiniteLength::Absolute(a) => a.in_bounds(),
            DefiniteLength::Fraction(f) => px_ok(f as int),
        }
    }

    /// The length in layout units, given the reference length and the root font size.
    pub open spec fn spec_to_pixels(self, base: AbsoluteLength, rem_size: int) -> int {
        match self {
            DefiniteLength::Absolute(a) => a.spec_to_pixels(rem_size),
            DefiniteLength::Fraction(f) => trunc_div(f * base.spec_to_pixels(rem_size), 1000),
        }
    }

    /// Converts the length to layout units.
    pub fn to_pixels(&self, base: AbsoluteLength, rem_size: Pixels) -> (r: Pixels)
        requires
            self.in_bounds(),
            base.in_bounds(),
            extent_ok(rem_size as int),
            px_ok(base.spec_to_pixels(rem_size as int)),
        ensures
            r == self.spec_to_pixels(base, rem_size as int),
    {
        match self {
            DefiniteLength::Absolute(a) => a.to_pixels(rem_size),
            DefiniteLength::Fraction(f) => {
                let b = base.to_pixels(rem_size);
                let fr: i64 = *f;
                let rel = AbsoluteLength::Rems(Rems(fr));
                // a fraction of `b` is computed exactly as a rem length with root size `b`,
                // up to the sign of `b`
                if b >= 0 {
                    let r = rel.to_pixels(b);
                    assert(fr * b == b * fr) by (nonlinear_arith);
                    r
                } else {
                    let r = rel.to_pixels(-b);
                    assert(fr * (-b) == -(fr * b)) by (nonlinear_arith);
                    assert((-b) * fr == -(fr * b)) by (nonlinear_arith);
                    assert(trunc_div(-(fr * b), 1000) == -trunc_div(fr * b, 1000));
                    -r
                }
            },
        }
    }
}

/// A color in hue, saturation, lightness and alpha, each in thousandths.
#[derive(Clone, Copy, Debug, PartialEq, Eq, Structural)]
pub struct Hsla {
    /// Hue, in thousandths of a full turn.
    pub h: i64,
    /// Saturation, in thousandths.
    pub s: i64,
    /// Lightness, in thousandths.
    pub l: i64,
    /// Opacity, in thousandths.
    pub a: i64,
}

impl Hsla {
    /// Opaque black.
    pub fn black() -> (r: Hsla)
        ensures
            r == (Hsla { h: 0, s: 0, l: 0, a: 1000 }),
    {
        Hsla { h: 0, s: 0, l: 0, a: 1000 }
    }

    /// The fully transparent color.
    pub fn transparent() -> (r: Hsla)
        ensures
            r == (Hsla { h: 0, s: 0, l: 0, a: 0 }),
    {
        Hsla { h: 0, s: 0, l: 0, a: 0 }
    }
}

/// The weight of a font, from 100 (thin) to 900 (black).
#[derive(Clone, Copy, Debug, PartialEq, Eq, Structural)]
pub struct FontWeight(pub u16);

impl FontWeight {
    /// The regular weight.
    pub fn normal() -> (r: FontWeight)
        ensures
            r == FontWeight(400),
    {
        FontWeight(400)
    }

    /// The bold weight.
    pub fn bold() -> (r: FontWeight)
        ensures
            r == FontWeight(700),
    {
        FontWeight(700)
    }
}

/// The slant of a font.
#[derive(Clone, Copy, Debug, PartialEq, Eq, Structural)]
pub enum FontStyle {
    /// Upright glyphs.
    Normal,
    /// Italic glyphs.
    Italic,
    /// Slanted upright glyphs.
    Oblique,
}

/// How white space in text is treated.
#[derive(Clone, Copy, Debug, PartialEq, Eq, Structural)]
pub enum WhiteSpace {
    /// Text wraps at the available width.
    Normal,
    /// Text never wraps.
    Nowrap,
}

/// How text is underlined.
#[derive(Clone, Copy, Debug, PartialEq, Eq, Structural)]
pub struct UnderlineStyle {
    /// Thickness of the line.
    pub thickness: Pixels,
    /// Color of the line; the text color when absent.
    pub color: Option<Hsla>,
    /// Whether the line is wavy.
    pub wavy: bool,
}

/// A font: its family, weight and slant.
#[derive(Clone, Debug, PartialEq, Eq)]
pub struct Font {
    /// Family name.
    pub family: SharedString,
    /// Weight.
    pub weight: FontWeight,
    /// Slant.
    pub style: FontStyle,
}

impl Font {
    /// A copy of this font.
    pub fn duplicate(&self) -> (r: Font)
        ensures
            r == *self,
    {
        Font { family: self.family.clone(), weight: self.weight, style: self.style }
    }
}

/// The style of a run of text.
#[derive(Clone, Debug, PartialEq, Eq)]
pub struct TextStyle {
    /// Text color.
    pub color: Hsla,
    /// Font family name.
    pub font_family: SharedString,
    /// Font weight.
    pub font_weight: FontWeight,
    /// Font slant.
    pub font_style: FontStyle,
    /// Font size.
    pub font_size: AbsoluteLength,
    /// Height of a line of text, absolute or as a fraction of the font size.
    pub line_height: DefiniteLength,
    /// Background color behind the text.
    pub background_color: Option<Hsla>,
    /// Underline, if any.
    pub underline: Option<UnderlineStyle>,
    /// White-space handling.
    pub white_space: WhiteSpace,
}

/// A run of `len` bytes of text drawn with one font and color.
#[derive(Clone, Debug, PartialEq, Eq)]
pub struct TextRun {
    /// Length of the run in bytes.
    pub len: usize,
    /// Font of the run.
    pub font: Font,
    /// Text color.
    pub color: Hsla,
    /// Background color.
    pub background_color: Option<Hsla>,
    /// Underline, if any.
    pub underline: Option<UnderlineStyle>,
}

impl TextStyle {
    /// The style used where nothing else is given: the system UI font at
    /// one rem, regular weight, upright, black, with a golden-ratio line height.
    pub fn default() -> (r: TextStyle)
        ensures
            r == default_text_style_with_family(r.font_family),
            r.font_family@ == ".SystemUIFont"@,
    {
        TextStyle {
            color: Hsla::black(),
            font_family: ".SystemUIFont".to_owned(),
            font_weight: FontWeight::normal(),
            font_style: FontStyle::Normal,
            font_size: AbsoluteLength::Rems(Rems(1000)),
            line_height: DefiniteLength::Fraction(1618),
            background_color: None,
            underline: None,
            white_space: WhiteSpace::Normal,
        }
    }

    /// The lengths of the style are within the accepted bounds.
    pub open spec fn in_bounds(self) -> bool {
        self.font_size.in_bounds() && self.line_height.in_bounds()
    }

    /// The font described by this style.
    pub open spec fn spec_font(self) -> Font {
        Font { family: self.font_family, weight: self.font_weight, style: self.font_style }
    }

    /// The font described by this style.
    pub fn font(&self) -> (r: Font)
        ensures
            r == self.spec_font(),
    {
        Font { family: self.font_family.clone(), weight: self.font_weight, style: self.font_style }
    }

    /// A copy of this style.
    pub fn duplicate(&self) -> (r: TextStyle)
        ensures
            r == *self,
    {
        TextStyle {
            color: self.color,
            font_family: self.font_family.clone(),
            font_weight: self.font_weight,
            font_style: self.font_style,
            font_size: self.font_size,
            line_height: self.line_height,
            background_color: self.background_color,
            underline: self.underline,
            white_space: self.white_space,
        }
    }

    /// The run of `len` bytes drawn in this style.
    pub fn to_run(&self, len: usize) -> (r: TextRun)
        ensures
            r.len == len,
            r.font == self.spec_font(),
            r.color == self.color,
            r.background_color == self.background_color,
            r.underline == self.underline,
    {
        TextRun {
            len,
            font: self.font(),
            color: self.color,
            background_color: self.background_color,
            underline: self.underline,
        }
    }

    /// This style with every property the refinement sets replaced.
    pub open spec fn spec_refined(self, r: TextStyleRefinement) -> TextStyle {
        TextStyle {
            color: match r.color { Some(c) => c, None => self.color },
            font_family: match r.font_family { Some(f) => f, None => self.font_family },
            font_weight: match r.font_weight { Some(w) => w, None => self.font_weight },
            font_style: match r.font_style { Some(s) => s, None => self.font_style },
            font_size: match r.font_size { Some(s) => s, None => self.font_size },
            line_height: match r.line_height { Some(h) => h, None => self.line_height },
            background_color: match r.background_color {
                Some(c) => Some(c),
                None => self.background_color,
            },
            underline: match r.underline { Some(u) => Some(u), None => self.underline },
            white_space: match r.white_space { Some(w) => w, None => self.white_space },
        }
    }

    /// This style with every property the refinement sets replaced.
    pub fn refined(&self, r: &TextStyleRefinement) -> (out: TextStyle)
        ensures
            out == self.spec_refined(*r),
    {
        TextStyle {
            color: match r.color { Some(c) => c, None => self.color },
            font_family: match &r.font_family {
                Some(f) => f.clone(),
                None => self.font_family.clone(),
            },
            font_weight: match r.font_weight { Some(w) => w, None => self.font_weight },
            font_style: match r.font_style { Some(s) => s, None => self.font_style },
            font_size: match r.font_size { Some(s) => s, None => self.font_size },
            line_height: match r.line_height { Some(h) => h, None => self.line_height },
            background_color: match r.background_color {
                Some(c) => Some(c),
                None => self.background_color,
            },
            underline: match r.underline { Some(u) => Some(u), None => self.underline },
            white_space: match r.white_space { Some(w) => w, None => self.white_space },
        }
    }
}

impl Hsla {
    /// Opaque black.
    pub open spec fn black_spec() -> Hsla {
        Hsla { h: 0, s: 0, l: 0, a: 1000 }
    }
}

/// The default text style, with the given font family: regular weight,
/// upright, black, one rem, a golden-ratio line height, no background or
/// underline, wrapping white space.
pub open spec fn default_text_style_with_family(family: SharedString) -> TextStyle {
    TextStyle {
        color: Hsla::black_spec(),
        font_family: family,
        font_weight: FontWeight(400),
        font_style: FontStyle::Normal,
        font_size: AbsoluteLength::Rems(Rems(1000)),
        line_height: DefiniteLength::Fraction(1618),
        background_color: None,
        underline: None,
        white_space: WhiteSpace::Normal,
    }
}

/// A style, or the default style (with the given family) when there is none.
pub open spec fn style_or_default(style: Option<TextStyle>, family: SharedString) -> TextStyle {
    match style {
        Some(s) => s,
        None => default_text_style_with_family(family),
    }
}

/// Text properties to override; absent ones are inherited.
#[derive(Clone, Debug, PartialEq, Eq)]
pub struct TextStyleRefinement {
    /// Text color.
    pub color: Option<Hsla>,
    /// Font family name.
    pub font_family: Option<SharedString>,
    /// Font weight.
    pub font_weight: Option<FontWeight>,
    /// Font slant.
    pub font_style: Option<FontStyle>,
    /// Font size.
    pub font_size: Option<AbsoluteLength>,
    /// Line height.
    pub line_height: Option<DefiniteLength>,
    /// Background color.
    pub background_color: Option<Hsla>,
    /// Underline.
    pub underline: Option<UnderlineStyle>,
    /// White-space handling.
    pub white_space: Option<WhiteSpace>,
}

impl TextStyleRefinement {
    /// The refinement that overrides nothing.
    pub fn empty() -> (r: TextStyleRefinement)
        ensures
            r == TextStyleRefinement::spec_empty(),
    {
        TextStyleRefinement {
            color: None,
            font_family: None,
            font_weight: None,
            font_style: None,
            font_size: None,
            line_height: None,
            background_color: None,
            underline: None,
            white_space: None,
        }
    }

    /// The refinement that overrides nothing.
    pub open spec fn spec_empty() -> TextStyleRefinement {
        TextStyleRefinement {
            color: None,
            font_family: None,
            font_weight: None,
            font_style: None,
            font_size: None,
            line_height: None,
            background_color: None,
            underline: None,
            white_space: None,
        }
    }
}

/// Style overrides applied to a span.
#[derive(Clone, Debug, PartialEq, Eq)]
pub struct StyleRefinement {
    /// Overrides of the inherited text style.
    pub text: TextStyleRefinement,
}

impl StyleRefinement {
    /// The refinement that overrides nothing.
    pub fn empty() -> (r: StyleRefinement)
        ensures
            r.text == TextStyleRefinement::spec_empty(),
    {
        StyleRefinement { text: TextStyleRefinement::empty() }
    }
}

} // verus!
