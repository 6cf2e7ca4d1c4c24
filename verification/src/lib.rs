//! Inline spans: text fragments and inline elements laid out together in
//! wrapped lines, with caret positioning, hit testing and selection geometry.
//!
//! Lengths are integer layout units (see [`geometry::Pixels`]); text shaping,
//! line wrapping and element measurement are supplied by a [`host::LayoutHost`].

pub mod geometry;
pub mod style;
pub mod text;
pub mod content;
pub mod slices;
pub mod shaping;
pub mod wrap_line;
pub mod host;
pub mod monospace;
pub mod line_build;
pub mod coverage;
pub mod placement;
pub mod forming;
pub mod layout;
pub mod queries;
pub mod builder;
pub mod paint;
pub mod span;
pub mod validate;
pub mod laws;
pub mod layout_laws;
pub mod paint_laws;
pub mod geometry_laws;
