# Inline spans

A verified library for laying out inline content: styled text fragments and
inline elements flowed together into wrapped lines, with caret positioning,
hit testing, selection geometry, decorations and a paint plan.

Lengths are integer layout units. Text shaping, line breaking and element
measurement come from a `host::LayoutHost`; `monospace::MonospaceHost` is a
verified host for fixed-advance text. What a host may return is stated by
relations over the host's model (`measures`, `wraps`, `shapes`, `advances`),
which none of its services changes, and the layout's contracts speak of those
relations.

- `src/content.rs`, `src/builder.rs`: the content model and its builder.
- `src/slices.rs`, `src/text.rs`: byte, cell and fragment bookkeeping.
- `src/line_build.rs`, `src/layout.rs`: building, stacking and caching lines.
- `src/coverage.rs`, `src/placement.rs`, `src/forming.rs`: why wrapped lines cover the
  content's cells in order, why every element stays placed on its line, and why
  each line keeps the shape it was built with.
- `src/wrap_line.rs`, `src/queries.rs`: caret, hit testing, selections, geometry.
- `src/paint.rs`, `src/span.rs`: prepaint and paint plans, the span itself.
- `src/laws.rs`, `src/layout_laws.rs`, `src/paint_laws.rs`: properties relating several
  functions.
- `src/validate.rs`: run-time checks of the conditions the queries and painting require.
- `app/`: process-wide settings and a shared layout handle.
