use lib::builder::{span, ElementChild, InlineSpanBuilder};
use lib::content::{
    CaretAffinity, InlineContent, InlineElementAlign, InlineElementSlot, InlineElementSpec,
    InlineFragment,
};
use lib::geometry::{AvailableSize, AvailableSpace, Bounds, KnownSize, Pixels, Point, Size};
use lib::host::LayoutHost;
use lib::layout::{InlineDecoration, InlineDecorationStyle, InlineSpanLayout};
use lib::monospace::MonospaceHost;
use lib::paint::{ElementPrepaint, PaintCommand};
use lib::slices::{intersect_ranges, InlineFragmentLayout, LineFragment};
use lib::span::InlineSpan;
use lib::style::{AbsoluteLength, Hsla, SharedString, TextStyle, WhiteSpace};
use lib::text::{byte_offset_to_cell_index, cell_to_byte_offset};
use lib::wrap_line::SelectionSegment;
use lib::validate::{coord_in_range, extent_in_range, utf8_len_within};

const REM: Pixels = 16;

fn host() -> MonospaceHost {
    MonospaceHost::new(8, 12, 4)
}

fn text(s: &str) -> InlineFragment<Size> {
    InlineFragment::Text { text: SharedString::from(s), style: Some(TextStyle::default()) }
}

fn element(width: Pixels, height: Pixels, align: InlineElementAlign) -> InlineFragment<Size> {
    InlineFragment::Element { slot: InlineElementSlot { element: Size::new(width, height), align } }
}

fn span_of(fragments: Vec<InlineFragment<Size>>) -> InlineSpan<Size> {
    InlineSpan::new(InlineContent {
        fragments,
        default_style: Some(TextStyle::default()),
        inline_align: InlineElementAlign::Auto,
    })
}

fn wrap_at(width: Pixels) -> (KnownSize, AvailableSize) {
    (
        KnownSize { width: None, height: None },
        AvailableSize { width: AvailableSpace::Definite(width), height: AvailableSpace::MaxContent },
    )
}

fn laid_out(fragments: Vec<InlineFragment<Size>>, wrap_width: Pixels) -> InlineSpan<Size> {
    let mut span = span_of(fragments);
    let mut host = host();
    let (known, available) = wrap_at(wrap_width);
    span.measure(known, available, &TextStyle::default(), REM, &mut host);
    span
}

fn ranges(layout: &InlineSpanLayout) -> Vec<(usize, usize)> {
    layout.lines.iter().map(|l| (l.logical_start, l.logical_end)).collect()
}

#[test]
fn lines_partition_the_cells_in_order() {
    let span = laid_out(vec![text("hello "), element(12, 10, InlineElementAlign::Auto), text("world")], 40);
    assert_eq!(ranges(&span.layout), vec![(0, 5), (5, 9), (9, 12)]);
    let span = laid_out(vec![text("a\u{0301}bc"), text(""), text("d")], 16);
    assert_eq!(ranges(&span.layout), vec![(0, 2), (2, 4), (4, 5)]);
}

#[test]
fn unwrapped_content_is_one_line() {
    let mut span = span_of(vec![text("no wrapping here")]);
    let mut host = host();
    let size = span.measure(
        KnownSize { width: None, height: None },
        AvailableSize { width: AvailableSpace::MaxContent, height: AvailableSpace::MaxContent },
        &TextStyle::default(),
        REM,
        &mut host,
    );
    assert_eq!(ranges(&span.layout), vec![(0, 16)]);
    assert_eq!(size, Size::new(128, 25));

    let mut nowrap = TextStyle::default();
    nowrap.white_space = WhiteSpace::Nowrap;
    let mut span = span_of(vec![text("no wrapping here")]);
    let (known, available) = wrap_at(8);
    span.measure(known, available, &nowrap, REM, &mut host);
    assert_eq!(span.layout.lines.len(), 1);
    assert_eq!(span.layout.last_wrap_width, None);
}

#[test]
fn empty_content_has_no_lines() {
    let span = laid_out(vec![text(""), text("")], 10);
    assert!(span.layout.lines.is_empty());
    assert_eq!(span.layout.measured_size, Size::new(0, 0));
    assert_eq!(span.layout.position_for_logical_index(0, CaretAffinity::Upstream), None);
    assert_eq!(span.layout.logical_index_for_point(Point::new(0, 0), CaretAffinity::Upstream), None);
}

#[test]
fn lines_stack_and_size_the_span() {
    let span = laid_out(vec![text("abcd"), element(8, 40, InlineElementAlign::Top), text("ef")], 16);
    let layout = &span.layout;
    let mut y = 0;
    let mut widest = 0;
    for line in &layout.lines {
        assert_eq!(line.line_origin.y, y);
        y += line.height;
        widest = widest.max(line.indent_px + line.width);
    }
    assert_eq!(layout.measured_size, Size::new(widest, y));
    assert_eq!(layout.lines[2].height, 40);
}

#[test]
fn measuring_again_reuses_the_layout() {
    let mut span = span_of(vec![text("reuse me please")]);
    let mut host = host();
    let (known, available) = wrap_at(48);
    let first = span.measure(known, available, &TextStyle::default(), REM, &mut host);
    assert!(!span.layout.dirty);
    assert_eq!(span.layout.last_wrap_width, Some(48));
    assert_eq!(span.layout.last_line_height, Some(25));
    span.layout.set_decorations(vec![InlineDecoration {
        range: 0..2,
        style: InlineDecorationStyle { background: Hsla::black() },
    }]);
    span.layout.prepaint(Bounds::new(Point::new(3, 4), Size::new(48, 75)));
    let second = span.measure(known, available, &TextStyle::default(), REM, &mut host);
    assert_eq!(first, second);
    assert_eq!(span.layout.bounds(), Some(Bounds::new(Point::new(3, 4), Size::new(48, 75))));

    span.invalidate_layout();
    assert!(span.layout.dirty);
    let third = span.measure(known, available, &TextStyle::default(), REM, &mut host);
    assert_eq!(third, first);
    assert_eq!(span.layout.bounds(), None);
    assert_eq!(span.layout.decorations.len(), 1);
}

#[test]
fn changed_width_recomputes_the_layout() {
    let mut span = span_of(vec![text("abcdefgh")]);
    let mut host = host();
    let (known, available) = wrap_at(32);
    span.measure(known, available, &TextStyle::default(), REM, &mut host);
    assert_eq!(span.layout.lines.len(), 2);
    let (known, available) = wrap_at(64);
    let size = span.measure(known, available, &TextStyle::default(), REM, &mut host);
    assert_eq!(span.layout.lines.len(), 1);
    assert_eq!(size, Size::new(64, 25));
}

#[test]
fn cell_and_byte_offsets_round_trip() {
    let t = "a\u{0301}b\u{1F600}";
    for cell in 0..=t.chars().count() {
        let byte = cell_to_byte_offset(t, cell);
        assert_eq!(byte_offset_to_cell_index(t, byte), cell);
    }
    assert_eq!(cell_to_byte_offset(t, 2), 3);
    assert_eq!(cell_to_byte_offset(t, 99), t.len());
    assert_eq!(byte_offset_to_cell_index(t, 2), 2);
    assert_eq!(byte_offset_to_cell_index(t, 99), 4);
}

#[test]
fn element_alignment_places_elements() {
    for (align, expect_top) in [
        (InlineElementAlign::Top, 0),
        (InlineElementAlign::Bottom, 25 - 6),
        (InlineElementAlign::Middle, (25 - 6) / 2),
    ] {
        let span = laid_out(vec![text("ab"), element(10, 6, align), text("cd")], 1000);
        match span.layout.fragment_layouts[1] {
            InlineFragmentLayout::Element { instance } => {
                assert_eq!(instance.bounds.origin, Point::new(16, expect_top));
                assert_eq!(instance.bounds.size, Size::new(10, 6));
            }
            InlineFragmentLayout::Text => panic!("expected an element"),
        }
    }
}

#[test]
fn hit_testing_clamps_and_prefers_affinity_at_element_middle() {
    let span = laid_out(vec![text("ab"), element(10, 6, InlineElementAlign::Auto), text("cd")], 1000);
    let line = &span.layout.lines[0];
    assert_eq!(line.index_for_x(-5, CaretAffinity::Downstream), 0);
    assert_eq!(line.index_for_x(500, CaretAffinity::Upstream), 5);
    assert_eq!(line.index_for_x(21, CaretAffinity::Upstream), 2);
    assert_eq!(line.index_for_x(21, CaretAffinity::Downstream), 3);
    assert_eq!(line.index_for_x(18, CaretAffinity::Downstream), 2);
    assert_eq!(line.index_for_x(24, CaretAffinity::Upstream), 3);
    assert_eq!(line.x_for_index(2, CaretAffinity::Upstream), Some(16));
    assert_eq!(line.x_for_index(2, CaretAffinity::Downstream), Some(16));
    assert_eq!(line.x_for_index(3, CaretAffinity::Downstream), Some(26));
    assert_eq!(line.x_for_index(4, CaretAffinity::Upstream), Some(34));
    assert_eq!(line.x_for_index(5, CaretAffinity::Upstream), Some(42));
    assert_eq!(line.x_for_index(6, CaretAffinity::Upstream), None);
}

#[test]
fn selections_cover_the_overlap_of_each_line() {
    let span = laid_out(vec![text("hello "), element(12, 10, InlineElementAlign::Auto), text("world")], 40);
    let selections = span.layout.selections_for_range(3..9);
    assert_eq!(selections.len(), 2);
    assert_eq!((selections[0].line_index, selections[0].logical_start, selections[0].logical_end), (0, 3, 5));
    assert_eq!(
        selections[0].segments,
        vec![SelectionSegment::Text { fragment_index: 0, logical_range: 3..5, start_in_fragment: 3, end_in_fragment: 5 }]
    );
    assert_eq!((selections[1].line_index, selections[1].logical_start, selections[1].logical_end), (1, 5, 9));
    assert_eq!(
        selections[1].segments,
        vec![
            SelectionSegment::Text { fragment_index: 0, logical_range: 5..6, start_in_fragment: 5, end_in_fragment: 6 },
            SelectionSegment::Element { fragment_index: 1, logical_range: 6..7 },
            SelectionSegment::Text { fragment_index: 2, logical_range: 7..9, start_in_fragment: 0, end_in_fragment: 2 },
        ]
    );
    assert!(span.layout.selections_for_range(4..4).is_empty());
    assert!(span.layout.selection_rects(9..2).is_empty());
}

#[test]
fn intersecting_ranges() {
    assert_eq!(intersect_ranges(0..5, 3..9), Some(3..5));
    assert_eq!(intersect_ranges(0..3, 3..9), None);
    assert_eq!(intersect_ranges(4..4, 0..9), None);
}

#[test]
fn specs_carry_alignment_baselines() {
    let spec = InlineElementSpec::from_measured_element(Size::new(20, 11), InlineElementAlign::Middle);
    assert_eq!(spec.baseline_offset, Some(5));
    assert_eq!(
        spec.requested_space,
        AvailableSize { width: AvailableSpace::MaxContent, height: AvailableSpace::Definite(11) }
    );
    assert!(!spec.constrain_width);
    assert_eq!(spec.with_alignment(InlineElementAlign::Top).baseline_offset, Some(11));
    assert_eq!(spec.with_alignment(InlineElementAlign::Bottom).baseline_offset, Some(0));
    assert_eq!(spec.with_alignment(InlineElementAlign::Auto).baseline_offset, Some(5));
    let auto = InlineElementSpec::from_measured_element(Size::new(20, 11), InlineElementAlign::Auto);
    assert_eq!(auto.baseline_offset, None);
}

#[test]
fn builder_children_restore_alignment() {
    let builder = InlineSpanBuilder::<Size>::default()
        .with_alignment(InlineElementAlign::Bottom)
        .child(span(ElementChild(Size::new(1, 1))).with_alignment(InlineElementAlign::Top))
        .child(ElementChild(Size::new(2, 2)));
    assert_eq!(builder.inline_align, InlineElementAlign::Bottom);
    let aligns: Vec<InlineElementAlign> = builder
        .fragments
        .iter()
        .map(|f| match f {
            InlineFragment::Element { slot } => slot.align,
            InlineFragment::Text { .. } => panic!("expected elements"),
        })
        .collect();
    assert_eq!(aligns, vec![InlineElementAlign::Top, InlineElementAlign::Bottom]);
}

#[test]
fn styled_children_keep_or_set_the_default_style() {
    let mut big = TextStyle::default();
    big.font_size = AbsoluteLength::Pixels(30);
    let with_default = InlineSpanBuilder::<Size>::new(TextStyle::default())
        .child(span("x").with_style(big.clone()))
        .child("y");
    assert_eq!(with_default.default_style, Some(TextStyle::default()));
    match &with_default.fragments[1] {
        InlineFragment::Text { style, .. } => assert_eq!(style.as_ref(), Some(&TextStyle::default())),
        _ => panic!("expected text"),
    }
    let without_default = InlineSpanBuilder::<Size>::default()
        .child(span("x").with_style(big.clone()))
        .child("y");
    assert_eq!(without_default.default_style, None);
    match &without_default.fragments[0] {
        InlineFragment::Text { style, .. } => assert_eq!(style.as_ref(), Some(&big)),
        _ => panic!("expected text"),
    }
    match &without_default.fragments[1] {
        InlineFragment::Text { style, .. } => assert!(style.is_none()),
        _ => panic!("expected text"),
    }
}

#[test]
fn span_child_setters_start_from_the_default_style() {
    let child = span("x").bold().italic().text_sm().underline(true).bg(Hsla::black());
    let style = child.style.clone().unwrap();
    assert_eq!(style.font_weight.0, 700);
    assert_eq!(style.font_size, AbsoluteLength::Rems(lib::style::Rems(875)));
    assert_eq!(style.underline.map(|u| u.thickness), Some(1));
    assert_eq!(style.background_color, Some(Hsla::black()));
    assert_eq!(style.font_family, TextStyle::default().font_family);
    let plain = span("x").underline(false);
    assert_eq!(plain.style.unwrap().underline, None);
}

#[test]
fn layout_state_is_a_copy() {
    let span = laid_out(vec![text("copy"), element(4, 4, InlineElementAlign::Auto)], 100);
    let copy = span.layout_state();
    assert_eq!(ranges(&copy), ranges(&span.layout));
    assert_eq!(copy.fragment_layouts, span.layout.fragment_layouts);
    assert_eq!(copy.measured_size, span.layout.measured_size);
    let replaced = span_of(vec![text("other")]).with_layout(copy);
    assert_eq!(ranges(&replaced.layout), vec![(0, 5)]);
}

#[test]
fn prepaint_and_paint_follow_the_bounds() {
    let mut span = laid_out(vec![text("ab"), element(10, 6, InlineElementAlign::Top), text("cd")], 1000);
    assert!(span.paint(true).is_empty());
    span.layout.set_decorations(vec![InlineDecoration {
        range: 1..3,
        style: InlineDecorationStyle { background: Hsla::black() },
    }]);
    let prepaints = span.prepaint(Bounds::new(Point::new(100, 200), Size::new(50, 25)));
    assert_eq!(
        prepaints,
        vec![ElementPrepaint { fragment_index: 1, origin: Point::new(116, 200), size: Size::new(10, 6) }]
    );
    let commands = span.paint(false);
    assert_eq!(
        commands,
        vec![
            PaintCommand::Fill { bounds: Bounds::new(Point::new(108, 200), Size::new(18, 25)), color: Hsla::black() },
            PaintCommand::Text { line_index: 0, segment_index: 0, origin: Point::new(100, 200), line_height: 25 },
            PaintCommand::Element { fragment_index: 1 },
            PaintCommand::Text { line_index: 0, segment_index: 2, origin: Point::new(126, 200), line_height: 25 },
        ]
    );
    let with_outlines = span.paint(true);
    assert_eq!(with_outlines.len(), 6);
    assert!(matches!(with_outlines[4], PaintCommand::Outline { dashed: true, .. }));
    assert!(matches!(
        with_outlines[5],
        PaintCommand::Outline { dashed: false, bounds, .. } if bounds == Bounds::new(Point::new(116, 200), Size::new(10, 6))
    ));
}

#[test]
fn request_layout_measures_elements_ahead() {
    let mut span = span_of(vec![text("ab"), element(10, 6, InlineElementAlign::Bottom)]);
    let mut host = host();
    let style = span.request_layout(&TextStyle::default(), REM, &mut host);
    assert_eq!(style, TextStyle::default());
    assert_eq!(span.layout.prepared_elements.len(), 2);
    assert!(span.layout.prepared_elements[0].is_none());
    let prepared = span.layout.prepared_elements[1].unwrap();
    assert_eq!(prepared.size, Size::new(10, 6));
    assert_eq!(prepared.baseline_offset, Some(0));
    span.style().text.font_size = Some(AbsoluteLength::Pixels(32));
    let refined = span.request_layout(&TextStyle::default(), REM, &mut host);
    assert_eq!(refined.font_size, AbsoluteLength::Pixels(32));
}

#[test]
fn monospace_host_wraps_before_overflow() {
    let mut host = host();
    let fragments = vec![
        LineFragment::Text { text: String::from("abc") },
        LineFragment::Element { width: 20, len_utf8: 1 },
        LineFragment::Text { text: String::from("d\u{e9}") },
    ];
    let boundaries = host.wrap_line(&fragments, 24, &TextStyle::default().font(), 16);
    let ixs: Vec<usize> = boundaries.iter().map(|b| b.ix).collect();
    assert_eq!(ixs, vec![3, 4]);
    let shaped = host.shape_line("d\u{e9}x", 16, &TextStyle::default().to_run(4));
    assert_eq!(shaped.width, 24);
    assert_eq!(shaped.len, 4);
    assert_eq!(shaped.glyphs.iter().map(|g| (g.index, g.x)).collect::<Vec<_>>(), vec![(0, 0), (1, 8), (3, 16)]);
    assert_eq!(shaped.x_for_index(1), 8);
    assert_eq!(shaped.index_for_x(17), Some(3));
    assert_eq!(shaped.index_for_x(24), None);
}

#[test]
fn element_carets_differ_by_the_element_width() {
    let span = laid_out(vec![element(10, 6, InlineElementAlign::Auto), text("cd")], 1000);
    let line = &span.layout.lines[0];
    assert_eq!(line.x_for_index(0, CaretAffinity::Upstream), Some(0));
    assert_eq!(line.x_for_index(0, CaretAffinity::Downstream), Some(10));
    assert_eq!(line.x_for_index(1, CaretAffinity::Upstream), Some(10));
}

#[test]
fn positions_and_hits_across_lines() {
    let span = laid_out(vec![text("abcdef")], 32);
    let layout = &span.layout;
    assert_eq!(ranges(layout), vec![(0, 4), (4, 6)]);
    let baseline0 = layout.lines[0].baseline_above_top;
    assert_eq!(layout.position_for_logical_index(2, CaretAffinity::Upstream), Some(Point::new(16, baseline0)));
    assert_eq!(layout.position_for_logical_index(4, CaretAffinity::Upstream), Some(Point::new(32, baseline0)));
    assert_eq!(layout.position_for_logical_index(5, CaretAffinity::Upstream), Some(Point::new(8, 25 + baseline0)));
    assert_eq!(layout.position_for_logical_index(6, CaretAffinity::Upstream), Some(Point::new(16, 25 + baseline0)));
    assert_eq!(layout.position_for_logical_index(7, CaretAffinity::Upstream), None);
    assert_eq!(layout.logical_index_for_point(Point::new(9, 30), CaretAffinity::Upstream), Some(5));
    assert_eq!(layout.logical_index_for_point(Point::new(9, 500), CaretAffinity::Upstream), Some(5));
    assert_eq!(layout.logical_index_for_point(Point::new(9, -500), CaretAffinity::Upstream), Some(1));
    let geometry = layout.line_geometries();
    assert_eq!(geometry[1].logical_range, 4..6);
    assert_eq!(geometry[1].bounds, Bounds::new(Point::new(0, 25), Size::new(16, 25)));
    assert_eq!(geometry[1].baseline, 25 + baseline0);
}

#[test]
fn elements_stay_placed_on_their_lines() {
    let span = laid_out(
        vec![
            element(6, 30, InlineElementAlign::Bottom),
            text("abc"),
            element(10, 6, InlineElementAlign::Top),
            text("ef"),
        ],
        32,
    );
    let layout = &span.layout;
    assert_eq!(ranges(layout), vec![(0, 4), (4, 7)]);
    let first = &layout.lines[0];
    let second = &layout.lines[1];
    assert_eq!(first.height, 30);
    assert_eq!(second.line_origin.y, 30);
    match layout.fragment_layouts[0] {
        InlineFragmentLayout::Element { instance } => {
            assert_eq!(instance.bounds.origin, Point::new(0, 0));
            assert_eq!(instance.bounds.origin.y + instance.size.height, first.line_origin.y + first.height);
        }
        InlineFragmentLayout::Text => panic!("expected an element"),
    }
    match layout.fragment_layouts[2] {
        InlineFragmentLayout::Element { instance } => {
            assert_eq!(instance.bounds.origin, Point::new(0, second.line_origin.y));
        }
        InlineFragmentLayout::Text => panic!("expected an element"),
    }
}

#[test]
fn text_children_inherit_the_context_style() {
    let content = lib::builder::inline::<Size>().child("test").build().content;
    match &content.fragments[0] {
        InlineFragment::Text { style, .. } => assert!(style.is_none()),
        _ => panic!("expected text"),
    }
    let mut window = TextStyle::default();
    window.font_size = AbsoluteLength::Pixels(20);
    let base = window.font_size.to_pixels(REM);
    assert_eq!(content.default_font_size_or(base, REM), 20);
    let mut span = InlineSpan::new(content);
    let mut host = host();
    let (known, available) = wrap_at(1000);
    let size = span.measure(known, available, &window, REM, &mut host);
    assert_eq!(size.height, 32);
}

#[test]
fn no_wrap_width_gives_one_line() {
    let mut span = span_of(vec![text("a long line of text"), element(30, 5, InlineElementAlign::Auto)]);
    let mut host = host();
    span.layout.rewrap_and_shape(&span.content, None, 25, &mut host, &TextStyle::default(), REM);
    assert_eq!(ranges(&span.layout), vec![(0, 20)]);
    assert_eq!(span.layout.lines[0].indent_px, 0);
    assert!(span.layout.lines[0].height >= 25);
}

#[test]
fn caret_and_hit_round_trip_inside_text() {
    let span = laid_out(vec![text("abcd")], 1000);
    let line = &span.layout.lines[0];
    for idx in 1..4usize {
        for affinity in [CaretAffinity::Upstream, CaretAffinity::Downstream] {
            let x = line.x_for_index(idx, affinity).unwrap();
            assert_eq!(x, 8 * idx as Pixels);
            assert_eq!(line.index_for_x(x, affinity), idx);
        }
    }
}

#[test]
fn caret_and_hit_round_trip_after_an_element() {
    let span = laid_out(vec![text("ab"), element(10, 6, InlineElementAlign::Auto), text("cdef")], 1000);
    let line = &span.layout.lines[0];
    for idx in 4..7usize {
        for affinity in [CaretAffinity::Upstream, CaretAffinity::Downstream] {
            let x = line.x_for_index(idx, affinity).unwrap();
            assert_eq!(x, 26 + 8 * (idx as Pixels - 3));
            assert_eq!(line.index_for_x(x, affinity), idx);
        }
    }
}

#[test]
fn unwrapped_elements_share_one_line_on_the_baseline() {
    let mut span = span_of(vec![
        element(24, 10, InlineElementAlign::Auto),
        element(12, 8, InlineElementAlign::Auto),
    ]);
    let mut host = host();
    span.layout.rewrap_and_shape(&span.content, None, 20, &mut host, &TextStyle::default(), REM);
    let lines = span.layout.line_geometries();
    assert_eq!(lines.len(), 1);
    assert_eq!(lines[0].logical_range, 0..2);
    assert_eq!(lines[0].bounds, Bounds::new(Point::new(0, 0), Size::new(36, 20)));
    assert_eq!(lines[0].baseline, 10);
    let fragments = span.layout.fragment_geometries();
    assert_eq!(
        fragments,
        vec![
            lib::queries::InlineFragmentGeometry::Element {
                logical_index: 0,
                bounds: Bounds::new(Point::new(0, 5), Size::new(24, 10)),
                baseline_offset: Some(5),
                align: InlineElementAlign::Auto,
            },
            lib::queries::InlineFragmentGeometry::Element {
                logical_index: 1,
                bounds: Bounds::new(Point::new(24, 6), Size::new(12, 8)),
                baseline_offset: Some(4),
                align: InlineElementAlign::Auto,
            },
        ]
    );
    assert_eq!(span.layout.measured_size, Size::new(36, 20));
    assert!(!span.layout.dirty);
}

#[test]
fn decorations_are_painted_before_everything_else() {
    let mut span = laid_out(vec![text("abc"), element(10, 6, InlineElementAlign::Auto), text("de")], 1000);
    span.layout.set_decorations(vec![
        InlineDecoration { range: 0..2, style: InlineDecorationStyle { background: Hsla::black() } },
        InlineDecoration { range: 3..5, style: InlineDecorationStyle { background: Hsla::black() } },
    ]);
    span.prepaint(Bounds::new(Point::new(0, 0), Size::new(100, 20)));
    let commands = span.paint(true);
    let fills = commands.iter().take_while(|c| matches!(c, PaintCommand::Fill { .. })).count();
    assert_eq!(fills, 2);
    assert!(commands[fills..].iter().all(|c| !matches!(c, PaintCommand::Fill { .. })));
    assert!(commands.len() > fills);
}

#[test]
fn selection_rects_have_no_negative_width() {
    let span = laid_out(vec![text("hello "), element(12, 10, InlineElementAlign::Auto), text("world wide")], 40);
    for start in 0..18usize {
        for end in start..18usize {
            for rect in span.layout.selection_rects(start..end) {
                assert!(rect.size.width >= 0);
            }
        }
    }
    let rects = span.layout.selection_rects(2..9);
    assert!(!rects.is_empty());
}

#[test]
fn selection_parts_come_left_to_right() {
    let span = laid_out(vec![text("ab"), element(10, 6, InlineElementAlign::Auto), text("cdé")], 1000);
    let line = &span.layout.lines[0];
    let (overlap, parts) = line.selection_segments_for_range(1..5).unwrap();
    assert_eq!(overlap, 1..5);
    assert_eq!(
        parts,
        vec![
            SelectionSegment::Text { fragment_index: 0, logical_range: 1..2, start_in_fragment: 1, end_in_fragment: 2 },
            SelectionSegment::Element { fragment_index: 1, logical_range: 2..3 },
            SelectionSegment::Text { fragment_index: 2, logical_range: 3..5, start_in_fragment: 0, end_in_fragment: 2 },
        ]
    );
    let (_, tail) = line.selection_segments_for_range(4..6).unwrap();
    assert_eq!(
        tail,
        vec![SelectionSegment::Text { fragment_index: 2, logical_range: 4..6, start_in_fragment: 1, end_in_fragment: 4 }]
    );
}

#[test]
fn carets_at_and_past_the_line_end() {
    let span = laid_out(vec![text("ab"), element(10, 6, InlineElementAlign::Auto)], 1000);
    let line = &span.layout.lines[0];
    assert_eq!(line.x_for_index(3, CaretAffinity::Upstream), Some(26));
    assert_eq!(line.x_for_index(3, CaretAffinity::Downstream), Some(26));
    assert_eq!(line.x_for_index(4, CaretAffinity::Upstream), None);
}

#[test]
fn element_carets_sit_on_its_edges() {
    let span = laid_out(vec![element(10, 6, InlineElementAlign::Auto), element(6, 6, InlineElementAlign::Auto)], 1000);
    let line = &span.layout.lines[0];
    assert_eq!(line.x_for_index(1, CaretAffinity::Upstream), Some(10));
    assert_eq!(line.x_for_index(1, CaretAffinity::Downstream), Some(16));
    assert_eq!(line.x_for_index(0, CaretAffinity::Downstream), Some(10));
}

#[test]
fn hits_stay_in_the_line_and_split_elements_at_the_midpoint() {
    let span = laid_out(vec![element(10, 6, InlineElementAlign::Auto), element(6, 6, InlineElementAlign::Auto)], 1000);
    let line = &span.layout.lines[0];
    for x in -5..30 {
        for affinity in [CaretAffinity::Upstream, CaretAffinity::Downstream] {
            let idx = line.index_for_x(x, affinity);
            assert!(idx <= 2);
        }
    }
    assert_eq!(line.index_for_x(4, CaretAffinity::Downstream), 0);
    assert_eq!(line.index_for_x(6, CaretAffinity::Upstream), 1);
    assert_eq!(line.index_for_x(5, CaretAffinity::Upstream), 0);
    assert_eq!(line.index_for_x(5, CaretAffinity::Downstream), 1);
    assert_eq!(line.index_for_x(12, CaretAffinity::Downstream), 1);
    assert_eq!(line.index_for_x(14, CaretAffinity::Upstream), 2);
}

#[test]
fn element_carets_and_hits_round_trip() {
    let span = laid_out(
        vec![element(10, 6, InlineElementAlign::Auto), element(6, 6, InlineElementAlign::Auto), element(4, 6, InlineElementAlign::Top)],
        1000,
    );
    let line = &span.layout.lines[0];
    for idx in 0..=3usize {
        let x = line.x_for_index(idx, CaretAffinity::Upstream).unwrap();
        for affinity in [CaretAffinity::Upstream, CaretAffinity::Downstream] {
            assert_eq!(line.index_for_x(x, affinity), idx);
        }
    }
}

#[test]
fn laid_out_spans_are_consistent_and_corruption_is_caught() {
    let mut span = laid_out(vec![text("hello "), element(12, 10, InlineElementAlign::Auto), text("world")], 40);
    assert!(span.layout.is_wf());
    span.layout.lines[0].line_origin.y = 3;
    assert!(!span.layout.is_wf());
    let mut other = laid_out(vec![text("ab"), element(12, 10, InlineElementAlign::Auto)], 1000);
    if let InlineFragmentLayout::Element { instance } = &mut other.layout.fragment_layouts[1] {
        instance.size.width = -1;
    }
    assert!(!other.layout.is_wf());
}

#[test]
fn coordinate_and_length_ranges() {
    assert!(coord_in_range(1 << 61));
    assert!(coord_in_range(-(1 << 61)));
    assert!(!coord_in_range((1 << 61) + 1));
    assert!(!coord_in_range(1 << 62));
    assert!(extent_in_range(0));
    assert!(!extent_in_range(-1));
    assert_eq!(utf8_len_within("héllo", 10), Some(6));
    assert_eq!(utf8_len_within("héllo", 5), None);
}

#[test]
fn tall_auto_elements_rest_on_the_baseline() {
    let mut span = span_of(vec![element(10, 30, InlineElementAlign::Auto), element(8, 6, InlineElementAlign::Top)]);
    let mut host = host();
    span.layout.rewrap_and_shape(&span.content, None, 20, &mut host, &TextStyle::default(), REM);
    match span.layout.fragment_layouts[0] {
        InlineFragmentLayout::Element { instance } => assert_eq!(instance.baseline_offset, Some(30)),
        InlineFragmentLayout::Text => panic!("expected an element"),
    }
    match span.layout.fragment_layouts[1] {
        InlineFragmentLayout::Element { instance } => assert_eq!(instance.baseline_offset, Some(6)),
        InlineFragmentLayout::Text => panic!("expected an element"),
    }
    assert_eq!(span.layout.lines[0].height, 30);
    assert_eq!(span.layout.lines[0].baseline_above_top, 30);
}
