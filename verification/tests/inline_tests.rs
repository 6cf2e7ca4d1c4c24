use lib::builder::{span, InlineSpanBuilder};
use lib::content::{
    CaretAffinity, InlineContent, InlineElementAlign, InlineElementInstance, InlineElementSlot,
    InlineFragment,
};
use lib::geometry::{Bounds, Pixels, Point, Size};
use lib::host::LayoutHost;
use lib::layout::{InlineDecoration, InlineDecorationStyle, InlineSpanLayout};
use lib::line_build::build_line;
use lib::monospace::MonospaceHost;
use lib::slices::{
    build_line_fragments, compute_logical_slices_for_line, total_byte_len, InlineFragmentLayout,
};
use lib::style::{AbsoluteLength, Hsla, SharedString, TextStyle};
use lib::wrap_line::{InlineWrapLine, SelectionSegment, ShapedSegment};

const REM: Pixels = 16;

fn host() -> MonospaceHost {
    MonospaceHost::new(8, 12, 4)
}

fn window_style() -> TextStyle {
    TextStyle::default()
}

fn line_height_for(style: &TextStyle, content_style: &TextStyle) -> Pixels {
    style.line_height.to_pixels(content_style.font_size, REM)
}

fn space_width_for(host: &mut MonospaceHost, style: &TextStyle) -> Pixels {
    host.advance(&style.font(), style.font_size.to_pixels(REM), ' ')
        .map(|size| size.width)
        .unwrap_or(0)
}

fn three_fragment_content(left: &str, right: &str) -> InlineContent<Size> {
    let style = window_style();
    InlineContent {
        fragments: vec![
            InlineFragment::Text { text: SharedString::from(left.to_string()), style: Some(style.clone()) },
            InlineFragment::Element {
                slot: InlineElementSlot { element: Size::new(0, 0), align: InlineElementAlign::Auto },
            },
            InlineFragment::Text { text: SharedString::from(right.to_string()), style: Some(style.clone()) },
        ],
        default_style: Some(style),
        inline_align: InlineElementAlign::Auto,
    }
}

fn element_layouts(element_size: Size, align: InlineElementAlign) -> Vec<InlineFragmentLayout> {
    vec![
        InlineFragmentLayout::Text,
        InlineFragmentLayout::Element {
            instance: InlineElementInstance {
                size: element_size,
                bounds: Bounds::new(Point::new(0, 0), element_size),
                baseline_offset: None,
                align,
            },
        },
        InlineFragmentLayout::Text,
    ]
}

fn build_layout_from_lines(
    lines: Vec<InlineWrapLine>,
    fragment_layouts: Vec<InlineFragmentLayout>,
) -> InlineSpanLayout {
    let mut layout = InlineSpanLayout::default();
    let width = lines.iter().fold(0, |acc: Pixels, line| {
        let candidate = line.indent_px + line.width;
        if acc > candidate { acc } else { candidate }
    });
    let height = lines.iter().fold(0, |acc: Pixels, line| acc + line.height);
    layout.lines = lines;
    layout.fragment_layouts = fragment_layouts;
    layout.measured_size = Size::new(width, height);
    layout
}

fn build_layout_with_element(
    left: &str,
    right: &str,
    element_size: Size,
    align: InlineElementAlign,
) -> InlineSpanLayout {
    let mut host = host();
    let style = window_style();
    let content = three_fragment_content(left, right);
    let mut fragment_layouts = element_layouts(element_size, align);
    let (line_fragments, ranges, cells) = build_line_fragments(&content, &fragment_layouts);
    let total_bytes = total_byte_len(&line_fragments);
    let slices = compute_logical_slices_for_line(0, total_bytes, &content, &ranges, &cells);
    let default_style = content.default_style.clone().unwrap();
    let line_height = line_height_for(&style, &default_style);
    let space_width = space_width_for(&mut host, &default_style);
    let line = build_line(
        slices,
        0,
        space_width,
        &content,
        &mut fragment_layouts,
        &mut host,
        line_height,
        0,
        &style,
        REM,
    )
    .expect("expected line");
    build_layout_from_lines(vec![line], fragment_layouts)
}

fn build_wrapped_layout(
    left: &str,
    right: &str,
    element_size: Size,
    split_bytes: usize,
    align: InlineElementAlign,
) -> InlineSpanLayout {
    let mut host = host();
    let style = window_style();
    let content = three_fragment_content(left, right);
    let mut fragment_layouts = element_layouts(element_size, align);
    let (line_fragments, ranges, cells) = build_line_fragments(&content, &fragment_layouts);
    let total_bytes = total_byte_len(&line_fragments);
    let first_slices = compute_logical_slices_for_line(0, split_bytes, &content, &ranges, &cells);
    let second_slices =
        compute_logical_slices_for_line(split_bytes, total_bytes, &content, &ranges, &cells);
    let default_style = content.default_style.clone().unwrap();
    let line_height = line_height_for(&style, &default_style);
    let space_width = space_width_for(&mut host, &default_style);
    let first_line = build_line(
        first_slices,
        0,
        space_width,
        &content,
        &mut fragment_layouts,
        &mut host,
        line_height,
        0,
        &style,
        REM,
    )
    .expect("first line");
    let second_line = build_line(
        second_slices,
        0,
        space_width,
        &content,
        &mut fragment_layouts,
        &mut host,
        line_height,
        first_line.height,
        &style,
        REM,
    )
    .expect("second line");
    build_layout_from_lines(vec![first_line, second_line], fragment_layouts)
}

fn text_of(fragment: &InlineFragment<Size>) -> Option<&str> {
    match fragment {
        InlineFragment::Text { text, .. } => Some(text.as_str()),
        InlineFragment::Element { .. } => None,
    }
}

#[test]
fn test_builder_construction_and_fragments() {
    let mut style = window_style();
    style.font_size = AbsoluteLength::Pixels(20);
    let span = InlineSpanBuilder::<Size>::new(style.clone()).text("test", window_style()).build();
    assert_eq!(span.content.default_style.as_ref(), Some(&style), "new() should set default style");

    let span = InlineSpanBuilder::<Size>::default().text("test", window_style()).build();
    assert!(span.content.default_style.is_none(), "default() should not set style");

    let builder = lib::builder::inline::<Size>();
    assert!(builder.default_style.is_none(), "inline() should not set default style");

    let span = InlineSpanBuilder::<Size>::default().build();
    assert_eq!(span.content.fragments.len(), 0, "empty builder should have 0 fragments");

    let text_style = window_style();
    let span = InlineSpanBuilder::<Size>::default()
        .text("hello", text_style.clone())
        .text(" world", text_style)
        .build();
    assert_eq!(span.content.fragments.len(), 2, "should have 2 text fragments");
    assert_eq!(text_of(&span.content.fragments[0]), Some("hello"), "Expected text fragment");
    assert_eq!(text_of(&span.content.fragments[1]), Some(" world"), "Expected text fragment");

    let span = InlineSpanBuilder::default().element(Size::new(16, 16)).build();
    assert_eq!(span.content.fragments.len(), 1, "should have 1 element fragment");
    assert!(
        matches!(span.content.fragments[0], InlineFragment::Element { .. }),
        "Expected element fragment"
    );

    let mut builder = InlineSpanBuilder::default();
    builder.push_text("hello", window_style());
    builder.push_element(Size::new(0, 0));
    let span = builder.build();
    assert_eq!(span.content.fragments.len(), 2, "mutable API should add fragments");
    assert_eq!(text_of(&span.content.fragments[0]), Some("hello"), "Expected text");
    assert!(matches!(span.content.fragments[1], InlineFragment::Element { .. }), "Expected element");

    let span = InlineSpanBuilder::default()
        .element(Size::new(16, 16))
        .element(Size::new(16, 16))
        .build();
    assert_eq!(span.content.fragments.len(), 2, "should support element-only spans");
    for fragment in &span.content.fragments {
        assert!(matches!(fragment, InlineFragment::Element { .. }), "Expected element fragments");
    }

    let span = InlineSpanBuilder::<Size>::default().text("just text", window_style()).build();
    assert_eq!(span.content.fragments.len(), 1, "should support text-only spans");
    assert_eq!(text_of(&span.content.fragments[0]), Some("just text"), "Expected text fragment");
}

#[test]
fn test_builder_styling_and_alignment() {
    let size: Pixels = 24;
    let mut style = window_style();
    style.font_size = AbsoluteLength::Pixels(size);
    let built_span1 = InlineSpanBuilder::<Size>::default()
        .with_style(style.clone())
        .text("large", window_style())
        .build();
    assert_eq!(
        built_span1.content.default_style.as_ref().unwrap().font_size.to_pixels(REM),
        size,
        "with_style() should set font size"
    );

    let mut span_style = window_style();
    span_style.font_size = AbsoluteLength::Pixels(30);
    let built_span = InlineSpanBuilder::<Size>::default()
        .child(span("styled").with_style(span_style.clone()))
        .build();
    assert_eq!(built_span.content.fragments.len(), 1, "span() should create fragment");
    match &built_span.content.fragments[0] {
        InlineFragment::Text { style: fragment_style, .. } => {
            assert_eq!(
                fragment_style.as_ref().unwrap().font_size,
                span_style.font_size,
                "span().with_style() should apply style to fragment"
            );
        }
        _ => panic!("Expected text fragment"),
    }

    let mut builder = InlineSpanBuilder::<Size>::default();
    builder = builder.with_alignment(InlineElementAlign::Top);
    assert_eq!(builder.inline_align, InlineElementAlign::Top, "with_alignment() should set alignment");
    builder = builder.with_alignment(InlineElementAlign::Bottom);
    assert_eq!(
        builder.inline_align,
        InlineElementAlign::Bottom,
        "with_alignment() should update alignment"
    );

    let mut builder = InlineSpanBuilder::default();
    builder = builder.with_alignment(InlineElementAlign::Top);
    builder = builder.element_aligned(InlineElementAlign::Bottom, Size::new(0, 0));
    assert_eq!(
        builder.inline_align,
        InlineElementAlign::Top,
        "element_aligned() should not change default alignment"
    );
}

#[test]
fn test_layout_and_wrapping() {
    let mut host = host();
    let base_style = window_style();
    let mut test_span = InlineSpanBuilder::<Size>::new(base_style.clone())
        .text("ab", window_style())
        .text("cd", window_style())
        .build();
    let line_height = line_height_for(&window_style(), test_span.content.default_style.as_ref().unwrap());
    test_span.layout.rewrap_and_shape(&test_span.content, Some(1), line_height, &mut host, &window_style(), REM);
    let lines = &test_span.layout.lines;
    assert!(lines.len() >= 2, "wrapping should produce multiple lines");
    let mut logical = 0;
    for line in lines {
        assert_eq!(line.logical_start, logical, "logical start should be sequential");
        assert!(line.logical_end > line.logical_start, "logical end should be after start");
        logical = line.logical_end;
    }
    assert_eq!(logical, 4, "total logical cells should match text length");

    let style = window_style();
    let element_size = Size::new(24, 10);
    let baseline: Pixels = 6;
    let content = InlineContent {
        fragments: vec![
            InlineFragment::Text { text: SharedString::from("before "), style: Some(style.clone()) },
            InlineFragment::Element {
                slot: InlineElementSlot { element: Size::new(0, 0), align: InlineElementAlign::Auto },
            },
            InlineFragment::Text { text: SharedString::from(" after"), style: Some(style.clone()) },
        ],
        default_style: Some(style.clone()),
        inline_align: InlineElementAlign::Auto,
    };
    let mut fragment_layouts = vec![
        InlineFragmentLayout::Text,
        InlineFragmentLayout::Element {
            instance: InlineElementInstance {
                size: element_size,
                bounds: Bounds::new(Point::new(0, 0), element_size),
                baseline_offset: Some(baseline),
                align: InlineElementAlign::Auto,
            },
        },
        InlineFragmentLayout::Text,
    ];
    let (line_fragments, ranges, cells) = build_line_fragments(&content, &fragment_layouts);
    let total_bytes = total_byte_len(&line_fragments);
    let slices = compute_logical_slices_for_line(0, total_bytes, &content, &ranges, &cells);
    let space_width = space_width_for(&mut host, content.default_style.as_ref().unwrap());
    let line = build_line(
        slices,
        0,
        space_width,
        &content,
        &mut fragment_layouts,
        &mut host,
        line_height,
        0,
        &style,
        REM,
    )
    .expect("expected a shaped line");
    let instance = match &fragment_layouts[1] {
        InlineFragmentLayout::Element { instance } => *instance,
        InlineFragmentLayout::Text => panic!("missing element layout"),
    };
    assert_eq!(instance.size, element_size, "element should be measured correctly");
    assert_eq!(instance.baseline_offset, Some(baseline), "baseline should be preserved");
    let mut found_element = false;
    for segment in &line.shaped_segments {
        if let ShapedSegment::Element { fragment_index, .. } = segment {
            found_element = true;
            assert_eq!(*fragment_index, 1, "element should be at correct index");
        }
    }
    assert!(found_element, "line should contain the element segment");

    let indent_content = InlineContent::<Size> {
        fragments: vec![InlineFragment::Text { text: SharedString::from("aaaa"), style: Some(style.clone()) }],
        default_style: Some(style.clone()),
        inline_align: InlineElementAlign::Auto,
    };
    let mut indent_fragment_layouts = vec![InlineFragmentLayout::Text];
    let (line_fragments2, ranges2, cells2) = build_line_fragments(&indent_content, &indent_fragment_layouts);
    let total_bytes2 = total_byte_len(&line_fragments2);
    let slices2 = compute_logical_slices_for_line(0, total_bytes2, &indent_content, &ranges2, &cells2);
    let indent_spaces: usize = 3;
    let current_y: Pixels = 4;
    let line_with_indent = build_line(
        slices2,
        indent_spaces,
        space_width,
        &indent_content,
        &mut indent_fragment_layouts,
        &mut host,
        line_height,
        current_y,
        &style,
        REM,
    )
    .expect("expected shaped line");
    let expected_indent = space_width * indent_spaces as Pixels;
    assert_eq!(line_with_indent.indent_px, expected_indent, "indent should be calculated correctly");
    assert_eq!(line_with_indent.line_origin.x, expected_indent, "line should start at indent");
    assert_eq!(line_with_indent.line_origin.y, current_y, "line y should match current_y");
    assert!(
        matches!(line_with_indent.shaped_segments.first(), Some(ShapedSegment::Text { .. })),
        "line should remain text despite indent"
    );
}

#[test]
fn test_selection_and_geometry() {
    let mixed_layout = build_layout_with_element("aa", "bb", Size::new(12, 10), InlineElementAlign::Auto);
    let selections = mixed_layout.selections_for_range(1..4);
    assert!(!selections.is_empty(), "selection should exist");
    let mut saw_element = false;
    let mut saw_text = false;
    for selection in selections {
        for segment in selection.segments {
            match segment {
                SelectionSegment::Text { logical_range, .. } => {
                    saw_text = true;
                    assert!(logical_range.start < logical_range.end);
                }
                SelectionSegment::Element { logical_range, .. } => {
                    saw_element = true;
                    assert_eq!(logical_range.end - logical_range.start, 1);
                }
            }
        }
    }
    assert!(saw_element, "should encounter element in selection");
    assert!(saw_text, "should encounter text in selection");

    let wrapped_layout = build_wrapped_layout("aa", "bbcc", Size::new(12, 10), "aa".len(), InlineElementAlign::Auto);
    let multi_selections = wrapped_layout.selections_for_range(1..5);
    assert!(multi_selections.len() >= 2, "selection should cover multiple lines");
    assert!(
        multi_selections
            .iter()
            .flat_map(|line| line.segments.iter())
            .any(|segment| matches!(segment, SelectionSegment::Element { .. })),
        "should include element segment"
    );

    let zero_layout = build_layout_with_element("", "", Size::new(10, 8), InlineElementAlign::Auto);
    assert!(zero_layout.selections_for_range(0..0).is_empty(), "zero width selection should not report segments");
    let element_selection = zero_layout.selections_for_range(0..1);
    assert_eq!(element_selection.len(), 1, "element selection should exist");
    assert!(
        element_selection[0].segments.iter().any(|segment| matches!(
            segment,
            SelectionSegment::Element { logical_range, .. }
            if logical_range.start == 0 && logical_range.end == 1
        )),
        "should contain element segment"
    );

    let rect_layout = build_wrapped_layout("hello", "world", Size::new(12, 10), "hello".len(), InlineElementAlign::Auto);
    let rects = rect_layout.selection_rects(2..7);
    assert!(rects.len() >= 2, "selection rects should span multiple lines");
    for rect in &rects {
        assert!(rect.size.width > 0, "rect should have width");
        assert!(rect.size.height > 0, "rect should have height");
    }

    let geometries = rect_layout.line_geometries();
    assert!(geometries.len() >= 2, "should have multiple line geometries");
    for geometry in geometries {
        assert!(geometry.logical_range.start < geometry.logical_range.end, "logical range should be non-empty");
        assert!(geometry.bounds.size.width > 0, "line bounds should have width");
    }
}

#[test]
fn test_caret_positioning() {
    let layout = build_layout_with_element("ab", "cd", Size::new(12, 8), InlineElementAlign::Auto);
    let first_line = &layout.lines[0];
    let point_above = Point::new(0, first_line.line_origin.y - 5);
    let idx = layout.logical_index_for_point(point_above, CaretAffinity::Upstream).unwrap();
    assert_eq!(idx, first_line.logical_start, "point above should clamp to line start");

    let point_below = Point::new(999, first_line.line_origin.y + first_line.height + 5);
    let idx = layout.logical_index_for_point(point_below, CaretAffinity::Downstream).unwrap();
    assert_eq!(idx, first_line.logical_end, "point below should clamp to line end");

    let left = layout.position_for_logical_index(2, CaretAffinity::Upstream).unwrap();
    let right = layout.position_for_logical_index(3, CaretAffinity::Downstream).unwrap();
    assert!(right.x > left.x, "affinity should affect caret position at element edge");

    let mid = Point::new((left.x + right.x) / 2, left.y);
    let idx_up = layout.logical_index_for_point(mid, CaretAffinity::Upstream).unwrap();
    let idx_down = layout.logical_index_for_point(mid, CaretAffinity::Downstream).unwrap();
    assert!(idx_up == 2 || idx_down == 3, "affinity should influence hit testing at element boundary");
}

#[test]
fn test_hit_testing_with_elements() {
    let layout = build_layout_with_element("ab", "cd", Size::new(14, 12), InlineElementAlign::Auto);
    let element_width = {
        let line = &layout.lines[0];
        let mut width: Pixels = 0;
        for segment in &line.shaped_segments {
            if let ShapedSegment::Element { width: seg_width, .. } = segment {
                width = *seg_width;
                break;
            }
        }
        width
    };
    assert!(element_width > 0);
    let before = layout.position_for_logical_index(2, CaretAffinity::Downstream).unwrap();
    let after = layout.position_for_logical_index(3, CaretAffinity::Upstream).unwrap();
    assert!(after.x > before.x);

    let idx_up = layout.logical_index_for_point(before, CaretAffinity::Upstream).unwrap();
    assert_eq!(idx_up, 2);

    let idx_down = layout.logical_index_for_point(after, CaretAffinity::Downstream).unwrap();
    assert_eq!(idx_down, 3);
}

#[test]
fn test_unicode_combining_characters() {
    let style = TextStyle::default();
    let text = "a\u{0301}b";
    let content = InlineContent::<Size> {
        fragments: vec![InlineFragment::Text { text: SharedString::from(text), style: Some(style.clone()) }],
        default_style: Some(style.clone()),
        inline_align: InlineElementAlign::Bottom,
    };
    let fragment_layouts = vec![InlineFragmentLayout::Text];
    let (_, ranges, cells) = build_line_fragments(&content, &fragment_layouts);
    let text_cells = cells[0].as_ref().expect("expected cells");
    assert_eq!(text_cells.offsets.len(), text.chars().count() + 1);

    let slices = compute_logical_slices_for_line(0, text.len(), &content, &ranges, &cells);
    assert_eq!(slices.len(), 1);
    let slice = &slices[0];
    assert_eq!(slice.logical_end - slice.logical_start, text_cells.offsets.len() - 1);
}

#[test]
fn test_element_alignment_behavior() {
    let element_of = |layout: &InlineSpanLayout| match &layout.fragment_layouts[1] {
        InlineFragmentLayout::Element { instance } => *instance,
        InlineFragmentLayout::Text => panic!("expected inline element"),
    };

    let small_size = Size::new(18, 12);
    let small_layout = build_layout_with_element("ab", "cd", small_size, InlineElementAlign::Auto);
    let line = &small_layout.lines[0];
    let expected_top = line.line_origin.y + line.baseline_above_top - small_size.height / 2;
    assert_eq!(element_of(&small_layout).bounds.origin.y, expected_top, "small elements should center vertically");

    let tall_size = Size::new(40, 32);
    let tall_layout = build_layout_with_element("a", "b", tall_size, InlineElementAlign::Auto);
    let line = &tall_layout.lines[0];
    let expected_top = line.line_origin.y + line.baseline_above_top - tall_size.height;
    assert_eq!(element_of(&tall_layout).bounds.origin.y, expected_top, "tall elements should align to top");

    let element_size = Size::new(18, 12);
    let top_layout = build_layout_with_element("x", "y", element_size, InlineElementAlign::Top);
    let line = &top_layout.lines[0];
    assert_eq!(element_of(&top_layout).bounds.origin.y, line.line_origin.y, "top alignment should use line top edge");

    let bottom_layout = build_layout_with_element("x", "y", element_size, InlineElementAlign::Bottom);
    let line = &bottom_layout.lines[0];
    let instance = element_of(&bottom_layout);
    let element_bottom = instance.bounds.origin.y + instance.size.height;
    let line_bottom = line.line_origin.y + line.height;
    assert_eq!(element_bottom, line_bottom, "bottom alignment should use line bottom edge");
}

#[test]
fn test_child_api_ergonomics() {
    let _ = lib::builder::inline::<Size>()
        .child("Hello")
        .child(String::from(" World"))
        .child(SharedString::from("!"))
        .element(Size::new(0, 0))
        .child(span(" Helper"));
}

#[test]
fn test_child_with_text_and_elements() {
    let span = lib::builder::inline().child("A").element(Size::new(40, 40)).child("B").build();

    let content = &span.content;
    assert_eq!(content.fragments.len(), 3);
    match &content.fragments[0] {
        InlineFragment::Text { text, .. } => assert_eq!(text.as_str(), "A"),
        _ => panic!("Expected text fragment"),
    }
    match &content.fragments[1] {
        InlineFragment::Element { .. } => {}
        _ => panic!("Expected element fragment"),
    }
    match &content.fragments[2] {
        InlineFragment::Text { text, .. } => assert_eq!(text.as_str(), "B"),
        _ => panic!("Expected text fragment"),
    }
}

#[test]
fn test_style_inheritance_and_resolution() {
    let window = window_style();
    let content = lib::builder::inline::<Size>().child("test").build().content;
    assert!(content.default_style.is_none(), "inline() should not set a default style");

    let base_font_size = window.font_size.to_pixels(REM);
    let resolved_font_size = content.default_font_size_or(base_font_size, REM);
    assert_eq!(resolved_font_size, base_font_size, "should use window's font size as fallback");

    let large_font_size: Pixels = 34;
    let mut custom_style = window.clone();
    custom_style.font_size = AbsoluteLength::Pixels(large_font_size);
    let span = lib::builder::inline::<Size>().text("Text with custom font", custom_style.clone()).build();
    assert!(span.content.default_style.is_none(), "inline() should not set a default style");
    let resolved = span.content.resolve_default_style();
    assert!(resolved.is_some(), "should resolve style from first text fragment");
    let resolved_size = resolved.unwrap().font_size.to_pixels(REM);
    assert_eq!(resolved_size, large_font_size, "should resolve to the fragment's custom font size");

    let mut style = window.clone();
    style.font_size = AbsoluteLength::Pixels(24);
    let with_default = lib::builder::inline()
        .with_style(style.clone())
        .element_with_context(InlineElementAlign::Auto, Size::new(0, 0))
        .build();
    assert_eq!(with_default.content.fragments.len(), 1, "Should have one element fragment");
    assert!(with_default.content.default_style.is_some(), "Should have default style");

    let large_font_size: Pixels = 32;
    let mut large_style = window.clone();
    large_style.font_size = AbsoluteLength::Pixels(large_font_size);
    let without_default = lib::builder::inline()
        .text("Text with large font", large_style.clone())
        .element_with_context(InlineElementAlign::Auto, Size::new(0, 0))
        .build();
    assert!(without_default.content.default_style.is_none(), "Should not have default style");
    if let InlineFragment::Text { style, .. } = &without_default.content.fragments[0] {
        assert_eq!(
            style.as_ref().unwrap().font_size.to_pixels(REM),
            large_font_size,
            "Text fragment should have large font size"
        );
    }
}

fn decoration(start: usize, end: usize) -> InlineDecoration {
    InlineDecoration { range: start..end, style: InlineDecorationStyle { background: Hsla::transparent() } }
}

#[test]
fn test_decorations() {
    let test_span = lib::builder::inline::<Size>().text("hello world test", window_style()).build();
    let mut layout = test_span.layout_state();
    layout.set_decorations(vec![decoration(0, 5), decoration(6, 11), decoration(12, 16)]);
    assert_eq!(layout.decorations.len(), 3, "should store all 3 non-overlapping decorations");
    assert_eq!(layout.decorations[0].range, 0..5);
    assert_eq!(layout.decorations[1].range, 6..11);
    assert_eq!(layout.decorations[2].range, 12..16);

    let overlap_span = lib::builder::inline::<Size>().text("hello", window_style()).build();
    let mut overlap_layout = overlap_span.layout_state();
    overlap_layout.set_decorations(vec![decoration(0, 3), decoration(2, 5)]);
    assert_eq!(overlap_layout.decorations.len(), 2, "should store both overlapping decorations");
    assert_eq!(overlap_layout.decorations[0].range, 0..3);
    assert_eq!(overlap_layout.decorations[1].range, 2..5);
}

#[test]
fn test_layout_invalidation() {
    let mut span = lib::builder::inline::<Size>()
        .text("This is a long text that will wrap differently at different widths", window_style())
        .build();
    let _initial_layout = span.layout_state();
    span.invalidate_layout();
    let new_layout = span.layout_state();
    assert!(new_layout.dirty, "Manual invalidation API works");

    let small_style = window_style();
    let mut span = lib::builder::inline::<Size>()
        .with_style(small_style.clone())
        .text("Text that wraps", small_style.clone())
        .build();
    let style_ref = span.style();
    assert!(style_ref.text.font_size.is_none(), "Can access style refinement");
    span.invalidate_layout();
    assert!(span.layout.dirty, "Style change invalidation API works");
}
