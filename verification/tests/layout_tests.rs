use nelsie::color::Color;
use nelsie::error::{RenderError, RenderErrorKind};
use nelsie::geometry::Rectangle;
use nelsie::layout::{content_size, measure, ComputedLayout, LayoutContext};
use nelsie::node::{Image, LayoutExpr, Node, NodeContent, NodeId, Size, StyledText};
use nelsie::resources::{FontMetrics, ImageInfo, Resources};
use nelsie::stepvalue::StepValue;
use nelsie::textstyle::{PartialTextStyle, StyleMap, TextStyle};

fn resources() -> Resources {
    Resources {
        fonts: vec![FontMetrics::new("Sans", 500, 1200)],
        images: vec![ImageInfo::new("a.png", 40, 30)],
    }
}

fn default_style() -> TextStyle {
    TextStyle {
        font: String::from("Sans"),
        size: 32,
        color: Color::new(0, 0, 0, 255),
        weight: 400,
    }
}

fn global() -> StyleMap {
    let mut styles = StyleMap::new();
    styles.set_style(String::from("default"), StepValue::Const(default_style().to_partial()));
    styles
}

fn layout_with(root: &Node, width: u32, height: u32, step: u32) -> Result<ComputedLayout, RenderError> {
    let res = resources();
    let default = default_style();
    LayoutContext::new(&res, &default, step).compute_layout(root, width, height)
}

fn layout(root: &Node, width: u32, height: u32, step: u32) -> ComputedLayout {
    layout_with(root, width, height, step).unwrap()
}

fn node(id: u32) -> Node {
    Node::new(NodeId::new(id))
}

fn high(id: u32, height: u32) -> Node {
    let mut n = node(id);
    n.height = StepValue::Const(Some(Size::Points(height)));
    n
}

fn wide(id: u32, width: u32) -> Node {
    let mut n = node(id);
    n.width = StepValue::Const(Some(Size::Points(width)));
    n
}

fn text(id: u32, lines: &[&str], style: &str) -> Node {
    let mut n = node(id);
    n.content = StepValue::Const(Some(NodeContent::Text(StyledText {
        lines: lines.iter().map(|l| String::from(*l)).collect(),
        style: String::from(style),
    })));
    n.styles = global();
    n
}

fn image(id: u32, path: &str) -> Node {
    let mut n = node(id);
    n.content = StepValue::Const(Some(NodeContent::Image(Image { filename: String::from(path) })));
    n
}

fn rect(l: &ComputedLayout, id: u32) -> (i64, i64, i64, i64) {
    l.xywh(NodeId::new(id)).unwrap()
}

#[test]
fn a_column_stacks_its_children() {
    let mut root = node(0);
    root.children.push(high(1, 10));
    root.children.push(high(2, 20));
    root.children.push(high(3, 30));
    let l = layout(&root, 200, 100, 0);
    assert_eq!(rect(&l, 0), (0, 0, 200, 100));
    assert_eq!(rect(&l, 1), (0, 0, 200, 10));
    assert_eq!(rect(&l, 2), (0, 10, 200, 20));
    assert_eq!(rect(&l, 3), (0, 30, 200, 30));
    assert_eq!(l.rects.len(), 4);
}

#[test]
fn a_column_inside_the_slide_stacks_its_children_from_where_it_starts() {
    let mut column = node(1);
    column.x = StepValue::Const(Some(LayoutExpr::Points(15)));
    column.y = StepValue::Const(Some(LayoutExpr::Points(7)));
    column.width = StepValue::Const(Some(Size::Points(120)));
    column.height = StepValue::Const(Some(Size::Points(90)));
    column.children.push(high(2, 10));
    column.children.push(high(3, 20));
    column.children.push(high(4, 30));
    let mut root = node(0);
    root.children.push(column);
    let l = layout(&root, 200, 100, 0);
    assert_eq!(rect(&l, 1), (15, 7, 120, 90));
    assert_eq!(rect(&l, 2), (15, 7, 120, 10));
    assert_eq!(rect(&l, 3), (15, 17, 120, 20));
    assert_eq!(rect(&l, 4), (15, 37, 120, 30));
}

#[test]
fn a_row_puts_its_children_side_by_side() {
    let mut root = node(0);
    root.row = StepValue::Const(true);
    root.children.push(wide(1, 10));
    root.children.push(wide(2, 20));
    root.children.push(wide(3, 30));
    let l = layout(&root, 200, 100, 0);
    assert_eq!(rect(&l, 1), (0, 0, 10, 100));
    assert_eq!(rect(&l, 2), (10, 0, 20, 100));
    assert_eq!(rect(&l, 3), (30, 0, 30, 100));
}

#[test]
fn a_reversed_column_starts_with_its_last_child() {
    let mut root = node(0);
    root.reverse = StepValue::Const(true);
    root.children.push(high(1, 10));
    root.children.push(high(2, 20));
    root.children.push(high(3, 30));
    let l = layout(&root, 200, 100, 0);
    assert_eq!(rect(&l, 3), (0, 0, 200, 30));
    assert_eq!(rect(&l, 2), (0, 30, 200, 20));
    assert_eq!(rect(&l, 1), (0, 50, 200, 10));
    assert_eq!(root.children[0].node_id, NodeId(1));
}

#[test]
fn reversal_holds_for_its_steps_only() {
    let mut root = node(0);
    root.row = StepValue::Const(true);
    root.reverse = StepValue::Steps { entries: vec![(2, true), (4, false)], fallback: false };
    root.children.push(wide(1, 10));
    root.children.push(wide(2, 20));
    let l = layout(&root, 200, 100, 1);
    assert_eq!(rect(&l, 1), (0, 0, 10, 100));
    assert_eq!(rect(&l, 2), (10, 0, 20, 100));
    let l = layout(&root, 200, 100, 2);
    assert_eq!(rect(&l, 2), (0, 0, 20, 100));
    assert_eq!(rect(&l, 1), (20, 0, 10, 100));
    let l = layout(&root, 200, 100, 3);
    assert_eq!(rect(&l, 1), (20, 0, 10, 100));
    let l = layout(&root, 200, 100, 4);
    assert_eq!(rect(&l, 1), (0, 0, 10, 100));
}

#[test]
fn sizes_and_positions_may_be_given_in_hundredths_of_the_parent() {
    let mut child = node(1);
    child.width = StepValue::Const(Some(Size::Percent(50)));
    child.height = StepValue::Const(Some(Size::Percent(25)));
    child.x = StepValue::Const(Some(LayoutExpr::Percent(10)));
    child.y = StepValue::Const(Some(LayoutExpr::Points(-5)));
    let mut root = node(0);
    root.children.push(child);
    let l = layout(&root, 200, 100, 0);
    assert_eq!(rect(&l, 1), (20, -5, 100, 25));
    let l = layout(&root, 199, 99, 0);
    assert_eq!(rect(&l, 1), (19, -5, 99, 24));
}

#[test]
fn hundredths_are_rounded_down() {
    let mut child = node(1);
    child.width = StepValue::Const(Some(Size::Percent(33)));
    child.height = StepValue::Const(Some(Size::Percent(150)));
    let mut root = node(0);
    root.children.push(child);
    let l = layout(&root, 199, 7, 0);
    assert_eq!(rect(&l, 1), (0, 0, 65, 10));
}

#[test]
fn the_flow_goes_on_from_a_child_with_a_given_position() {
    let mut second = high(2, 20);
    second.y = StepValue::Const(Some(LayoutExpr::Points(50)));
    let mut root = node(0);
    root.children.push(high(1, 10));
    root.children.push(second);
    root.children.push(high(3, 30));
    let l = layout(&root, 200, 100, 0);
    assert_eq!(rect(&l, 1), (0, 0, 200, 10));
    assert_eq!(rect(&l, 2), (0, 50, 200, 20));
    assert_eq!(rect(&l, 3), (0, 70, 200, 30));
}

#[test]
fn a_position_is_measured_from_where_the_parent_starts() {
    let mut inner = wide(2, 10);
    inner.x = StepValue::Const(Some(LayoutExpr::Points(3)));
    inner.y = StepValue::Const(Some(LayoutExpr::Percent(50)));
    let mut outer = node(1);
    outer.x = StepValue::Const(Some(LayoutExpr::Points(100)));
    outer.y = StepValue::Const(Some(LayoutExpr::Points(40)));
    outer.width = StepValue::Const(Some(Size::Points(50)));
    outer.height = StepValue::Const(Some(Size::Points(20)));
    outer.children.push(inner);
    let mut root = node(0);
    root.children.push(outer);
    let l = layout(&root, 200, 100, 0);
    assert_eq!(rect(&l, 2), (103, 50, 10, 0));
}

#[test]
fn a_text_is_as_large_as_its_block() {
    let mut root = node(0);
    root.children.push(text(1, &["ab", "abcd"], "default"));
    root.children.push(high(2, 5));
    let l = layout(&root, 200, 100, 0);
    assert_eq!(rect(&l, 1), (0, 0, 200, 76));
    assert_eq!(rect(&l, 2), (0, 76, 200, 5));
    root.row = StepValue::Const(true);
    let l = layout(&root, 200, 100, 0);
    assert_eq!(rect(&l, 1), (0, 0, 64, 100));
    assert_eq!(rect(&l, 2), (64, 0, 0, 5));
}

#[test]
fn a_text_is_measured_in_the_style_that_its_box_sees() {
    let mut t = text(1, &["abcd", "a"], "default");
    t.styles.set_style(
        String::from("default"),
        StepValue::Steps {
            entries: vec![(3, PartialTextStyle { font: None, size: Some(100), color: None, weight: None })],
            fallback: PartialTextStyle { font: None, size: Some(10), color: None, weight: None },
        },
    );
    let mut root = node(0);
    root.row = StepValue::Const(true);
    root.children.push(t);
    root.children.push(wide(2, 1));
    let l = layout(&root, 200, 100, 0);
    assert_eq!(rect(&l, 1), (0, 0, 20, 100));
    assert_eq!(rect(&l, 2), (20, 0, 1, 100));
    let l = layout(&root, 200, 100, 3);
    assert_eq!(rect(&l, 1), (0, 0, 200, 100));
    root.row = StepValue::Const(false);
    let l = layout(&root, 200, 100, 0);
    assert_eq!(rect(&l, 1), (0, 0, 200, 24));
    let l = layout(&root, 200, 100, 3);
    assert_eq!(rect(&l, 1), (0, 0, 200, 240));
}

#[test]
fn an_image_is_as_large_as_it_is_by_nature() {
    let mut root = node(0);
    root.children.push(image(1, "a.png"));
    root.children.push(high(2, 5));
    let l = layout(&root, 200, 100, 0);
    assert_eq!(rect(&l, 1), (0, 0, 200, 30));
    assert_eq!(rect(&l, 2), (0, 30, 200, 5));
    root.row = StepValue::Const(true);
    let l = layout(&root, 200, 100, 0);
    assert_eq!(rect(&l, 1), (0, 0, 40, 100));
}

#[test]
fn a_box_without_content_is_as_large_as_its_children_need() {
    let mut stack = node(1);
    stack.children.push(high(2, 10));
    stack.children.push(high(3, 20));
    let mut root = node(0);
    root.children.push(stack);
    root.children.push(high(4, 1));
    let l = layout(&root, 200, 100, 0);
    assert_eq!(rect(&l, 1), (0, 0, 200, 30));
    assert_eq!(rect(&l, 2), (0, 0, 200, 10));
    assert_eq!(rect(&l, 3), (0, 10, 200, 20));
    assert_eq!(rect(&l, 4), (0, 30, 200, 1));

    let mut stack = node(1);
    stack.children.push(wide(2, 10));
    stack.children.push(wide(3, 25));
    let mut line = node(5);
    line.row = StepValue::Const(true);
    line.children.push(wide(6, 10));
    line.children.push(wide(7, 25));
    let mut root = node(0);
    root.row = StepValue::Const(true);
    root.children.push(stack);
    root.children.push(line);
    root.children.push(wide(4, 1));
    let l = layout(&root, 200, 100, 0);
    assert_eq!(rect(&l, 1), (0, 0, 25, 100));
    assert_eq!(rect(&l, 5), (25, 0, 35, 100));
    assert_eq!(rect(&l, 6), (25, 0, 10, 100));
    assert_eq!(rect(&l, 7), (35, 0, 25, 100));
    assert_eq!(rect(&l, 4), (60, 0, 1, 100));
}

#[test]
fn a_size_in_hundredths_asks_nothing_of_an_open_parent() {
    let mut half = node(2);
    half.width = StepValue::Const(Some(Size::Percent(50)));
    let mut line = node(1);
    line.row = StepValue::Const(true);
    line.children.push(half);
    let mut root = node(0);
    root.row = StepValue::Const(true);
    root.children.push(line);
    root.children.push(wide(3, 4));
    let l = layout(&root, 200, 100, 0);
    assert_eq!(rect(&l, 1), (0, 0, 0, 100));
    assert_eq!(rect(&l, 2), (0, 0, 0, 100));
    assert_eq!(rect(&l, 3), (0, 0, 4, 100));
}

#[test]
fn the_background_and_visibility_do_not_change_the_layout() {
    let mut first = high(1, 10);
    first.bg_color = StepValue::Const(Some(Color::new(1, 2, 3, 255)));
    first.show = StepValue::Const(false);
    let mut root = node(0);
    root.children.push(first);
    root.children.push(high(2, 20));
    let l = layout(&root, 200, 100, 0);
    assert_eq!(rect(&l, 1), (0, 0, 200, 10));
    assert_eq!(rect(&l, 2), (0, 10, 200, 20));
}

#[test]
fn two_layouts_of_one_tree_are_the_same() {
    let mut root = node(0);
    root.children.push(text(1, &["ab", "abcd"], "default"));
    root.children.push(image(2, "a.png"));
    root.children.push(high(3, 30));
    let first = layout(&root, 200, 100, 2);
    let second = layout(&root, 200, 100, 2);
    assert_eq!(first.rects, second.rects);
}

#[test]
fn a_layout_answers_for_the_nodes_it_holds() {
    let mut root = node(0);
    root.children.push(high(1, 10));
    let l = layout(&root, 200, 100, 0);
    assert_eq!(l.rect(NodeId::new(1)), Some(Rectangle::new(0, 0, 200, 10)));
    assert_eq!(l.xy(NodeId::new(1)), Some((0, 0)));
    assert_eq!(l.xywh(NodeId::new(0)), Some((0, 0, 200, 100)));
    assert_eq!(l.rect(NodeId::new(9)), None);
    assert_eq!(l.xy(NodeId::new(9)), None);
    assert_eq!(l.xywh(NodeId::new(9)), None);
    assert_eq!(Rectangle::new(1, 2, 3, 4).xywh(), (1, 2, 3, 4));
}

#[test]
fn an_image_that_was_not_loaded_fails_the_layout() {
    let mut root = node(0);
    root.children.push(high(1, 10));
    root.children.push(image(7, "zzz.png"));
    assert_eq!(
        layout_with(&root, 200, 100, 0).unwrap_err(),
        RenderError { kind: RenderErrorKind::MissingImage, node_id: NodeId(7) }
    );
}

#[test]
fn a_text_in_an_unknown_style_fails_the_layout() {
    let mut root = node(0);
    root.children.push(text(4, &["a"], "nope"));
    assert_eq!(
        layout_with(&root, 200, 100, 0).unwrap_err(),
        RenderError { kind: RenderErrorKind::UnknownStyle, node_id: NodeId(4) }
    );
}

#[test]
fn a_text_in_a_font_without_metrics_fails_the_layout() {
    let mut t = text(4, &["a"], "fancy");
    t.styles.set_style(
        String::from("fancy"),
        StepValue::Const(PartialTextStyle {
            font: Some(String::from("Nope")),
            size: None,
            color: None,
            weight: None,
        }),
    );
    let mut root = node(0);
    root.children.push(t);
    assert_eq!(
        layout_with(&root, 200, 100, 0).unwrap_err(),
        RenderError { kind: RenderErrorKind::MissingFont, node_id: NodeId(4) }
    );
}

#[test]
fn a_rectangle_beyond_the_coordinates_fails_the_layout() {
    let mut inner = node(2);
    inner.width = StepValue::Const(Some(Size::Percent(u32::MAX)));
    let mut outer = node(1);
    outer.width = StepValue::Const(Some(Size::Percent(u32::MAX)));
    outer.children.push(inner);
    let mut root = node(0);
    root.children.push(outer);
    assert_eq!(
        layout_with(&root, u32::MAX, 100, 0).unwrap_err(),
        RenderError { kind: RenderErrorKind::OutOfRange, node_id: NodeId(2) }
    );
    let mut outer = node(1);
    outer.width = StepValue::Const(Some(Size::Percent(u32::MAX)));
    let mut root = node(0);
    root.children.push(outer);
    let l = layout(&root, u32::MAX, 100, 0);
    assert_eq!(rect(&l, 1), (0, 0, 184467440651196170, 0));
}

#[test]
fn the_first_failure_in_measuring_order_is_reported() {
    let mut parent = image(1, "zzz.png");
    parent.children.push(text(2, &["a"], "nope"));
    let mut root = node(0);
    root.children.push(parent);
    root.children.push(image(3, "yyy.png"));
    assert_eq!(
        layout_with(&root, 200, 100, 0).unwrap_err(),
        RenderError { kind: RenderErrorKind::MissingImage, node_id: NodeId(1) }
    );
    let mut parent = node(1);
    parent.children.push(text(2, &["a"], "nope"));
    let mut root = node(0);
    root.reverse = StepValue::Const(true);
    root.children.push(parent);
    root.children.push(image(3, "yyy.png"));
    assert_eq!(
        layout_with(&root, 200, 100, 0).unwrap_err(),
        RenderError { kind: RenderErrorKind::UnknownStyle, node_id: NodeId(2) }
    );
}

#[test]
fn measuring_gives_each_node_the_size_it_asks_for() {
    let mut stack = node(1);
    stack.children.push(high(2, 10));
    stack.children.push(text(3, &["abcd"], "default"));
    let mut root = node(0);
    root.children.push(stack);
    let res = resources();
    let styles = global();
    let default = default_style();
    let ctx = LayoutContext::new(&res, &default, 0);
    let sizes = measure(&root, &ctx).unwrap();
    assert_eq!((sizes.width, sizes.height), (64, 48));
    assert_eq!((sizes.children[0].width, sizes.children[0].height), (64, 48));
    assert_eq!((sizes.children[0].children[0].width, sizes.children[0].children[0].height), (0, 10));
    assert_eq!((sizes.children[0].children[1].width, sizes.children[0].children[1].height), (64, 38));
    assert_eq!(content_size(&None, &styles, &ctx), Ok((0, 0)));
    let picture = Some(NodeContent::Image(Image { filename: String::from("a.png") }));
    assert_eq!(content_size(&picture, &styles, &ctx), Ok((40, 30)));
    let picture = Some(NodeContent::Image(Image { filename: String::from("b.png") }));
    assert_eq!(content_size(&picture, &styles, &ctx), Err(RenderErrorKind::MissingImage));
}

#[test]
fn the_root_has_the_size_and_the_position_it_is_given() {
    let mut root = node(0);
    root.width = StepValue::Const(Some(Size::Points(40)));
    root.height = StepValue::Const(Some(Size::Points(20)));
    root.children.push(high(1, 5));
    let l = layout(&root, 100, 50, 0);
    assert_eq!(rect(&l, 0), (0, 0, 40, 20));
    assert_eq!(rect(&l, 1), (0, 0, 40, 5));
    root.x = StepValue::Const(Some(LayoutExpr::Points(7)));
    root.y = StepValue::Const(Some(LayoutExpr::Percent(10)));
    root.width = StepValue::Const(Some(Size::Percent(50)));
    root.height = StepValue::Steps { entries: vec![(1, None)], fallback: Some(Size::Points(20)) };
    let l = layout(&root, 100, 50, 0);
    assert_eq!(rect(&l, 0), (7, 5, 50, 20));
    assert_eq!(rect(&l, 1), (7, 5, 50, 5));
    let l = layout(&root, 100, 50, 1);
    assert_eq!(rect(&l, 0), (7, 5, 50, 50));
}

#[test]
fn a_root_without_a_given_size_fills_the_canvas() {
    let mut root = node(0);
    root.row = StepValue::Const(true);
    root.children.push(wide(1, 5));
    let l = layout(&root, 100, 50, 0);
    assert_eq!(rect(&l, 0), (0, 0, 100, 50));
    root.row = StepValue::Const(false);
    let l = layout(&root, 100, 50, 0);
    assert_eq!(rect(&l, 0), (0, 0, 100, 50));
}

#[test]
fn a_root_may_lie_partly_outside_the_canvas() {
    let mut root = node(0);
    root.x = StepValue::Const(Some(LayoutExpr::Points(i32::MAX)));
    let l = layout(&root, u32::MAX, 1, 0);
    assert_eq!(rect(&l, 0), (i32::MAX as i64, 0, u32::MAX as i64, 1));
}
