use nelsie::color::Color;
use nelsie::deck::{resolve_box_id, BoxConfig, Deck, OutputConfig};
use nelsie::error::NelsieError;
use nelsie::geometry::Rectangle;
use nelsie::node::{Image, Node, NodeContent, NodeId, Size, StyledText};
use nelsie::render::{render_slide, render_slide_deck, render_to_svg_tree, FrameError, RenderConfig};
use nelsie::resources::{FontMetrics, ImageInfo, Resources};
use nelsie::error::{RenderError, RenderErrorKind};
use nelsie::scene::DrawPrimitive;
use nelsie::slide::{Slide, SlideDeck, DEFAULT_FONT_SIZE, DEFAULT_FONT_WEIGHT};
use nelsie::stepvalue::StepValue;
use nelsie::textstyle::{PartialTextStyle, TextStyle};

fn resources() -> Resources {
    Resources {
        fonts: vec![FontMetrics::new("sans-serif", 500, 1200), FontMetrics::new("Sans", 500, 1000)],
        images: vec![ImageInfo::new("a.png", 40, 30)],
    }
}

fn config() -> BoxConfig {
    BoxConfig {
        show: StepValue::Const(true),
        x: StepValue::Const(None),
        y: StepValue::Const(None),
        width: StepValue::Const(None),
        height: StepValue::Const(None),
        row: StepValue::Const(false),
        reverse: StepValue::Const(false),
        bg_color: StepValue::Const(None),
        content: StepValue::Const(None),
    }
}

fn partial(font: Option<&str>, size: Option<u32>) -> PartialTextStyle {
    PartialTextStyle { font: font.map(String::from), size, color: None, weight: None }
}

fn text(style: &str) -> Option<NodeContent> {
    Some(NodeContent::Text(StyledText { lines: vec![String::from("abcd")], style: String::from(style) }))
}

fn message(e: NelsieError) -> String {
    match e {
        NelsieError::GenericError(m) => m,
        other => panic!("unexpected: {:?}", other),
    }
}

fn deck() -> Deck {
    Deck::new(&resources(), None).unwrap()
}

#[test]
fn a_new_deck_has_its_default_style_and_no_slides() {
    let d = deck();
    assert!(d.deck.slides.is_empty());
    assert_eq!(
        d.deck.default_style,
        TextStyle {
            font: String::from("sans-serif"),
            size: DEFAULT_FONT_SIZE,
            color: Color::new(0, 0, 0, 255),
            weight: DEFAULT_FONT_WEIGHT,
        }
    );
    assert_eq!(DEFAULT_FONT_SIZE, 32);
    assert_eq!(DEFAULT_FONT_WEIGHT, 400);
    assert_eq!(d.deck.node_id_counter, 0);
    assert_eq!(d.deck.global_styles.entries.len(), 1);
    assert_eq!(d.deck.global_styles.entries[0].0, "default");
    assert_eq!(
        d.get_style("default", 0, None, None).unwrap(),
        PartialTextStyle {
            font: Some(String::from("sans-serif")),
            size: Some(32),
            color: Some(Color::new(0, 0, 0, 255)),
            weight: Some(400),
        }
    );
    let d = Deck::new(&resources(), Some("Sans")).unwrap();
    assert_eq!(d.deck.default_style.font, "Sans");
    let d = SlideDeck::new(&resources(), Some("Sans")).unwrap();
    assert_eq!(d.default_style.font, "Sans");
}

#[test]
fn a_deck_needs_the_metrics_of_its_default_font() {
    assert_eq!(message(Deck::new(&resources(), Some("Nope")).unwrap_err()), "Font not found: Nope");
    assert_eq!(
        message(Deck::new(&Resources::new(), None).unwrap_err()),
        "Font not found: sans-serif"
    );
}

#[test]
fn slides_are_numbered_in_the_order_in_which_they_are_added() {
    let mut d = deck();
    assert_eq!(d.new_slide(200, 100, "#ff0000", String::from("first")).unwrap(), 0);
    assert_eq!(d.new_slide(300, 150, "white", String::from("second")).unwrap(), 1);
    assert_eq!(d.deck.slides.len(), 2);
    let s = &d.deck.slides[0];
    assert_eq!((s.width, s.height), (200, 100));
    assert_eq!(s.name, "first");
    assert_eq!(s.bg_color, Color::new(255, 0, 0, 255));
    assert_eq!(s.node.node_id, NodeId(0));
    assert!(s.node.children.is_empty());
    assert_eq!(s.n_steps, 0);
    assert_eq!(s.node.styles, d.deck.global_styles);
    assert_eq!(d.deck.slides[1].bg_color, Color::new(255, 255, 255, 255));
    assert_eq!(d.deck.slides[1].node.node_id, NodeId(1));
    assert_eq!(d.deck.node_id_counter, 2);
}

#[test]
fn a_slide_with_a_background_that_is_no_color_is_not_added() {
    let mut d = deck();
    assert_eq!(
        message(d.new_slide(200, 100, "reddish", String::from("s")).unwrap_err()),
        "Invalid color: reddish"
    );
    assert!(d.deck.slides.is_empty());
    assert_eq!(d.deck.node_id_counter, 0);
}

#[test]
fn a_deck_hands_out_each_node_id_once() {
    let mut d = SlideDeck::new(&resources(), None).unwrap();
    assert_eq!(d.new_node_id(), Some(NodeId(0)));
    assert_eq!(d.new_node_id(), Some(NodeId(1)));
    assert_eq!(d.node_id_counter, 2);
    d.node_id_counter = u32::MAX;
    assert_eq!(d.new_node_id(), None);
    assert_eq!(d.node_id_counter, u32::MAX);
}

#[test]
fn node_ids_are_not_repeated_from_slide_to_slide() {
    let mut d = deck();
    d.new_slide(200, 100, "black", String::from("a")).unwrap();
    d.new_slide(200, 100, "black", String::from("b")).unwrap();
    let (_, first) = d.new_box(0, vec![], config()).unwrap();
    let (_, second) = d.new_box(1, vec![], config()).unwrap();
    let (_, third) = d.new_box(0, vec![], config()).unwrap();
    assert_eq!((first, second, third), (2, 3, 4));
    assert_eq!(d.deck.slides[0].node.node_id, NodeId(0));
    assert_eq!(d.deck.slides[1].node.node_id, NodeId(1));
    assert!(d.new_box(0, vec![9], config()).is_err());
    let (_, fourth) = d.new_box(1, vec![0], config()).unwrap();
    assert_eq!(fourth, 5);
    assert_eq!(d.deck.node_id_counter, 6);
}

#[test]
fn a_slide_is_made_from_its_parts() {
    let mut styles = nelsie::textstyle::StyleMap::new();
    styles.set_style(
        String::from("s"),
        StepValue::Steps { entries: vec![(3, partial(None, Some(1)))], fallback: partial(None, None) },
    );
    let s = Slide::new(10, 20, String::from("s"), Color::black(), NodeId::new(7), styles.duplicate());
    assert_eq!((s.width, s.height), (10, 20));
    assert_eq!(s.node.node_id, NodeId(7));
    assert_eq!(s.node.styles, styles);
    assert_eq!(s.n_steps, 3);
    let mut root = Node::new(NodeId::new(4));
    root.row = StepValue::Steps { entries: vec![(6, true)], fallback: false };
    let s = Slide::with_root(1, 2, String::from("t"), Color::black(), root);
    assert_eq!(s.n_steps, 6);
    assert_eq!(s.node.node_id, NodeId(4));
}

#[test]
fn boxes_are_added_as_last_children_and_named_by_their_path() {
    let mut d = deck();
    d.new_slide(200, 100, "black", String::from("s")).unwrap();
    assert_eq!(d.new_box(0, vec![], config()).unwrap(), (vec![0], 1));
    assert_eq!(d.new_box(0, vec![], config()).unwrap(), (vec![1], 2));
    assert_eq!(d.new_box(0, vec![1], config()).unwrap(), (vec![1, 0], 3));
    assert_eq!(d.new_box(0, vec![1, 0], config()).unwrap(), (vec![1, 0, 0], 4));
    assert_eq!(d.new_box(0, vec![1], config()).unwrap(), (vec![1, 1], 5));
    let root = &d.deck.slides[0].node;
    assert_eq!(root.children.len(), 2);
    assert_eq!(root.children[0].node_id, NodeId(1));
    assert_eq!(root.children[1].node_id, NodeId(2));
    assert_eq!(root.children[1].children[0].node_id, NodeId(3));
    assert_eq!(root.children[1].children[0].children[0].node_id, NodeId(4));
    assert_eq!(root.children[1].children[1].node_id, NodeId(5));
    assert_eq!(d.deck.node_id_counter, 6);
}

#[test]
fn a_box_gets_the_attributes_of_its_configuration() {
    let mut d = deck();
    d.new_slide(200, 100, "black", String::from("s")).unwrap();
    let mut c = config();
    c.row = StepValue::Const(true);
    c.width = StepValue::Const(Some(Size::Points(7)));
    c.bg_color = StepValue::Const(Some(Color::new(1, 2, 3, 4)));
    c.content = StepValue::Const(Some(NodeContent::Image(Image { filename: String::from("a.png") })));
    d.new_box(0, vec![], c).unwrap();
    let node = &d.deck.slides[0].node.children[0];
    assert_eq!(node.row, StepValue::Const(true));
    assert_eq!(node.width, StepValue::Const(Some(Size::Points(7))));
    assert_eq!(node.bg_color, StepValue::Const(Some(Color::new(1, 2, 3, 4))));
    assert_eq!(
        node.content,
        StepValue::Const(Some(NodeContent::Image(Image { filename: String::from("a.png") })))
    );
    assert_eq!(node.styles, d.deck.global_styles);
    assert!(node.children.is_empty());
    let (made, steps) = config().make_node(NodeId::new(9), nelsie::textstyle::StyleMap::new());
    assert_eq!(made, Node::new(NodeId::new(9)));
    assert_eq!(steps, 0);
    let (made, _) = BoxConfig::blank().make_node(NodeId::new(9), nelsie::textstyle::StyleMap::new());
    assert_eq!(made, Node::new(NodeId::new(9)));
}

#[test]
fn a_box_cannot_be_added_where_there_is_no_slide_or_no_box() {
    let mut d = deck();
    assert_eq!(message(d.new_box(0, vec![], config()).unwrap_err()), "Invalid slide id");
    d.new_slide(200, 100, "black", String::from("s")).unwrap();
    assert_eq!(message(d.new_box(1, vec![], config()).unwrap_err()), "Invalid slide id");
    assert_eq!(message(d.new_box(0, vec![0], config()).unwrap_err()), "Invalid box id");
    d.new_box(0, vec![], config()).unwrap();
    assert_eq!(message(d.new_box(0, vec![0, 0], config()).unwrap_err()), "Invalid box id");
    assert_eq!(message(d.new_box(0, vec![1], config()).unwrap_err()), "Invalid box id");
    assert_eq!(d.deck.node_id_counter, 2);
    assert_eq!(d.deck.slides[0].node.children.len(), 1);
}

#[test]
fn a_text_must_name_a_style_that_is_visible_at_its_box() {
    let mut d = deck();
    d.new_slide(200, 100, "black", String::from("s")).unwrap();
    d.new_box(0, vec![], config()).unwrap();
    let mut c = config();
    c.content = StepValue::Steps { entries: vec![(2, text("title"))], fallback: text("default") };
    assert_eq!(message(d.new_box(0, vec![0], c).unwrap_err()), "Unknown style name");
    assert_eq!(d.deck.node_id_counter, 2);
    d.set_style("title", StepValue::Const(partial(None, Some(40))), Some(0), Some(vec![0])).unwrap();
    let mut c = config();
    c.content = StepValue::Steps { entries: vec![(2, text("title"))], fallback: text("default") };
    assert_eq!(d.new_box(0, vec![0], c).unwrap(), (vec![0, 0], 2));
    let mut c = config();
    c.content = StepValue::Const(text("title"));
    assert_eq!(message(d.new_box(0, vec![], c).unwrap_err()), "Unknown style name");
}

#[test]
fn a_slide_and_a_box_hold_no_more_than_their_ids_can_name() {
    let mut d = deck();
    d.new_slide(200, 100, "black", String::from("s")).unwrap();
    d.deck.node_id_counter = u32::MAX;
    assert_eq!(message(d.new_box(0, vec![], config()).unwrap_err()), "Too many items");
    assert!(d.deck.slides[0].node.children.is_empty());
    assert_eq!(message(d.new_slide(1, 1, "black", String::from("t")).unwrap_err()), "Too many items");
    assert_eq!(d.deck.slides.len(), 1);
}

#[test]
fn the_steps_of_a_slide_reach_the_steps_of_a_leaf_three_levels_deep() {
    let mut d = deck();
    d.new_slide(200, 100, "black", String::from("s")).unwrap();
    d.new_box(0, vec![], config()).unwrap();
    d.new_box(0, vec![0], config()).unwrap();
    assert_eq!(d.deck.slides[0].n_steps, 0);
    let mut c = config();
    c.show = StepValue::Steps { entries: vec![(5, false)], fallback: true };
    d.new_box(0, vec![0, 0], c).unwrap();
    assert_eq!(d.deck.slides[0].n_steps, 5);
    assert!(d.deck.slides[0].n_steps >= 5);
    assert_eq!(d.deck.slides[0].node.n_steps(), 5);
    let mut c = config();
    c.row = StepValue::Steps { entries: vec![(3, true)], fallback: false };
    d.new_box(0, vec![], c).unwrap();
    assert_eq!(d.deck.slides[0].n_steps, 5);
    d.set_style(
        "late",
        StepValue::Steps { entries: vec![(8, partial(None, Some(1)))], fallback: partial(None, None) },
        Some(0),
        Some(vec![0, 0]),
    )
    .unwrap();
    assert_eq!(d.deck.slides[0].n_steps, 8);
    assert_eq!(d.deck.slides[0].node.n_steps(), 8);
}

#[test]
fn a_box_merges_its_style_over_the_style_of_the_deck() {
    let mut d = deck();
    d.set_style("body", StepValue::Const(partial(Some("Sans"), Some(12))), None, None).unwrap();
    d.new_slide(200, 100, "black", String::from("s")).unwrap();
    d.new_box(0, vec![], config()).unwrap();
    d.new_box(0, vec![0], config()).unwrap();
    d.set_style("body", StepValue::Const(partial(None, Some(14))), Some(0), Some(vec![0])).unwrap();
    assert_eq!(
        d.get_style("body", 0, Some(0), Some(vec![0])).unwrap(),
        partial(Some("Sans"), Some(14))
    );
    d.new_box(0, vec![0], config()).unwrap();
    assert_eq!(
        d.get_style("body", 0, Some(0), Some(vec![0, 1])).unwrap(),
        partial(Some("Sans"), Some(14))
    );
    assert_eq!(
        d.get_style("body", 0, Some(0), Some(vec![0, 0])).unwrap(),
        partial(Some("Sans"), Some(12))
    );
    assert_eq!(d.get_style("body", 0, Some(0), Some(vec![])).unwrap(), partial(Some("Sans"), Some(12)));
    assert_eq!(d.get_style("body", 0, None, None).unwrap(), partial(Some("Sans"), Some(12)));
}

#[test]
fn a_slide_holds_a_snapshot_of_the_scope_of_the_deck() {
    let mut d = deck();
    d.new_slide(200, 100, "black", String::from("early")).unwrap();
    d.new_box(0, vec![], config()).unwrap();
    assert_eq!(message(d.get_style("late", 0, Some(0), Some(vec![])).unwrap_err()), "Style not found: late");
    d.set_style(
        "late",
        StepValue::Steps { entries: vec![(4, partial(None, Some(2)))], fallback: partial(None, Some(1)) },
        None,
        None,
    )
    .unwrap();
    d.set_style("default", StepValue::Const(partial(None, Some(99))), None, None).unwrap();
    assert_eq!(message(d.get_style("late", 0, Some(0), Some(vec![])).unwrap_err()), "Style not found: late");
    assert_eq!(message(d.get_style("late", 0, Some(0), Some(vec![0])).unwrap_err()), "Style not found: late");
    assert_eq!(d.get_style("default", 0, Some(0), Some(vec![0])).unwrap().size, Some(32));
    assert_eq!(d.deck.slides[0].n_steps, 0);
    assert_eq!(d.get_style("late", 0, None, None).unwrap(), partial(None, Some(1)));
    assert_eq!(d.get_style("default", 0, None, None).unwrap().size, Some(99));
    d.new_slide(200, 100, "black", String::from("after")).unwrap();
    assert_eq!(d.get_style("late", 4, Some(1), Some(vec![])).unwrap(), partial(None, Some(2)));
    assert_eq!(d.get_style("default", 0, Some(1), Some(vec![])).unwrap().size, Some(99));
    assert_eq!(d.deck.slides[1].n_steps, 4);
}

#[test]
fn a_style_of_a_slide_leaves_the_deck_and_the_other_slides_alone() {
    let mut d = deck();
    d.set_style("body", StepValue::Const(partial(Some("Sans"), Some(12))), None, None).unwrap();
    d.new_slide(200, 100, "black", String::from("a")).unwrap();
    d.new_slide(200, 100, "black", String::from("b")).unwrap();
    d.new_box(0, vec![], config()).unwrap();
    d.set_style("body", StepValue::Const(partial(None, Some(99))), Some(0), Some(vec![])).unwrap();
    d.set_style("mine", StepValue::Const(partial(None, Some(1))), Some(0), Some(vec![])).unwrap();
    assert_eq!(d.get_style("body", 0, Some(0), Some(vec![])).unwrap(), partial(Some("Sans"), Some(99)));
    assert_eq!(d.get_style("body", 0, Some(0), Some(vec![0])).unwrap(), partial(Some("Sans"), Some(12)));
    assert_eq!(d.get_style("body", 0, Some(1), Some(vec![])).unwrap(), partial(Some("Sans"), Some(12)));
    assert_eq!(d.get_style("body", 0, None, None).unwrap(), partial(Some("Sans"), Some(12)));
    assert_eq!(message(d.get_style("mine", 0, Some(1), Some(vec![])).unwrap_err()), "Style not found: mine");
    assert_eq!(message(d.get_style("mine", 0, None, None).unwrap_err()), "Style not found: mine");
    assert_eq!(d.deck.slides[1].node.styles, d.deck.global_styles);
    assert_eq!(d.deck.global_styles.entries.len(), 2);
}

#[test]
fn a_style_is_asked_for_at_a_step() {
    let mut d = deck();
    d.set_style(
        "body",
        StepValue::Steps { entries: vec![(3, partial(None, Some(30)))], fallback: partial(None, Some(10)) },
        None,
        None,
    )
    .unwrap();
    assert_eq!(d.get_style("body", 2, None, None).unwrap(), partial(None, Some(10)));
    assert_eq!(d.get_style("body", 3, None, None).unwrap(), partial(None, Some(30)));
}

#[test]
fn styles_are_set_and_asked_for_at_places_that_exist() {
    let mut d = deck();
    let style = || StepValue::Const(partial(None, Some(1)));
    assert_eq!(message(d.set_style("x", style(), Some(0), Some(vec![])).unwrap_err()), "Invalid slide id");
    assert_eq!(message(d.get_style("x", 0, Some(0), Some(vec![])).unwrap_err()), "Invalid slide id");
    d.new_slide(200, 100, "black", String::from("a")).unwrap();
    assert_eq!(message(d.set_style("x", style(), Some(0), Some(vec![3])).unwrap_err()), "Invalid node id");
    assert_eq!(message(d.get_style("x", 0, Some(0), Some(vec![3])).unwrap_err()), "Invalid node id");
    assert_eq!(message(d.get_style("x", 0, Some(0), None).unwrap_err()), "Invalid box id");
    assert_eq!(message(d.get_style("x", 0, Some(0), Some(vec![])).unwrap_err()), "Style not found: x");
    d.set_style("x", style(), Some(0), None).unwrap();
    assert_eq!(message(d.get_style("x", 0, Some(0), Some(vec![])).unwrap_err()), "Style not found: x");
    assert_eq!(d.deck.slides[0].node.styles.entries.len(), 1);
    assert_eq!(d.deck.global_styles.entries.len(), 1);
}

#[test]
fn a_box_is_reached_for_change_by_its_path() {
    let mut root = Node::new(NodeId::new(0));
    let mut a = Node::new(NodeId::new(1));
    a.children.push(Node::new(NodeId::new(2)));
    root.children.push(a);
    assert_eq!(resolve_box_id(&mut root, &[]).unwrap().node_id, NodeId(0));
    assert_eq!(resolve_box_id(&mut root, &[0, 0]).unwrap().node_id, NodeId(2));
    assert!(resolve_box_id(&mut root, &[1]).is_none());
    assert!(resolve_box_id(&mut root, &[0, 0, 0]).is_none());
    resolve_box_id(&mut root, &[0, 0]).unwrap().row = StepValue::Const(true);
    assert_eq!(root.children[0].children[0].row, StepValue::Const(true));
    assert_eq!(root.children[0].row, StepValue::Const(false));
}

fn two_slides() -> Deck {
    let mut d = deck();
    d.new_slide(200, 100, "#010203", String::from("a")).unwrap();
    let mut c = config();
    c.height = StepValue::Const(Some(Size::Points(10)));
    c.bg_color = StepValue::Steps { entries: vec![(1, Some(Color::new(9, 9, 9, 255)))], fallback: None };
    d.new_box(0, vec![], c).unwrap();
    d.new_slide(50, 60, "white", String::from("b")).unwrap();
    d
}

#[test]
fn a_deck_is_rendered_slide_by_slide_and_step_by_step() {
    let d = two_slides();
    let all = d.render(&resources()).unwrap();
    assert_eq!(all.len(), 2);
    assert_eq!(all[0].len(), 2);
    assert_eq!(all[1].len(), 1);
    assert_eq!(all[0][0].step, 0);
    assert_eq!(all[0][1].step, 1);
    assert_eq!((all[0][0].width, all[0][0].height), (200, 100));
    assert_eq!(all[0][0].bg_color, Color::new(1, 2, 3, 255));
    assert_eq!(all[0][0].primitives, vec![]);
    assert_eq!(
        all[0][1].primitives,
        vec![DrawPrimitive::Rect { rect: Rectangle::new(0, 0, 200, 10), color: Color::new(9, 9, 9, 255) }]
    );
    assert_eq!((all[1][0].width, all[1][0].height), (50, 60));
    assert_eq!(all[1][0].bg_color, Color::new(255, 255, 255, 255));
    assert_eq!(all[1][0].primitives, vec![]);
    assert_eq!(render_slide_deck(&d.deck, &resources()).unwrap(), all);
    assert_eq!(render_slide(&d.deck, &resources(), 0).unwrap(), all[0]);
    let res = resources();
    let cfg = RenderConfig {
        resources: &res,
        default_style: &d.deck.default_style,
        slide: &d.deck.slides[0],
        step: 1,
    };
    assert_eq!(render_to_svg_tree(&cfg).unwrap(), all[0][1]);
}

#[test]
fn the_first_failure_ends_a_render() {
    let mut d = two_slides();
    let mut c = config();
    c.content = StepValue::Steps {
        entries: vec![(1, Some(NodeContent::Image(Image { filename: String::from("b.png") })))],
        fallback: Some(NodeContent::Image(Image { filename: String::from("a.png") })),
    };
    d.new_box(1, vec![], c).unwrap();
    assert_eq!(
        message(d.render(&resources()).unwrap_err()),
        "Image not loaded (slide 1, step 1, node 3)"
    );
    let failure = FrameError {
        slide: 1,
        step: 1,
        error: RenderError { kind: RenderErrorKind::MissingImage, node_id: NodeId(3) },
    };
    assert_eq!(failure.message(), "Image not loaded (slide 1, step 1, node 3)");
    assert_eq!(render_slide_deck(&d.deck, &resources()).unwrap_err(), failure);
    assert_eq!(render_slide(&d.deck, &resources(), 1).unwrap_err(), failure);
    assert_eq!(render_slide(&d.deck, &resources(), 0).unwrap().len(), 2);
    let mut res = resources();
    res.images.push(ImageInfo::new("b.png", 1, 1));
    assert_eq!(d.render(&res).unwrap()[1].len(), 2);
}

#[test]
fn an_empty_deck_renders_to_nothing() {
    assert_eq!(deck().render(&resources()).unwrap(), Vec::<Vec<nelsie::render::Scene>>::new());
}

#[test]
fn images_of_a_deck_are_found_before_they_are_loaded() {
    let mut d = two_slides();
    let mut c = config();
    c.content = StepValue::Const(Some(NodeContent::Image(Image { filename: String::from("b.png") })));
    d.new_box(1, vec![], c).unwrap();
    let mut c = config();
    c.content = StepValue::Const(Some(NodeContent::Image(Image { filename: String::from("a.png") })));
    d.new_box(0, vec![0], c).unwrap();
    let mut c = config();
    c.content = StepValue::Const(Some(NodeContent::Image(Image { filename: String::from("b.png") })));
    d.new_box(0, vec![], c).unwrap();
    let mut paths = Vec::new();
    for slide in d.deck.slides.iter() {
        slide.node.collect_image_paths(&mut paths);
    }
    assert_eq!(paths, vec!["a.png", "b.png"]);
}

#[test]
fn an_output_configuration_names_the_files_that_are_wanted() {
    let out = OutputConfig { output_pdf: Some("deck.pdf"), output_svg: None, output_png: Some("png") };
    assert_eq!(out.output_pdf, Some("deck.pdf"));
    assert_eq!(out.output_svg, None);
    assert_eq!(out.output_png, Some("png"));
}

#[test]
fn a_slide_may_be_made_with_a_root_of_given_attributes() {
    let mut d = deck();
    let mut c = config();
    c.row = StepValue::Steps { entries: vec![(2, true)], fallback: false };
    c.width = StepValue::Const(Some(Size::Points(40)));
    c.content = StepValue::Const(text("default"));
    assert_eq!(d.new_slide_with_root(100, 50, "black", String::from("s"), c).unwrap(), 0);
    let slide = &d.deck.slides[0];
    assert_eq!(slide.node.node_id, NodeId(0));
    assert_eq!(slide.node.width, StepValue::Const(Some(Size::Points(40))));
    assert_eq!(slide.node.styles, d.deck.global_styles);
    assert_eq!(slide.n_steps, 2);
    assert_eq!(d.deck.node_id_counter, 1);
    let mut c = config();
    c.content = StepValue::Const(text("nope"));
    assert_eq!(
        message(d.new_slide_with_root(100, 50, "black", String::from("s"), c).unwrap_err()),
        "Unknown style name"
    );
    assert_eq!(
        message(d.new_slide_with_root(100, 50, "blak", String::from("s"), config()).unwrap_err()),
        "Invalid color: blak"
    );
    assert_eq!(d.deck.slides.len(), 1);
    assert_eq!(d.deck.node_id_counter, 1);
    let all = d.render(&resources()).unwrap();
    assert_eq!(all[0].len(), 3);
}

#[test]
fn the_last_state_of_a_slide_repeats_past_its_steps() {
    let d = two_slides();
    let res = resources();
    let at = |step: u32| {
        let cfg = RenderConfig {
            resources: &res,
            default_style: &d.deck.default_style,
            slide: &d.deck.slides[0],
            step,
        };
        render_to_svg_tree(&cfg).unwrap().primitives
    };
    assert_eq!(d.deck.slides[0].n_steps, 1);
    assert_eq!(at(1), at(2));
    assert_eq!(at(1), at(100));
}
