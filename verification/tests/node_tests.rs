use nelsie::node::{
    insert_path, later_step, Image, LayoutExpr, Node, NodeContent, NodeId, StyledText,
};
use nelsie::stepvalue::StepValue;

fn image(path: &str) -> Option<NodeContent> {
    Some(NodeContent::Image(Image { filename: String::from(path) }))
}

fn text(line: &str) -> Option<NodeContent> {
    Some(NodeContent::Text(StyledText {
        lines: vec![String::from(line)],
        style: String::from("default"),
    }))
}

#[test]
fn a_new_node_is_blank() {
    let node = Node::new(NodeId::new(5));
    assert_eq!(node.node_id, NodeId(5));
    assert_eq!(node.node_id.as_u32(), 5);
    assert!(node.children.is_empty());
    assert_eq!(node.show, StepValue::Const(true));
    assert_eq!(node.row, StepValue::Const(false));
    assert_eq!(node.reverse, StepValue::Const(false));
    assert_eq!(node.content, StepValue::Const(None));
    assert_eq!(node.bg_color, StepValue::Const(None));
    assert!(node.styles.entries.is_empty());
    assert_eq!(node.n_steps(), 0);
}

#[test]
fn the_main_axis_of_a_row_is_x_and_of_a_column_is_y() {
    let mut node = Node::new(NodeId::new(1));
    node.x = StepValue::Const(Some(LayoutExpr::Points(3)));
    node.y = StepValue::Const(Some(LayoutExpr::Percent(50)));
    assert_eq!(node.main_axis_position(true), &StepValue::Const(Some(LayoutExpr::Points(3))));
    assert_eq!(node.main_axis_position(false), &StepValue::Const(Some(LayoutExpr::Percent(50))));
    assert_eq!(node.cross_axis_position(true), &StepValue::Const(Some(LayoutExpr::Percent(50))));
    assert_eq!(node.cross_axis_position(false), &StepValue::Const(Some(LayoutExpr::Points(3))));
}

#[test]
fn image_paths_are_collected_from_all_steps_and_all_descendants() {
    let mut root = Node::new(NodeId::new(0));
    root.content = StepValue::Steps {
        entries: vec![(1, image("b.png")), (2, text("hello")), (3, image("c.png"))],
        fallback: image("a.png"),
    };
    let mut child = Node::new(NodeId::new(1));
    child.content = StepValue::Const(image("d.png"));
    let mut grandchild = Node::new(NodeId::new(2));
    grandchild.content = StepValue::Const(image("b.png"));
    child.children.push(grandchild);
    root.children.push(child);
    root.children.push(Node::new(NodeId::new(3)));
    let mut out = Vec::new();
    root.collect_image_paths(&mut out);
    assert_eq!(out, vec!["a.png", "b.png", "c.png", "d.png"]);
}

#[test]
fn a_path_that_is_held_already_is_not_added_again() {
    let mut root = Node::new(NodeId::new(0));
    root.content = StepValue::Const(image("a.png"));
    let mut out = vec![String::from("z.png"), String::from("a.png")];
    root.collect_image_paths(&mut out);
    assert_eq!(out, vec!["z.png", "a.png"]);
    root.collect_image_paths(&mut out);
    assert_eq!(out, vec!["z.png", "a.png"]);
    insert_path(&mut out, &String::from("q.png"));
    insert_path(&mut out, &String::from("z.png"));
    assert_eq!(out, vec!["z.png", "a.png", "q.png"]);
}

#[test]
fn a_tree_without_images_collects_nothing() {
    let mut root = Node::new(NodeId::new(0));
    root.content = StepValue::Const(text("hello"));
    root.children.push(Node::new(NodeId::new(1)));
    let mut out = Vec::new();
    root.collect_image_paths(&mut out);
    assert!(out.is_empty());
}

#[test]
fn steps_propagate_from_a_leaf_three_levels_deep() {
    let mut leaf = Node::new(NodeId::new(3));
    leaf.show = StepValue::Steps { entries: vec![(2, false), (5, true)], fallback: true };
    let mut level2 = Node::new(NodeId::new(2));
    level2.children.push(leaf);
    let mut level1 = Node::new(NodeId::new(1));
    level1.x = StepValue::Steps { entries: vec![(1, None)], fallback: None };
    level1.children.push(level2);
    let mut root = Node::new(NodeId::new(0));
    root.children.push(Node::new(NodeId::new(4)));
    root.children.push(level1);
    assert_eq!(root.n_steps(), 5);
    assert!(root.n_steps() >= 5);
    assert_eq!(root.children[0].n_steps(), 0);
    assert_eq!(root.children[1].children[0].n_steps(), 5);
}

#[test]
fn the_steps_of_a_node_are_the_latest_of_its_attributes() {
    let mut node = Node::new(NodeId::new(0));
    node.row = StepValue::Steps { entries: vec![(3, true)], fallback: false };
    node.bg_color = StepValue::Steps { entries: vec![(7, None)], fallback: None };
    node.content = StepValue::Steps { entries: vec![(4, None)], fallback: None };
    assert_eq!(node.n_steps(), 7);
    assert_eq!(later_step(3, 7), 7);
    assert_eq!(later_step(7, 3), 7);
}

#[test]
fn nodes_are_reached_by_child_indices() {
    let mut root = Node::new(NodeId::new(0));
    let mut a = Node::new(NodeId::new(1));
    a.children.push(Node::new(NodeId::new(2)));
    a.children.push(Node::new(NodeId::new(3)));
    root.children.push(a);
    assert_eq!(root.node_at(&[]).unwrap().node_id, NodeId(0));
    assert_eq!(root.node_at(&[0]).unwrap().node_id, NodeId(1));
    assert_eq!(root.node_at(&[0, 1]).unwrap().node_id, NodeId(3));
    assert!(root.node_at(&[1]).is_none());
    assert!(root.node_at(&[0, 2]).is_none());
    assert!(root.node_at(&[0, 1, 0]).is_none());
    assert_eq!(root.child_node(0).unwrap().node_id, NodeId(1));
    assert!(root.child_node(1).is_none());
}
