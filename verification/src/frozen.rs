//! Past its last step a slide no longer changes: the layout and the scene of
//! every later step are those of the last step.

use crate::geometry::{Geometry, Rectangle};
use crate::layout::{
    child_geometry_at, children_failure, cursor_at, layout_index, measured, measured_children,
    place_failure, placed, placed_children, root_geometry, LayoutContext,
};
use crate::node::Node;
use crate::render::RenderConfig;
use crate::scene::{children_scene, children_scene_failure, scene, scene_failure};
use crate::stepvalue::Step;
use crate::textstyle::{find_name, lemma_find_name, lemma_styles_max_step, TextStyle};
use vstd::prelude::*;

verus! {

/// Two contexts that differ at most in their step.
pub open spec fn same_but_step(a: LayoutContext, b: LayoutContext) -> bool {
    a.resources == b.resources && a.default_style == b.default_style
}

/// From the last step of a node on, its attributes and the styles of its
/// scope keep their values.
pub proof fn lemma_frozen_node(node: Node, s1: Step, s2: Step)
    requires
        node.max_step() <= s1 <= s2,
    ensures
        node.show.value_at(s2) == node.show.value_at(s1),
        node.x.value_at(s2) == node.x.value_at(s1),
        node.y.value_at(s2) == node.y.value_at(s1),
        node.width.value_at(s2) == node.width.value_at(s1),
        node.height.value_at(s2) == node.height.value_at(s1),
        node.row.value_at(s2) == node.row.value_at(s1),
        node.reverse.value_at(s2) == node.reverse.value_at(s1),
        node.bg_color.value_at(s2) == node.bg_color.value_at(s1),
        node.content.value_at(s2) == node.content.value_at(s1),
        forall|name: Seq<char>| #[trigger]
            node.styles.lookup(name) matches Some(style) ==> style.value_at(s2) == style.value_at(
                s1,
            ),
        forall|i: int|
            0 <= i < node.children@.len() ==> (#[trigger] node.children@[i]).max_step() <= s1,
{
    node.show.law_freeze_after_last(s1);
    node.show.law_freeze_after_last(s2);
    node.x.law_freeze_after_last(s1);
    node.x.law_freeze_after_last(s2);
    node.y.law_freeze_after_last(s1);
    node.y.law_freeze_after_last(s2);
    node.width.law_freeze_after_last(s1);
    node.width.law_freeze_after_last(s2);
    node.height.law_freeze_after_last(s1);
    node.height.law_freeze_after_last(s2);
    node.row.law_freeze_after_last(s1);
    node.row.law_freeze_after_last(s2);
    node.reverse.law_freeze_after_last(s1);
    node.reverse.law_freeze_after_last(s2);
    node.bg_color.law_freeze_after_last(s1);
    node.bg_color.law_freeze_after_last(s2);
    node.content.law_freeze_after_last(s1);
    node.content.law_freeze_after_last(s2);
    assert forall|name: Seq<char>| #[trigger] node.styles.lookup(name) is Some implies node.styles.lookup(
        name,
    )->Some_0.value_at(s2) == node.styles.lookup(name)->Some_0.value_at(s1) by {
        lemma_find_name(node.styles.entries@, name);
        lemma_styles_max_step(node.styles.entries@, 0);
        if let Some(i) = find_name(node.styles.entries@, name) {
            let style = node.styles.entries@[i].1;
            style.law_freeze_after_last(s1);
            style.law_freeze_after_last(s2);
        }
    }
    assert forall|i: int| 0 <= i < node.children@.len() implies (#[trigger] node.children@[i]).max_step()
        <= s1 by {
        Node::lemma_child_steps(node.children@, i);
    }
}

/// Past the last step of a subtree its sizes are measured as at the last step.
pub proof fn lemma_frozen_measured(node: Node, c1: LayoutContext, c2: LayoutContext)
    requires
        same_but_step(c1, c2),
        node.max_step() <= c1.step <= c2.step,
    ensures
        measured(node, c2) == measured(node, c1),
    decreases node,
{
    lemma_frozen_node(node, c1.step, c2.step);
    lemma_frozen_measured_children(node.children@, c1, c2, node.row.value_at(c1.step));
}

/// Past the last step of all of them, children are measured as at that step.
pub proof fn lemma_frozen_measured_children(
    kids: Seq<Node>,
    c1: LayoutContext,
    c2: LayoutContext,
    row: bool,
)
    requires
        same_but_step(c1, c2),
        c1.step <= c2.step,
        forall|i: int| 0 <= i < kids.len() ==> (#[trigger] kids[i]).max_step() <= c1.step,
    ensures
        measured_children(kids, c2, row) == measured_children(kids, c1, row),
    decreases kids,
{
    if kids.len() > 0 {
        assert forall|i: int| 0 <= i < kids.drop_last().len() implies (
        #[trigger] kids.drop_last()[i]).max_step() <= c1.step by {
            assert(kids.drop_last()[i] == kids[i]);
        }
        lemma_frozen_measured_children(kids.drop_last(), c1, c2, row);
        assert(kids[kids.len() - 1].max_step() <= c1.step);
        lemma_frozen_measured(kids.last(), c1, c2);
    }
}

/// Past the last step of a node its children get the rectangles of the last
/// step.
pub proof fn lemma_frozen_geometry(
    node: Node,
    rect: Geometry,
    c1: LayoutContext,
    c2: LayoutContext,
    k: int,
)
    requires
        same_but_step(c1, c2),
        node.max_step() <= c1.step <= c2.step,
        0 <= k < node.children@.len(),
    ensures
        layout_index(node, c2.step, k) == layout_index(node, c1.step, k),
        cursor_at(node, rect, c2, k) == cursor_at(node, rect, c1, k),
        child_geometry_at(node, rect, c2, k) == child_geometry_at(node, rect, c1, k),
    decreases k,
{
    lemma_frozen_node(node, c1.step, c2.step);
    let child = node.children@[layout_index(node, c1.step, k)];
    lemma_frozen_node(child, c1.step, c2.step);
    lemma_frozen_measured(child, c1, c2);
    if k > 0 {
        lemma_frozen_geometry(node, rect, c1, c2, k - 1);
    }
}

/// Past the last step of a subtree it is placed as at the last step.
pub proof fn lemma_frozen_placed(
    node: Node,
    rect: Geometry,
    c1: LayoutContext,
    c2: LayoutContext,
    map: Map<u32, Geometry>,
)
    requires
        same_but_step(c1, c2),
        node.max_step() <= c1.step <= c2.step,
    ensures
        placed(node, rect, c2, map) == placed(node, rect, c1, map),
        place_failure(node, rect, c2) == place_failure(node, rect, c1),
    decreases node, node.children@.len() + 1,
{
    lemma_frozen_placed_children(
        node,
        rect,
        c1,
        c2,
        node.children@.len() as int,
        map.insert(node.node_id.0, rect),
    );
}

/// Past the last step of a node its first `k` children are placed as at the
/// last step.
pub proof fn lemma_frozen_placed_children(
    node: Node,
    rect: Geometry,
    c1: LayoutContext,
    c2: LayoutContext,
    k: int,
    map: Map<u32, Geometry>,
)
    requires
        same_but_step(c1, c2),
        node.max_step() <= c1.step <= c2.step,
        0 <= k <= node.children@.len(),
    ensures
        placed_children(node, rect, c2, k, map) == placed_children(node, rect, c1, k, map),
        children_failure(node, rect, c2, k) == children_failure(node, rect, c1, k),
    decreases node, k,
{
    if k > 0 {
        lemma_frozen_node(node, c1.step, c2.step);
        lemma_frozen_placed_children(node, rect, c1, c2, k - 1, map);
        lemma_frozen_geometry(node, rect, c1, c2, k - 1);
        let child = node.children@[layout_index(node, c1.step, k - 1)];
        lemma_frozen_placed(
            child,
            child_geometry_at(node, rect, c1, k - 1),
            c1,
            c2,
            placed_children(node, rect, c1, k - 1, map),
        );
    }
}

/// Past the last step of a subtree it is drawn as at the last step.
pub proof fn lemma_frozen_scene(
    node: Node,
    layout: Map<u32, Rectangle>,
    default: TextStyle,
    s1: Step,
    s2: Step,
)
    requires
        node.max_step() <= s1 <= s2,
    ensures
        scene(node, layout, default, s2) == scene(node, layout, default, s1),
        scene_failure(node, layout, default, s2) == scene_failure(node, layout, default, s1),
    decreases node, node.children@.len() + 1,
{
    lemma_frozen_node(node, s1, s2);
    lemma_frozen_children_scene(node, layout, default, s1, s2, node.children@.len() as int);
}

/// Past the last step of a node its first `k` children are drawn as at the
/// last step.
pub proof fn lemma_frozen_children_scene(
    node: Node,
    layout: Map<u32, Rectangle>,
    default: TextStyle,
    s1: Step,
    s2: Step,
    k: int,
)
    requires
        node.max_step() <= s1 <= s2,
        0 <= k <= node.children@.len(),
    ensures
        children_scene(node, layout, default, s2, k) == children_scene(node, layout, default, s1, k),
        children_scene_failure(node, layout, default, s2, k) == children_scene_failure(
            node,
            layout,
            default,
            s1,
            k,
        ),
    decreases node, k,
{
    if k > 0 {
        lemma_frozen_node(node, s1, s2);
        lemma_frozen_children_scene(node, layout, default, s1, s2, k - 1);
        lemma_frozen_scene(node.children@[layout_index(node, s1, k - 1)], layout, default, s1, s2);
    }
}

impl<'a> RenderConfig<'a> {
    /// Freeze at the last state: a slide whose steps cover its tree renders,
    /// at every step past its last one, as it renders at the last step; it
    /// fails there exactly where it fails at the last step, and gives the
    /// same primitives.
    pub proof fn law_last_state_repeats(self, later: RenderConfig<'a>)
        requires
            self.slide.steps_cover(),
            self.slide.n_steps <= self.step <= later.step,
            later.resources == self.resources,
            later.default_style == self.default_style,
            later.slide == self.slide,
        ensures
            later.failure() == self.failure(),
            later.primitives() == self.primitives(),
    {
        let root = self.slide.node;
        let c1 = self.layout_context();
        let c2 = later.layout_context();
        let rect = root_geometry(root, self.slide.width, self.slide.height, self.step);
        lemma_frozen_node(root, self.step, later.step);
        lemma_frozen_measured(root, c1, c2);
        lemma_frozen_placed(root, rect, c1, c2, Map::empty());
        lemma_frozen_scene(
            root,
            crate::layout::rectangles(
                crate::layout::layout_of(root, self.slide.width, self.slide.height, c1),
            ),
            *self.default_style,
            self.step,
            later.step,
        );
    }
}

} // verus!
