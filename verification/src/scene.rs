//! From a laid-out node tree to the flat sequence of draw primitives.
//!
//! The tree is walked depth first, a node before its children, the children in
//! layout order. What is emitted later is painted on top.

use crate::color::Color;
use crate::error::{RenderError, RenderErrorKind};
use crate::geometry::Rectangle;
use crate::layout::{layout_index, ComputedLayout};
use crate::node::{Node, NodeContent};
use crate::stepvalue::Step;
use crate::textstyle::{resolve_style, StyleMap, TextStyle};
use vstd::prelude::*;
use vstd::string::*;

verus! {

/// `longer` starts with `shorter`.
pub open spec fn starts_with<T>(longer: Seq<T>, shorter: Seq<T>) -> bool {
    shorter.len() <= longer.len() && longer.take(shorter.len() as int) == shorter
}

/// One thing to draw. A primitive stands for itself: it holds no reference to
/// the node it came from nor to other primitives.
#[derive(Debug, Clone, PartialEq, Eq)]
pub enum DrawPrimitive {
    /// A rectangle filled with one color.
    Rect { rect: Rectangle, color: Color },
    /// One line of a text. `(x, y)` is where the text block starts, `line`
    /// counts the lines of the block from 0.
    Text { x: i64, y: i64, line: usize, text: String, style: TextStyle },
    /// The image loaded from `path`, drawn into `rect`.
    Image { rect: Rectangle, path: String },
}

/// The background of a node: one filled rectangle where a color is set.
pub open spec fn background(color: Option<Color>, rect: Rectangle) -> Seq<DrawPrimitive> {
    match color {
        Some(color) => seq![DrawPrimitive::Rect { rect, color }],
        None => Seq::empty(),
    }
}

/// The first `n` lines of a text block that starts at `(x, y)`, one primitive
/// for each line.
pub open spec fn text_runs(lines: Seq<String>, style: TextStyle, x: i64, y: i64, n: int) -> Seq<
    DrawPrimitive,
>
    decreases n,
{
    if n <= 0 {
        Seq::empty()
    } else {
        text_runs(lines, style, x, y, n - 1).push(
            DrawPrimitive::Text { x, y, line: (n - 1) as usize, text: lines[n - 1], style },
        )
    }
}

/// What the content of a node draws. `styles` is the node's scope.
pub open spec fn content_primitives(
    content: Option<NodeContent>,
    rect: Rectangle,
    styles: StyleMap,
    default: TextStyle,
    step: Step,
) -> Seq<DrawPrimitive> {
    match content {
        None => Seq::empty(),
        Some(NodeContent::Image(image)) => seq![DrawPrimitive::Image { rect, path: image.filename }],
        Some(NodeContent::Text(text)) => match styles.resolved(default, text.style@, step) {
            Some(style) => text_runs(text.lines@, style, rect.x, rect.y, text.lines@.len() as int),
            None => Seq::empty(),
        },
    }
}

/// What a visible node draws by itself, before its children: its background,
/// then its content.
pub open spec fn own_primitives(
    node: Node,
    rect: Rectangle,
    default: TextStyle,
    step: Step,
) -> Seq<DrawPrimitive> {
    background(node.bg_color.value_at(step), rect) + content_primitives(
        node.content.value_at(step),
        rect,
        node.styles,
        default,
        step,
    )
}

/// The primitives of the subtree under `node` at `step`, in paint order:
/// nothing where the node is not shown; else what the node draws by itself,
/// then its children's primitives, child by child in layout order.
pub open spec fn scene(
    node: Node,
    layout: Map<u32, Rectangle>,
    default: TextStyle,
    step: Step,
) -> Seq<DrawPrimitive>
    decreases node, node.children@.len() + 1,
{
    if !node.show.value_at(step) {
        Seq::empty()
    } else {
        own_primitives(node, layout[node.node_id.0], default, step) + children_scene(
            node,
            layout,
            default,
            step,
            node.children@.len() as int,
        )
    }
}

/// The primitives of the first `k` children of `node`, in layout order.
pub open spec fn children_scene(
    node: Node,
    layout: Map<u32, Rectangle>,
    default: TextStyle,
    step: Step,
    k: int,
) -> Seq<DrawPrimitive>
    decreases node, k,
{
    if k <= 0 || k > node.children@.len() {
        Seq::empty()
    } else {
        children_scene(node, layout, default, step, k - 1) + scene(
            node.children@[layout_index(node, step, k - 1)],
            layout,
            default,
            step,
        )
    }
}

/// Why the subtree under `node` cannot be drawn, if it cannot: the first node
/// in paint order that is shown and has no place in the layout, or whose text
/// names an unknown style. What lies under a node that is not shown is not
/// looked at.
pub open spec fn scene_failure(
    node: Node,
    layout: Map<u32, Rectangle>,
    default: TextStyle,
    step: Step,
) -> Option<RenderError>
    decreases node, node.children@.len() + 1,
{
    if !node.show.value_at(step) {
        None
    } else if !layout.contains_key(node.node_id.0) {
        Some(RenderError { kind: RenderErrorKind::MissingLayout, node_id: node.node_id })
    } else if node.content.value_at(step) matches Some(NodeContent::Text(text))
        && !node.styles.knows(text.style@) {
        Some(RenderError { kind: RenderErrorKind::UnknownStyle, node_id: node.node_id })
    } else {
        children_scene_failure(node, layout, default, step, node.children@.len() as int)
    }
}

/// The first failure among the first `k` children of `node`, in layout order.
pub open spec fn children_scene_failure(
    node: Node,
    layout: Map<u32, Rectangle>,
    default: TextStyle,
    step: Step,
    k: int,
) -> Option<RenderError>
    decreases node, k,
{
    if k <= 0 || k > node.children@.len() {
        None
    } else {
        match children_scene_failure(node, layout, default, step, k - 1) {
            Some(e) => Some(e),
            None => scene_failure(
                node.children@[layout_index(node, step, k - 1)],
                layout,
                default,
                step,
            ),
        }
    }
}

/// A failure among the first children is the failure of all of them.
pub proof fn lemma_scene_failure_stays(
    node: Node,
    layout: Map<u32, Rectangle>,
    default: TextStyle,
    step: Step,
    k: int,
    n: int,
)
    requires
        0 <= k <= n <= node.children@.len(),
        children_scene_failure(node, layout, default, step, k) is Some,
    ensures
        children_scene_failure(node, layout, default, step, n) == children_scene_failure(
            node,
            layout,
            default,
            step,
            k,
        ),
    decreases n - k,
{
    if k < n {
        lemma_scene_failure_stays(node, layout, default, step, k, n - 1);
    }
}

/// Visibility pruning: a node that is not shown at a step contributes no
/// primitive at that step, and neither does any of its descendants, whatever
/// their own visibility says.
pub proof fn law_invisible_subtree_draws_nothing(
    node: Node,
    layout: Map<u32, Rectangle>,
    default: TextStyle,
    step: Step,
)
    requires
        !node.show.value_at(step),
    ensures
        scene(node, layout, default, step) == Seq::<DrawPrimitive>::empty(),
        scene_failure(node, layout, default, step) is None,
{
}

/// Paint order: a node that is shown comes before its children, and child
/// number `k` in layout order comes right after the `k` children before it.
pub proof fn law_paint_order(
    node: Node,
    layout: Map<u32, Rectangle>,
    default: TextStyle,
    step: Step,
    k: int,
)
    requires
        node.show.value_at(step),
        0 <= k < node.children@.len(),
    ensures
        scene(node, layout, default, step) == own_primitives(
            node,
            layout[node.node_id.0],
            default,
            step,
        ) + children_scene(node, layout, default, step, node.children@.len() as int),
        children_scene(node, layout, default, step, k + 1) == children_scene(
            node,
            layout,
            default,
            step,
            k,
        ) + scene(
            node.children@[layout_index(node, step, k)],
            layout,
            default,
            step,
        ),
        !node.reverse.value_at(step) ==> layout_index(node, step, k) == k,
        node.reverse.value_at(step) ==> layout_index(node, step, k) == node.children@.len() - 1
            - k,
{
}

/// Paint order of three children: the node's own primitives, then the first
/// child's, the second's and the third's; where the node is reversed at that
/// step, the third's, the second's and the first's.
pub proof fn law_paint_order_of_three(
    node: Node,
    layout: Map<u32, Rectangle>,
    default: TextStyle,
    step: Step,
)
    requires
        node.show.value_at(step),
        node.children@.len() == 3,
    ensures
        ({
            let own = own_primitives(node, layout[node.node_id.0], default, step);
            let c1 = scene(node.children@[0], layout, default, step);
            let c2 = scene(node.children@[1], layout, default, step);
            let c3 = scene(node.children@[2], layout, default, step);
            scene(node, layout, default, step) == if node.reverse.value_at(step) {
                own + c3 + c2 + c1
            } else {
                own + c1 + c2 + c3
            }
        }),
{
    let own = own_primitives(node, layout[node.node_id.0], default, step);
    let k0 = children_scene(node, layout, default, step, 0);
    let k1 = children_scene(node, layout, default, step, 1);
    let k2 = children_scene(node, layout, default, step, 2);
    let k3 = children_scene(node, layout, default, step, 3);
    let a = scene(node.children@[layout_index(node, step, 0)], layout, default, step);
    let b = scene(node.children@[layout_index(node, step, 1)], layout, default, step);
    let c = scene(node.children@[layout_index(node, step, 2)], layout, default, step);
    assert(k0 == Seq::<DrawPrimitive>::empty());
    assert(k1 == k0 + a);
    assert(k2 == k1 + b);
    assert(k3 == k2 + c);
    assert(own + k3 =~= own + a + b + c);
}

/// What a render of one slide at one step works with: the step, the layout,
/// and the primitives emitted so far.
#[derive(Debug)]
pub struct RenderContext {
    pub step: Step,
    pub z_level: i32,
    pub layout: ComputedLayout,
    pub primitives: Vec<DrawPrimitive>,
}

impl RenderContext {
    /// A context for `step` in which nothing has been drawn yet.
    pub fn new(step: Step, z_level: i32, layout: ComputedLayout) -> (r: Self)
        ensures
            r.step == step,
            r.z_level == z_level,
            r.layout == layout,
            r.primitives@ == Seq::<DrawPrimitive>::empty(),
    {
        RenderContext { step, z_level, layout, primitives: Vec::new() }
    }

    /// Emits the lines of a text block, one primitive each.
    fn render_text(&mut self, lines: &Vec<String>, style: &TextStyle, x: i64, y: i64)
        ensures
            final(self).step == old(self).step,
            final(self).z_level == old(self).z_level,
            final(self).layout == old(self).layout,
            final(self).primitives@ == old(self).primitives@ + text_runs(
                lines@,
                *style,
                x,
                y,
                lines@.len() as int,
            ),
    {
        let mut i: usize = 0;
        while i < lines.len()
            invariant
                i <= lines.len(),
                self.step == old(self).step,
                self.z_level == old(self).z_level,
                self.layout == old(self).layout,
                self.primitives@ == old(self).primitives@ + text_runs(lines@, *style, x, y, i as int),
            decreases lines.len() - i,
        {
            let run = DrawPrimitive::Text {
                x,
                y,
                line: i,
                text: lines[i].clone(),
                style: style.duplicate(),
            };
            self.primitives.push(run);
            proof {
                assert(self.primitives@ =~= old(self).primitives@ + text_runs(
                    lines@,
                    *style,
                    x,
                    y,
                    i + 1,
                ));
            }
            i += 1;
        }
    }

    /// Emits the primitives of the subtree under `node`, in paint order, after
    /// those emitted so far.
    pub fn render_helper(&mut self, node: &Node, default: &TextStyle) -> (r:
        Result<(), RenderError>)
        ensures
            final(self).step == old(self).step,
            final(self).z_level == old(self).z_level,
            final(self).layout == old(self).layout,
            starts_with(final(self).primitives@, old(self).primitives@),
            match r {
                Ok(()) => scene_failure(
                    *node,
                    old(self).layout.rects@,
                    *default,
                    old(self).step,
                ) is None && final(self).primitives@ == old(self).primitives@ + scene(
                    *node,
                    old(self).layout.rects@,
                    *default,
                    old(self).step,
                ),
                Err(e) => scene_failure(
                    *node,
                    old(self).layout.rects@,
                    *default,
                    old(self).step,
                ) == Some(e),
            },
        decreases node,
    {
        let step = self.step;
        if !*node.show.at_step(step) {
            proof {
                assert(self.primitives@ =~= old(self).primitives@ + Seq::<DrawPrimitive>::empty());
                assert(self.primitives@.take(self.primitives@.len() as int) =~= self.primitives@);
            }
            return Ok(());
        }
        let rect = match self.layout.rect(node.node_id) {
            Some(rect) => rect,
            None => {
                proof {
                    assert(self.primitives@.take(self.primitives@.len() as int)
                        =~= self.primitives@);
                }
                return Err(
                    RenderError { kind: RenderErrorKind::MissingLayout, node_id: node.node_id },
                );
            },
        };
        let ghost layout = old(self).layout.rects@;
        let ghost before = old(self).primitives@;
        if let Some(color) = node.bg_color.at_step(step) {
            self.primitives.push(DrawPrimitive::Rect { rect, color: *color });
        }
        proof {
            assert(self.primitives@ =~= before + background(node.bg_color.value_at(step), rect));
        }
        match node.content.at_step(step) {
            Some(NodeContent::Text(text)) => {
                let style = match resolve_style(&node.styles, default, &text.style, step) {
                    Some(style) => style,
                    None => {
                        proof {
                            assert(self.primitives@.take(before.len() as int) =~= before);
                        }
                        return Err(
                            RenderError {
                                kind: RenderErrorKind::UnknownStyle,
                                node_id: node.node_id,
                            },
                        );
                    },
                };
                self.render_text(&text.lines, &style, rect.x, rect.y);
            },
            Some(NodeContent::Image(image)) => {
                self.primitives.push(DrawPrimitive::Image { rect, path: image.filename.clone() });
            },
            None => {},
        }
        proof {
            assert(self.primitives@ =~= before + own_primitives(
                *node,
                rect,
                *default,
                step,
            ));
        }
        let reverse = *node.reverse.at_step(step);
        let n = node.children.len();
        let mut k: usize = 0;
        while k < n
            invariant
                k <= n,
                n == node.children@.len(),
                reverse == node.reverse.value_at(step),
                node.show.value_at(step),
                layout.contains_key(node.node_id.0),
                rect == layout[node.node_id.0],
                !(node.content.value_at(step) matches Some(NodeContent::Text(text))
                    && !node.styles.knows(text.style@)),
                self.step == step,
                step == old(self).step,
                self.z_level == old(self).z_level,
                self.layout == old(self).layout,
                layout == old(self).layout.rects@,
                before == old(self).primitives@,
                children_scene_failure(*node, layout, *default, step, k as int) is None,
                self.primitives@ == before + own_primitives(*node, rect, *default, step)
                    + children_scene(*node, layout, *default, step, k as int),
            decreases n - k,
        {
            let index = if reverse {
                n - 1 - k
            } else {
                k
            };
            assert(index == layout_index(*node, step, k as int));
            let ghost so_far = self.primitives@;
            match self.render_helper(&node.children[index], default) {
                Ok(()) => {
                    proof {
                        assert(self.primitives@ =~= before + own_primitives(
                            *node,
                            rect,
                            *default,
                            step,
                        ) + children_scene(*node, layout, *default, step, k + 1));
                    }
                },
                Err(e) => {
                    proof {
                        lemma_scene_failure_stays(
                            *node,
                            layout,
                            *default,
                            step,
                            k + 1,
                            n as int,
                        );
                        assert(so_far.take(before.len() as int) =~= before);
                        assert(self.primitives@.take(before.len() as int) =~= self.primitives@.take(
                            so_far.len() as int,
                        ).take(before.len() as int));
                    }
                    return Err(e);
                },
            }
            k += 1;
        }
        proof {
            assert(self.primitives@ =~= before + scene(*node, layout, *default, step));
            assert(self.primitives@.take(before.len() as int) =~= before);
        }
        Ok(())
    }

    /// Draws the subtree under `node` and hands out all primitives of the
    /// context, in paint order.
    pub fn render_to_svg(self, node: &Node, default: &TextStyle) -> (r: Result<
        Vec<DrawPrimitive>,
        RenderError,
    >)
        ensures
            match r {
                Ok(primitives) => scene_failure(
                    *node,
                    self.layout.rects@,
                    *default,
                    self.step,
                ) is None && primitives@ == self.primitives@ + scene(
                    *node,
                    self.layout.rects@,
                    *default,
                    self.step,
                ),
                Err(e) => scene_failure(*node, self.layout.rects@, *default, self.step)
                    == Some(e),
            },
    {
        let mut ctx = self;
        match ctx.render_helper(node, default) {
            Ok(()) => Ok(ctx.primitives),
            Err(e) => Err(e),
        }
    }
}

} // verus!
