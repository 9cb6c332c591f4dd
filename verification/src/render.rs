//! Scenes: what one slide shows at one step, and the scenes of a whole deck.

use crate::color::Color;
use crate::error::{decimal, decimal_text, render_error_message, RenderError};
use crate::geometry::Rectangle;
use crate::layout::{
    content_size_spec, layout_failure, layout_index, layout_of, lemma_each_child_measured,
    lemma_placed_covers, lemma_rectangles_of_layout, measured, rectangles, LayoutContext,
};
use crate::node::{Node, NodeContent};
use crate::resources::Resources;
use crate::scene::{
    children_scene_failure, scene, scene_failure, DrawPrimitive, RenderContext,
};
use crate::slide::{Slide, SlideDeck};
use crate::stepvalue::Step;
use crate::textstyle::TextStyle;
use vstd::prelude::*;
use vstd::string::*;

verus! {

/// What one slide shows at one step: the canvas and the primitives to draw on
/// it, in paint order. A scene is complete by itself.
#[derive(Debug, Clone, PartialEq, Eq)]
pub struct Scene {
    pub step: Step,
    pub width: u32,
    pub height: u32,
    pub bg_color: Color,
    pub primitives: Vec<DrawPrimitive>,
}

/// What a render of one slide at one step reads.
pub struct RenderConfig<'a> {
    pub resources: &'a Resources,
    pub default_style: &'a TextStyle,
    pub slide: &'a Slide,
    pub step: Step,
}

/// A failure of a render, with the slide and the step at which it arose.
#[derive(Debug, Clone, Copy, PartialEq, Eq)]
pub struct FrameError {
    pub slide: usize,
    pub step: Step,
    pub error: RenderError,
}

/// What is said of a failure of a render: its kind, and the slide, the step
/// and the node at which it arose.
pub open spec fn frame_error_message(e: FrameError) -> Seq<char> {
    render_error_message(e.error.kind) + " (slide "@ + decimal_text(e.slide as nat) + ", step "@
        + decimal_text(e.step as nat) + ", node "@ + decimal_text(e.error.node_id.0 as nat) + ")"@
}

impl FrameError {
    /// What is said of the failure.
    pub fn message(&self) -> (r: String)
        ensures
            r@ == frame_error_message(*self),
    {
        let mut text = String::from_str(self.error.kind.message());
        text.append(" (slide ");
        text.append(decimal(self.slide as u64).as_str());
        text.append(", step ");
        text.append(decimal(self.step as u64).as_str());
        text.append(", node ");
        text.append(decimal(self.error.node_id.as_u32() as u64).as_str());
        text.append(")");
        text
    }
}

impl<'a> RenderConfig<'a> {
    /// The layout context of the render.
    pub open spec fn layout_context(self) -> LayoutContext<'a> {
        LayoutContext {
            resources: self.resources,
            default_style: self.default_style,
            step: self.step,
        }
    }

    /// Why the slide cannot be rendered at the step, if it cannot: the first
    /// failure of the layout, else the first failure of drawing.
    pub open spec fn failure(self) -> Option<RenderError> {
        match layout_failure(
            self.slide.node,
            self.slide.width,
            self.slide.height,
            self.layout_context(),
        ) {
            Some(e) => Some(e),
            None => scene_failure(
                self.slide.node,
                rectangles(
                    layout_of(
                        self.slide.node,
                        self.slide.width,
                        self.slide.height,
                        self.layout_context(),
                    ),
                ),
                *self.default_style,
                self.step,
            ),
        }
    }

    /// The primitives of the slide at the step, in paint order.
    pub open spec fn primitives(self) -> Seq<DrawPrimitive> {
        scene(
            self.slide.node,
            rectangles(
                layout_of(
                    self.slide.node,
                    self.slide.width,
                    self.slide.height,
                    self.layout_context(),
                ),
            ),
            *self.default_style,
            self.step,
        )
    }

    /// `scene` is the scene of the slide at the step.
    pub open spec fn is_scene(self, scene: Scene) -> bool {
        &&& scene.step == self.step
        &&& scene.width == self.slide.width
        &&& scene.height == self.slide.height
        &&& scene.bg_color == self.slide.bg_color
        &&& scene.primitives@ == self.primitives()
    }
}

/// A subtree that was measured, and whose nodes all have a place in the
/// layout, can be drawn.
pub proof fn lemma_measured_subtree_draws(
    node: Node,
    layout: Map<u32, Rectangle>,
    ctx: LayoutContext,
)
    requires
        measured(node, ctx) is Ok,
        forall|id: u32| #[trigger] node.has_id(id) ==> layout.contains_key(id),
    ensures
        scene_failure(node, layout, *ctx.default_style, ctx.step) is None,
    decreases node, node.children@.len() + 1,
{
    assert(node.has_id(node.node_id.0));
    if let Some(NodeContent::Text(text)) = node.content.value_at(ctx.step) {
        assert(content_size_spec(node.content.value_at(ctx.step), node.styles, ctx) is Ok);
    }
    lemma_measured_children_draw(node, layout, ctx, node.children@.len() as int);
}

/// The first `k` children of a subtree that was measured, and whose nodes all
/// have a place in the layout, can be drawn.
pub proof fn lemma_measured_children_draw(
    node: Node,
    layout: Map<u32, Rectangle>,
    ctx: LayoutContext,
    k: int,
)
    requires
        0 <= k <= node.children@.len(),
        measured(node, ctx) is Ok,
        forall|id: u32| #[trigger] node.has_id(id) ==> layout.contains_key(id),
    ensures
        children_scene_failure(node, layout, *ctx.default_style, ctx.step, k) is None,
    decreases node, k,
{
    if k > 0 {
        let index = layout_index(node, ctx.step, k - 1);
        let child = node.children@[index];
        lemma_measured_children_draw(node, layout, ctx, k - 1);
        lemma_each_child_measured(
            node.children@,
            ctx,
            node.row.value_at(ctx.step),
            index,
        );
        assert forall|id: u32| #[trigger] child.has_id(id) implies layout.contains_key(id) by {
            Node::lemma_child_id(node.children@, index, id);
            assert(node.has_id(id));
        }
        lemma_measured_subtree_draws(child, layout, ctx);
    }
}

impl<'a> RenderConfig<'a> {
    /// Drawing follows the layout: a slide that can be laid out at a step can
    /// be drawn at that step, so that a render fails exactly where the layout
    /// fails, and with the failure of the layout.
    pub proof fn law_drawing_follows_layout(self)
        ensures
            self.failure() == layout_failure(
                self.slide.node,
                self.slide.width,
                self.slide.height,
                self.layout_context(),
            ),
    {
        let ctx = self.layout_context();
        if layout_failure(self.slide.node, self.slide.width, self.slide.height, ctx) is None {
            let layout = layout_of(self.slide.node, self.slide.width, self.slide.height, ctx);
            lemma_placed_covers(
                self.slide.node,
                crate::layout::root_geometry(
                    self.slide.node,
                    self.slide.width,
                    self.slide.height,
                    ctx.step,
                ),
                ctx,
                Map::empty(),
            );
            assert forall|id: u32| #[trigger] self.slide.node.has_id(id) implies rectangles(
                layout,
            ).contains_key(id) by {
                assert(layout.contains_key(id));
            }
            lemma_measured_subtree_draws(self.slide.node, rectangles(layout), ctx);
        }
    }
}

/// Renders one slide at one step: lays the tree out, then draws it.
pub fn render_to_svg_tree(render_cfg: &RenderConfig) -> (r: Result<Scene, RenderError>)
    ensures
        match r {
            Ok(scene) => render_cfg.failure() is None && render_cfg.is_scene(scene),
            Err(e) => render_cfg.failure() == Some(e),
        },
{
    let layout_builder = LayoutContext::new(
        render_cfg.resources,
        render_cfg.default_style,
        render_cfg.step,
    );
    let layout = match layout_builder.compute_layout(
        &render_cfg.slide.node,
        render_cfg.slide.width,
        render_cfg.slide.height,
    ) {
        Ok(layout) => layout,
        Err(e) => {
            return Err(e);
        },
    };
    proof {
        lemma_rectangles_of_layout(layout);
    }
    let render_ctx = RenderContext::new(render_cfg.step, 0, layout);
    match render_ctx.render_to_svg(&render_cfg.slide.node, render_cfg.default_style) {
        Ok(primitives) => {
            proof {
                assert(primitives@ =~= render_cfg.primitives());
            }
            Ok(
                Scene {
                    step: render_cfg.step,
                    width: render_cfg.slide.width,
                    height: render_cfg.slide.height,
                    bg_color: render_cfg.slide.bg_color,
                    primitives,
                },
            )
        },
        Err(e) => Err(e),
    }
}

/// What a render of slide number `slide` of `deck` at `step` reads.
pub open spec fn frame_config<'a>(
    deck: &'a SlideDeck,
    resources: &'a Resources,
    slide: int,
    step: Step,
) -> RenderConfig<'a> {
    RenderConfig {
        resources,
        default_style: &deck.default_style,
        slide: &deck.slides@[slide],
        step,
    }
}

/// `scenes` are the scenes of slide number `slide`, one for each of its steps,
/// in the order of the steps.
pub open spec fn are_slide_scenes(
    scenes: Seq<Scene>,
    deck: &SlideDeck,
    resources: &Resources,
    slide: int,
) -> bool {
    &&& scenes.len() == deck.slides@[slide].n_steps + 1
    &&& forall|s: int|
        0 <= s < scenes.len() ==> frame_config(deck, resources, slide, s as Step).is_scene(
            #[trigger] scenes[s],
        )
}

/// Slide number `slide` can be rendered at each of its steps.
pub open spec fn slide_renders(deck: &SlideDeck, resources: &Resources, slide: int) -> bool {
    forall|s: Step|
        s <= deck.slides@[slide].n_steps ==> (#[trigger] frame_config(
            deck,
            resources,
            slide,
            s,
        )).failure() is None
}

/// `e` is the first failure of the slide: the failure at step `e.step`, no
/// step before which fails.
pub open spec fn is_first_failure(
    e: FrameError,
    deck: &SlideDeck,
    resources: &Resources,
    slide: int,
) -> bool {
    &&& e.slide == slide
    &&& e.step <= deck.slides@[slide].n_steps
    &&& frame_config(deck, resources, slide, e.step).failure() == Some(e.error)
    &&& forall|s: Step|
        s < e.step ==> (#[trigger] frame_config(deck, resources, slide, s)).failure() is None
}

/// Renders slide number `slide` at each of its steps, from step 0 to the
/// slide's last step, and stops at the first step that fails.
pub fn render_slide(deck: &SlideDeck, resources: &Resources, slide: usize) -> (r: Result<
    Vec<Scene>,
    FrameError,
>)
    requires
        slide < deck.slides@.len(),
    ensures
        match r {
            Ok(scenes) => slide_renders(deck, resources, slide as int) && are_slide_scenes(
                scenes@,
                deck,
                resources,
                slide as int,
            ),
            Err(e) => is_first_failure(e, deck, resources, slide as int),
        },
{
    let n_steps = deck.slides[slide].n_steps;
    let mut scenes: Vec<Scene> = Vec::new();
    let mut step: Step = 0;
    loop
        invariant_except_break
            scenes@.len() == step,
            forall|s: Step|
                s < step ==> (#[trigger] frame_config(deck, resources, slide as int, s)).failure()
                    is None,
            forall|s: int|
                0 <= s < scenes@.len() ==> frame_config(
                    deck,
                    resources,
                    slide as int,
                    s as Step,
                ).is_scene(#[trigger] scenes@[s]),
        invariant
            slide < deck.slides@.len(),
            n_steps == deck.slides@[slide as int].n_steps,
            step <= n_steps,
        ensures
            slide_renders(deck, resources, slide as int),
            are_slide_scenes(scenes@, deck, resources, slide as int),
        decreases n_steps - step,
    {
        let render_cfg = RenderConfig {
            resources,
                default_style: &deck.default_style,
            slide: &deck.slides[slide],
            step,
        };
        assert(render_cfg == frame_config(deck, resources, slide as int, step));
        match render_to_svg_tree(&render_cfg) {
            Ok(scene) => {
                scenes.push(scene);
            },
            Err(error) => {
                return Err(FrameError { slide, step, error });
            },
        }
        if step == n_steps {
            break ;
        }
        step = step + 1;
    }
    Ok(scenes)
}

/// `all` holds, slide by slide in the order of the deck, the scenes of each
/// slide in the order of its steps.
pub open spec fn are_deck_scenes(all: Seq<Vec<Scene>>, deck: &SlideDeck, resources: &Resources) -> bool {
    &&& all.len() == deck.slides@.len()
    &&& forall|i: int|
        0 <= i < all.len() ==> are_slide_scenes((#[trigger] all[i])@, deck, resources, i)
}

/// Renders every slide of the deck at each of its steps, in increasing order
/// of slide and step, and stops at the first that fails.
pub fn render_slide_deck(deck: &SlideDeck, resources: &Resources) -> (r: Result<
    Vec<Vec<Scene>>,
    FrameError,
>)
    ensures
        match r {
            Ok(all) => are_deck_scenes(all@, deck, resources) && forall|i: int|
                0 <= i < deck.slides@.len() ==> #[trigger] slide_renders(deck, resources, i),
            Err(e) => e.slide < deck.slides@.len() && is_first_failure(
                e,
                deck,
                resources,
                e.slide as int,
            ) && forall|i: int| 0 <= i < e.slide ==> #[trigger] slide_renders(deck, resources, i),
        },
{
    let mut all: Vec<Vec<Scene>> = Vec::new();
    let mut i: usize = 0;
    while i < deck.slides.len()
        invariant
            i <= deck.slides@.len(),
            all@.len() == i,
            forall|j: int| 0 <= j < i ==> #[trigger] slide_renders(deck, resources, j),
            forall|j: int|
                0 <= j < i ==> are_slide_scenes((#[trigger] all@[j])@, deck, resources, j),
        decreases deck.slides@.len() - i,
    {
        match render_slide(deck, resources, i) {
            Ok(scenes) => {
                all.push(scenes);
            },
            Err(e) => {
                return Err(e);
            },
        }
        i += 1;
    }
    Ok(all)
}

} // verus!
