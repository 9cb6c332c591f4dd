//! Building a deck box by box, and rendering it.

use crate::color::{invalid_color_message, parse_color, svg_color, Color};
use crate::error::NelsieError;
use crate::node::{later, later_step, LayoutExpr, Node, NodeContent, NodeId, Size};
use crate::render::{
    are_deck_scenes, frame_error_message, is_first_failure, render_slide_deck, slide_renders,
    FrameError, Scene,
};
use crate::resources::Resources;
use crate::slide::{Slide, SlideDeck};
use crate::stepvalue::{Step, StepValue};
use crate::textstyle::{is_merge_of, PartialTextStyle, StyleMap};
use vstd::prelude::*;
use vstd::string::*;

verus! {

/// Where a render is to be written: a path for each kind of output that is
/// wanted.
pub struct OutputConfig<'a> {
    pub output_pdf: Option<&'a str>,
    pub output_svg: Option<&'a str>,
    pub output_png: Option<&'a str>,
}

/// A slide is named by its index in the deck.
pub type SlideId = u32;

/// A box is named by the child indices that lead to it from the slide's root.
pub type BoxId = Vec<u32>;

/// The attributes of a box that is to be added.
#[derive(Debug)]
pub struct BoxConfig {
    pub show: StepValue<bool>,
    pub x: StepValue<Option<LayoutExpr>>,
    pub y: StepValue<Option<LayoutExpr>>,
    pub width: StepValue<Option<Size>>,
    pub height: StepValue<Option<Size>>,
    pub row: StepValue<bool>,
    pub reverse: StepValue<bool>,
    pub bg_color: StepValue<Option<Color>>,
    pub content: StepValue<Option<NodeContent>>,
}

impl BoxConfig {
    /// `node` is the childless node with the given id and these attributes.
    pub open spec fn describes(self, node: Node, node_id: NodeId) -> bool {
        &&& node.node_id == node_id
        &&& node.children@.len() == 0
        &&& node.show == self.show
        &&& node.x == self.x
        &&& node.y == self.y
        &&& node.width == self.width
        &&& node.height == self.height
        &&& node.row == self.row
        &&& node.reverse == self.reverse
        &&& node.bg_color == self.bg_color
        &&& node.content == self.content
    }

    /// The attributes of a blank box: no content and no background, a column,
    /// shown at every step, position and size left open.
    pub open spec fn is_blank(self) -> bool {
        &&& self.show == StepValue::Const(true)
        &&& self.x == StepValue::<Option<LayoutExpr>>::Const(None)
        &&& self.y == StepValue::<Option<LayoutExpr>>::Const(None)
        &&& self.width == StepValue::<Option<Size>>::Const(None)
        &&& self.height == StepValue::<Option<Size>>::Const(None)
        &&& self.row == StepValue::Const(false)
        &&& self.reverse == StepValue::Const(false)
        &&& self.bg_color == StepValue::<Option<Color>>::Const(None)
        &&& self.content == StepValue::<Option<NodeContent>>::Const(None)
    }

    /// The attributes of a blank box.
    pub fn blank() -> (r: Self)
        ensures
            r.is_blank(),
    {
        BoxConfig {
            show: StepValue::Const(true),
            x: StepValue::Const(None),
            y: StepValue::Const(None),
            width: StepValue::Const(None),
            height: StepValue::Const(None),
            row: StepValue::Const(false),
            reverse: StepValue::Const(false),
            bg_color: StepValue::Const(None),
            content: StepValue::Const(None),
        }
    }

    /// The node with these attributes and the scope `styles`, and the last
    /// step at which an attribute or a style of it changes.
    pub fn make_node(self, node_id: NodeId, styles: StyleMap) -> (r: (Node, Step))
        ensures
            self.describes(r.0, node_id),
            r.0.styles == styles,
            r.1 == r.0.max_step(),
    {
        let node = Node {
            node_id,
            children: Vec::new(),
            show: self.show,
            x: self.x,
            y: self.y,
            width: self.width,
            height: self.height,
            row: self.row,
            reverse: self.reverse,
            bg_color: self.bg_color,
            content: self.content,
            styles,
        };
        let n_steps = node.n_steps();
        (node, n_steps)
    }
}

/// The node at `box_id` under `node`, which is known to be there, to be
/// changed in place.
fn descend<'a>(node: &'a mut Node, box_id: &[u32]) -> (r: &'a mut Node)
    requires
        old(node).descendant(box_id@) is Some,
    ensures
        old(node).descendant(box_id@) == Some(*r),
        old(node).replaced_at(*final(node), box_id@, *final(r)),
    decreases box_id.len(),
{
    if box_id.len() == 0 {
        return node;
    }
    let index = box_id[0] as usize;
    let rest = vstd::slice::slice_subrange(box_id, 1, box_id.len());
    let child: &mut Node = &mut node.children[index];
    descend(child, rest)
}

/// The node at `box_id` under `node`, to be changed in place: what is done
/// to it is done to the tree, at that place and nowhere else. `None` where
/// the tree has no node there.
pub fn resolve_box_id<'a>(node: &'a mut Node, box_id: &[u32]) -> (r: Option<&'a mut Node>)
    ensures
        match r {
            Some(n) => old(node).descendant(box_id@) == Some(*n) && old(node).replaced_at(
                *final(node),
                box_id@,
                *final(n),
            ),
            None => old(node).descendant(box_id@) is None && *final(node) == *old(node),
        },
{
    if node.node_at(box_id).is_none() {
        return None;
    }
    Some(descend(node, box_id))
}

/// Said where a deck has no slide of the given id.
pub open spec fn invalid_slide_message() -> Seq<char> {
    "Invalid slide id"@
}

/// Said where a box id is missing, or where a box cannot be added under it.
pub open spec fn invalid_box_message() -> Seq<char> {
    "Invalid box id"@
}

/// Said where a slide has no box of the given id.
pub open spec fn invalid_node_message() -> Seq<char> {
    "Invalid node id"@
}

/// Said where a text names a style that its box does not know.
pub open spec fn unknown_style_message() -> Seq<char> {
    "Unknown style name"@
}

/// Said where the deck, a slide or a box cannot hold one more.
pub open spec fn too_many_message() -> Seq<char> {
    "Too many items"@
}

/// Said where a scope gives no style under `name`.
pub open spec fn style_not_found_message(name: Seq<char>) -> Seq<char> {
    "Style not found: "@ + name
}

/// A content that is a text names a style that `styles` knows.
pub open spec fn text_style_known(content: Option<NodeContent>, styles: StyleMap) -> bool {
    content matches Some(NodeContent::Text(text)) ==> styles.knows(text.style@)
}

/// Every text that the content holds at any step names a style that `styles`
/// knows.
pub open spec fn content_styles_known(
    content: StepValue<Option<NodeContent>>,
    styles: StyleMap,
) -> bool {
    &&& text_style_known(content.fallback(), styles)
    &&& forall|i: int|
        0 <= i < content.entries().len() ==> text_style_known(
            (#[trigger] content.entries()[i]).1,
            styles,
        )
}

/// Whether a content that is a text names a style of the scope.
fn check_text_style(content: &Option<NodeContent>, styles: &StyleMap) -> (r: bool)
    ensures
        r == text_style_known(*content, *styles),
{
    match content {
        Some(NodeContent::Text(text)) => styles.get_style(&text.style).is_some(),
        _ => true,
    }
}

/// Whether every text of a stepped content names a style of the scope.
fn check_content_styles(content: &StepValue<Option<NodeContent>>, styles: &StyleMap) -> (r: bool)
    ensures
        r == content_styles_known(*content, *styles),
{
    match content {
        StepValue::Const(value) => check_text_style(value, styles),
        StepValue::Steps { entries, fallback } => {
            if !check_text_style(fallback, styles) {
                return false;
            }
            let mut i: usize = 0;
            while i < entries.len()
                invariant
                    i <= entries.len(),
                    content.entries() == entries@,
                    text_style_known(content.fallback(), *styles),
                    forall|j: int|
                        0 <= j < i ==> text_style_known((#[trigger] entries@[j]).1, *styles),
                decreases entries.len() - i,
            {
                if !check_text_style(&entries[i].1, styles) {
                    proof {
                        assert(!text_style_known(content.entries()[i as int].1, *styles));
                    }
                    return false;
                }
                i += 1;
            }
            true
        },
    }
}

/// Why a slide cannot be added to the deck, if it cannot, once its background
/// is known to be a color.
pub open spec fn new_slide_problem(deck: SlideDeck) -> Option<Seq<char>> {
    if deck.slides@.len() > u32::MAX || deck.node_id_counter == u32::MAX {
        Some(too_many_message())
    } else {
        None
    }
}

/// Why a slide whose root has the attributes `config` cannot be added to the
/// deck, if it cannot, once its background is known to be a color; the checks
/// are made in this order.
pub open spec fn new_root_problem(deck: SlideDeck, config: BoxConfig) -> Option<Seq<char>> {
    if !content_styles_known(config.content, deck.global_styles) {
        Some(unknown_style_message())
    } else {
        new_slide_problem(deck)
    }
}

/// `slide` is a slide as it is made with a root of given attributes: of the
/// given size, name and background, with a childless root of the attributes
/// `config` and the id `root_id`, with a scope that is a snapshot of `scope`,
/// and with steps that reach as far as the steps of its root.
pub open spec fn is_slide_with_root(
    slide: Slide,
    width: u32,
    height: u32,
    name: String,
    bg_color: Color,
    config: BoxConfig,
    root_id: u32,
    scope: StyleMap,
) -> bool {
    &&& slide.width == width
    &&& slide.height == height
    &&& slide.name == name
    &&& slide.bg_color == bg_color
    &&& config.describes(slide.node, NodeId(root_id))
    &&& slide.node.styles.same_as(scope)
    &&& slide.n_steps == slide.node.max_step()
}

/// `slide` is a slide as it is made: of the given size, name and background,
/// with a blank root of the id `root_id`, and with a scope that is a snapshot
/// of `scope`.
pub open spec fn is_new_slide(
    slide: Slide,
    width: u32,
    height: u32,
    name: String,
    bg_color: Color,
    root_id: u32,
    scope: StyleMap,
) -> bool {
    &&& slide.width == width
    &&& slide.height == height
    &&& slide.name == name
    &&& slide.bg_color == bg_color
    &&& slide.node.node_id == NodeId(root_id)
    &&& slide.node.is_blank()
    &&& slide.node.styles.same_as(scope)
    &&& slide.n_steps == scope.max_step()
}

/// Why a box with the attributes `config` cannot be added under the box
/// `box_id` of the slide `slide_id`, if it cannot; the checks are made in this
/// order.
pub open spec fn new_box_problem(
    deck: SlideDeck,
    slide_id: SlideId,
    box_id: Seq<u32>,
    config: BoxConfig,
) -> Option<Seq<char>> {
    if slide_id >= deck.slides@.len() {
        Some(invalid_slide_message())
    } else {
        let slide = deck.slides@[slide_id as int];
        match slide.node.descendant(box_id) {
            None => Some(invalid_box_message()),
            Some(parent) => if !content_styles_known(config.content, parent.styles) {
                Some(unknown_style_message())
            } else if deck.node_id_counter == u32::MAX || parent.children@.len() >= u32::MAX {
                Some(too_many_message())
            } else {
                None
            },
        }
    }
}

/// `after` is `before` with one more box, of the attributes `config` and the
/// id `node_id`, as the last child of the box at `path`. The new box starts
/// from a snapshot of its parent's scope, and the slide's steps reach as far
/// as the steps of the new box.
pub open spec fn box_added(
    before: Slide,
    after: Slide,
    path: Seq<u32>,
    config: BoxConfig,
    node_id: u32,
) -> bool {
    &&& after.width == before.width
    &&& after.height == before.height
    &&& after.name == before.name
    &&& after.bg_color == before.bg_color
    &&& before.node.descendant(path) matches Some(parent)
    &&& after.node.descendant(path) matches Some(grown)
    &&& before.node.replaced_at(after.node, path, grown)
    &&& grown.same_attributes(parent)
    &&& grown.children@.len() == parent.children@.len() + 1
    &&& grown.children@.drop_last() == parent.children@
    &&& config.describes(grown.children@.last(), NodeId(node_id))
    &&& grown.children@.last().styles.same_as(parent.styles)
    &&& after.n_steps == later(before.n_steps, grown.children@.last().max_step())
}

/// `after` gives under `name` what `before` gave with `style` laid over it,
/// field by field and step by step, or `style` itself where `before` gave
/// nothing under the name; under every other name it gives what `before` gave.
pub open spec fn scope_updated(
    before: StyleMap,
    after: StyleMap,
    name: Seq<char>,
    style: StepValue<PartialTextStyle>,
) -> bool {
    &&& match before.lookup(name) {
        Some(below) => after.lookup(name) matches Some(merged) && is_merge_of(merged, below, style),
        None => after.lookup(name) == Some(style),
    }
    &&& forall|other: Seq<char>|
        other != name ==> #[trigger] after.lookup(other) == before.lookup(other)
}

/// Inheritance merges: a box that starts from a snapshot of its parent's
/// scope and is then given `over` under a name that the parent knows sees, at
/// every step, the parent's style with `over` laid on top, so that the
/// fields which `over` leaves open are inherited.
pub proof fn law_inherited_fields_are_kept(
    parent: StyleMap,
    snapshot: StyleMap,
    updated: StyleMap,
    name: Seq<char>,
    over: StepValue<PartialTextStyle>,
    step: Step,
)
    requires
        snapshot.same_as(parent),
        parent.lookup(name) is Some,
        scope_updated(snapshot, updated, name, over),
    ensures
        updated.lookup(name) matches Some(merged) && merged.value_at(step) == parent.lookup(
            name,
        )->Some_0.value_at(step).overlay(over.value_at(step)),
{
    crate::textstyle::lemma_same_styles(snapshot.entries@, parent.entries@, name);
}

/// `after` is `before` with `style` laid over what the scope of the box at
/// `path` gave under `name`. No other box changes, and the slide's steps reach
/// as far as the steps of the style.
pub open spec fn style_set(
    before: Slide,
    after: Slide,
    path: Seq<u32>,
    name: Seq<char>,
    style: StepValue<PartialTextStyle>,
) -> bool {
    &&& after.width == before.width
    &&& after.height == before.height
    &&& after.name == before.name
    &&& after.bg_color == before.bg_color
    &&& after.n_steps == later(before.n_steps, style.max_step())
    &&& before.node.descendant(path) matches Some(target)
    &&& after.node.descendant(path) matches Some(changed)
    &&& before.node.replaced_at(after.node, path, changed)
    &&& changed.node_id == target.node_id
    &&& changed.children == target.children
    &&& changed.show == target.show
    &&& changed.x == target.x
    &&& changed.y == target.y
    &&& changed.width == target.width
    &&& changed.height == target.height
    &&& changed.row == target.row
    &&& changed.reverse == target.reverse
    &&& changed.bg_color == target.bg_color
    &&& changed.content == target.content
    &&& scope_updated(target.styles, changed.styles, name, style)
}

/// All slides but the one of index `slide` are the same in `before` and `after`.
pub open spec fn other_slides_kept(before: Seq<Slide>, after: Seq<Slide>, slide: int) -> bool {
    &&& after.len() == before.len()
    &&& forall|j: int| 0 <= j < before.len() && j != slide ==> #[trigger] after[j] == before[j]
}

/// What asking for the style `name` at `step` comes to: the style, or what is
/// said of the failure. Without a slide the deck's own scope answers; with a
/// slide and a box, the scope of the box.
pub open spec fn get_style_outcome(
    deck: SlideDeck,
    name: Seq<char>,
    step: Step,
    slide_id: Option<SlideId>,
    box_id: Option<Seq<u32>>,
) -> Result<PartialTextStyle, Seq<char>> {
    match slide_id {
        None => match deck.global_styles.lookup(name) {
            Some(style) => Ok(style.value_at(step)),
            None => Err(style_not_found_message(name)),
        },
        Some(slide) => if slide >= deck.slides@.len() {
            Err(invalid_slide_message())
        } else {
            match box_id {
                None => Err(invalid_box_message()),
                Some(path) => match deck.slides@[slide as int].node.style_at_path(
                    path,
                    name,
                    step,
                ) {
                    None => Err(invalid_node_message()),
                    Some(None) => Err(style_not_found_message(name)),
                    Some(Some(style)) => Ok(style),
                },
            }
        },
    }
}

/// `e` is the first failure of a render of the deck, in the order of slides
/// and steps.
pub open spec fn is_deck_failure(e: FrameError, deck: &SlideDeck, resources: &Resources) -> bool {
    &&& e.slide < deck.slides@.len()
    &&& is_first_failure(e, deck, resources, e.slide as int)
    &&& forall|i: int| 0 <= i < e.slide ==> #[trigger] slide_renders(deck, resources, i)
}

/// A deck under construction.
#[derive(Debug)]
pub struct Deck {
    pub deck: SlideDeck,
}

impl Deck {
    /// A deck without slides, whose default style has the font family
    /// `default_font` ("sans-serif" where none is given).
    pub fn new(resources: &Resources, default_font: Option<&str>) -> (r: Result<Self, NelsieError>)
        ensures
            ({
                let family = match default_font {
                    Some(f) => f@,
                    None => crate::slide::default_font_family(),
                };
                match r {
                    Ok(d) => resources.font(family) is Some && d.deck.is_fresh(family)
                        && d.deck.well_formed(),
                    Err(e) => {
                        &&& resources.font(family) is None
                        &&& e matches NelsieError::GenericError(m)
                        &&& m@ == crate::slide::unknown_font_message(family)
                    },
                }
            }),
    {
        match SlideDeck::new(resources, default_font) {
            Ok(deck) => Ok(Deck { deck }),
            Err(e) => Err(e),
        }
    }

    /// Adds a slide after the slides of the deck and returns its id. The
    /// background is given in CSS notation. The slide's root is blank and gets
    /// the next node id of the deck, and the slide starts from a snapshot of
    /// the deck's scope: what is given to the deck later does not show on the
    /// slide.
    pub fn new_slide(&mut self, width: u32, height: u32, bg_color: &str, name: String) -> (r:
        Result<SlideId, NelsieError>)
        ensures
            match svg_color(bg_color@) {
                None => {
                    &&& r matches Err(NelsieError::GenericError(m))
                    &&& m@ == invalid_color_message(bg_color@)
                    &&& *final(self) == *old(self)
                },
                Some(c) => match new_slide_problem(old(self).deck) {
                    Some(message) => {
                        &&& r matches Err(NelsieError::GenericError(m))
                        &&& m@ == message
                        &&& *final(self) == *old(self)
                    },
                    None => {
                        &&& r matches Ok(id)
                        &&& id == old(self).deck.slides@.len()
                        &&& final(self).deck.global_styles == old(self).deck.global_styles
                        &&& final(self).deck.default_style == old(self).deck.default_style
                        &&& final(self).deck.node_id_counter == old(self).deck.node_id_counter + 1
                        &&& final(self).deck.slides@.len() == old(self).deck.slides@.len() + 1
                        &&& final(self).deck.slides@.drop_last() == old(self).deck.slides@
                        &&& is_new_slide(
                            final(self).deck.slides@.last(),
                            width,
                            height,
                            name,
                            Color::from_components(c),
                            old(self).deck.node_id_counter,
                            old(self).deck.global_styles,
                        )
                    },
                },
            },
            old(self).deck.well_formed() ==> final(self).deck.well_formed(),
    {
        let r = self.new_slide_with_root(width, height, bg_color, name, BoxConfig::blank());
        proof {
            if r is Ok {
                let slide = self.deck.slides@.last();
                crate::textstyle::lemma_same_styles(
                    slide.node.styles.entries@,
                    old(self).deck.global_styles.entries@,
                    Seq::empty(),
                );
                assert(slide.node.show.entries() =~= Seq::empty());
                assert(slide.node.x.entries() =~= Seq::empty());
                assert(slide.node.y.entries() =~= Seq::empty());
                assert(slide.node.width.entries() =~= Seq::empty());
                assert(slide.node.height.entries() =~= Seq::empty());
                assert(slide.node.row.entries() =~= Seq::empty());
                assert(slide.node.reverse.entries() =~= Seq::empty());
                assert(slide.node.bg_color.entries() =~= Seq::empty());
                assert(slide.node.content.entries() =~= Seq::empty());
                assert(slide.node.children@ =~= Seq::<Node>::empty());
            }
        }
        r
    }

    /// Adds a slide whose root has the attributes `config`, after the slides
    /// of the deck, and returns its id. The root gets the next node id of the
    /// deck and starts from a snapshot of the deck's scope; a text of the root
    /// must name a style of that scope. Where the slide cannot be added, the
    /// deck stays as it is and no id is used up.
    pub fn new_slide_with_root(
        &mut self,
        width: u32,
        height: u32,
        bg_color: &str,
        name: String,
        config: BoxConfig,
    ) -> (r: Result<SlideId, NelsieError>)
        ensures
            match svg_color(bg_color@) {
                None => {
                    &&& r matches Err(NelsieError::GenericError(m))
                    &&& m@ == invalid_color_message(bg_color@)
                    &&& *final(self) == *old(self)
                },
                Some(c) => match new_root_problem(old(self).deck, config) {
                    Some(message) => {
                        &&& r matches Err(NelsieError::GenericError(m))
                        &&& m@ == message
                        &&& *final(self) == *old(self)
                    },
                    None => {
                        &&& r matches Ok(id)
                        &&& id == old(self).deck.slides@.len()
                        &&& final(self).deck.global_styles == old(self).deck.global_styles
                        &&& final(self).deck.default_style == old(self).deck.default_style
                        &&& final(self).deck.node_id_counter == old(self).deck.node_id_counter + 1
                        &&& final(self).deck.slides@.len() == old(self).deck.slides@.len() + 1
                        &&& final(self).deck.slides@.drop_last() == old(self).deck.slides@
                        &&& is_slide_with_root(
                            final(self).deck.slides@.last(),
                            width,
                            height,
                            name,
                            Color::from_components(c),
                            config,
                            old(self).deck.node_id_counter,
                            old(self).deck.global_styles,
                        )
                    },
                },
            },
            old(self).deck.well_formed() ==> final(self).deck.well_formed(),
    {
        let color = match parse_color(bg_color) {
            Ok(color) => color,
            Err(e) => {
                return Err(e);
            },
        };
        if !check_content_styles(&config.content, &self.deck.global_styles) {
            return Err(NelsieError::generic("Unknown style name"));
        }
        if self.deck.slides.len() > u32::MAX as usize || self.deck.node_id_counter == u32::MAX {
            return Err(NelsieError::generic("Too many items"));
        }
        let slide_id = self.deck.slides.len() as SlideId;
        let styles = self.deck.global_styles.duplicate();
        let root_id = self.deck.new_node_id().unwrap();
        let (root, _) = config.make_node(root_id, styles);
        let slide = Slide::with_root(width, height, name, color, root);
        self.deck.slides.push(slide);
        proof {
            let before = old(self).deck;
            let after = self.deck;
            let last = after.slides@.len() - 1;
            let root = after.slides@[last].node;
            assert(after.slides@.drop_last() =~= before.slides@);
            assert(root.children@ =~= Seq::<Node>::empty());
            assert forall|id: u32| #[trigger] root.has_id(id) <==> id == root_id.0 by {}
            if before.well_formed() {
                assert forall|i: int| 0 <= i < last implies after.slides@[i]
                    == before.slides@[i] by {
                    assert(after.slides@[i] == after.slides@.drop_last()[i]);
                }
                assert forall|i: int| 0 <= i < after.slides@.len() implies (
                #[trigger] after.slides@[i]).node.unique_ids() && after.slides@[i].node.ids_below(
                    after.node_id_counter,
                ) && after.slides@[i].steps_cover() by {
                    if i < last {
                        assert(before.slides@[i].node.ids_below(before.node_id_counter));
                    }
                }
                assert forall|i: int, j: int, id: u32|
                    0 <= i < after.slides@.len() && 0 <= j < after.slides@.len() && i != j && (
                    #[trigger] after.slides@[i].node.has_id(id)) implies !(
                #[trigger] after.slides@[j].node.has_id(id)) by {
                    if after.slides@[j].node.has_id(id) {
                        if i < last && j < last {
                            assert(before.slides@[i].node.has_id(id));
                            assert(before.slides@[j].node.has_id(id));
                        } else {
                            let other = if i < last {
                                i
                            } else {
                                j
                            };
                            assert(before.slides@[other].node.has_id(id));
                            assert(before.slides@[other].node.ids_below(before.node_id_counter));
                        }
                    }
                }
            }
        }
        Ok(slide_id)
    }

    /// Adds a box with the attributes `config` as the last child of the box
    /// `box_id` of the slide `slide_id`. The box gets the next node id of the
    /// deck and starts from a snapshot of its parent's scope. Returns the id
    /// of the new box, and the id of its node. Where the box cannot be added,
    /// the deck stays as it is and no id is used up.
    pub fn new_box(&mut self, slide_id: SlideId, box_id: BoxId, config: BoxConfig) -> (r: Result<
        (BoxId, u32),
        NelsieError,
    >)
        ensures
            match new_box_problem(old(self).deck, slide_id, box_id@, config) {
                Some(message) => {
                    &&& r matches Err(NelsieError::GenericError(m))
                    &&& m@ == message
                    &&& *final(self) == *old(self)
                },
                None => {
                    let before = old(self).deck.slides@[slide_id as int];
                    let after = final(self).deck.slides@[slide_id as int];
                    &&& r matches Ok(ids)
                    &&& ids.0@ == box_id@.push(
                        before.node.descendant(box_id@)->Some_0.children@.len() as u32,
                    )
                    &&& ids.1 == old(self).deck.node_id_counter
                    &&& final(self).deck.node_id_counter == old(self).deck.node_id_counter + 1
                    &&& final(self).deck.global_styles == old(self).deck.global_styles
                    &&& final(self).deck.default_style == old(self).deck.default_style
                    &&& other_slides_kept(
                        old(self).deck.slides@,
                        final(self).deck.slides@,
                        slide_id as int,
                    )
                    &&& box_added(before, after, box_id@, config, old(self).deck.node_id_counter)
                    &&& before.steps_cover() ==> after.steps_cover()
                },
            },
            old(self).deck.well_formed() ==> final(self).deck.well_formed(),
    {
        if slide_id as usize >= self.deck.slides.len() {
            return Err(NelsieError::generic("Invalid slide id"));
        }
        let root = &self.deck.slides[slide_id as usize].node;
        let parent = match root.node_at(box_id.as_slice()) {
            Some(parent) => parent,
            None => {
                return Err(NelsieError::generic("Invalid box id"));
            },
        };
        if !check_content_styles(&config.content, &parent.styles) {
            return Err(NelsieError::generic("Unknown style name"));
        }
        if self.deck.node_id_counter == u32::MAX || parent.children.len() >= u32::MAX as usize {
            return Err(NelsieError::generic("Too many items"));
        }
        let styles = parent.styles.duplicate();
        let ghost deck_before = self.deck;
        let ghost before = self.deck.slides@[slide_id as int];
        let node_id = self.deck.new_node_id().unwrap();
        let (node, n_steps) = config.make_node(node_id, styles);
        let slide = &mut self.deck.slides[slide_id as usize];
        slide.n_steps = later_step(slide.n_steps, n_steps);
        let ghost new_root = final(slide).node;
        let parent_node = resolve_box_id(&mut slide.node, box_id.as_slice()).unwrap();
        let new_id = parent_node.children.len() as u32;
        parent_node.children.push(node);
        proof {
            let grown = *parent_node;
            let parent = before.node.descendant(box_id@)->Some_0;
            let fresh = deck_before.node_id_counter;
            let extra = set![fresh];
            assert(grown.children@.drop_last() =~= parent.children@);
            before.node.lemma_replaced_descendant(new_root, box_id@, grown);
            if before.steps_cover() {
                let bound = later(before.n_steps, n_steps);
                before.node.law_steps_propagate(box_id@);
                assert forall|i: int| 0 <= i < grown.children@.len() implies (
                #[trigger] grown.children@[i]).max_step() <= bound by {
                    if i < parent.children@.len() {
                        assert(grown.children@[i] == grown.children@.drop_last()[i]);
                        Node::lemma_child_steps(parent.children@, i);
                    }
                }
                Node::lemma_children_steps_bound(grown.children@, bound);
                before.node.lemma_replaced_steps(new_root, box_id@, grown, bound);
            }
            if deck_before.well_formed() {
                assert(before.node.unique_ids() && before.node.ids_below(fresh));
                before.node.lemma_descendant_ids(box_id@);
                parent.lemma_leaf_added(grown, fresh);
                before.node.lemma_replaced_unique(new_root, box_id@, grown, extra, fresh);
                assert forall|id: u32| #[trigger]
                    new_root.has_id(id) <==> before.node.has_id(id) || id == fresh by {
                    before.node.lemma_replaced_ids(new_root, box_id@, grown, extra, id);
                }
            }
        }
        let mut new_box_id = box_id;
        new_box_id.push(new_id);
        proof {
            if deck_before.well_formed() {
                lemma_deck_stays_well_formed(deck_before, self.deck, slide_id as int);
            }
        }
        Ok((new_box_id, node_id.as_u32()))
    }

    /// Lays `text_style` over what is given under `name`, field by field: in
    /// the deck's own scope where no slide is named, in the scope of the box
    /// `box_id` of the slide `slide_id` where both are named. With a slide and
    /// no box nothing is set. What is given to the deck changes no slide that
    /// exists and no box of one: each holds its snapshot.
    pub fn set_style(
        &mut self,
        name: &str,
        text_style: StepValue<PartialTextStyle>,
        slide_id: Option<SlideId>,
        box_id: Option<BoxId>,
    ) -> (r: Result<(), NelsieError>)
        ensures
            match slide_id {
                None => {
                    &&& r is Ok
                    &&& final(self).deck.slides == old(self).deck.slides
                    &&& final(self).deck.default_style == old(self).deck.default_style
                    &&& final(self).deck.node_id_counter == old(self).deck.node_id_counter
                    &&& scope_updated(
                        old(self).deck.global_styles,
                        final(self).deck.global_styles,
                        name@,
                        text_style,
                    )
                    &&& forall|slide: SlideId, path: Seq<u32>, other: Seq<char>, step: Step|
                        #[trigger] get_style_outcome(
                            final(self).deck,
                            other,
                            step,
                            Some(slide),
                            Some(path),
                        ) == get_style_outcome(old(self).deck, other, step, Some(slide), Some(path))
                },
                Some(slide) => if slide >= old(self).deck.slides@.len() {
                    &&& r matches Err(NelsieError::GenericError(m))
                    &&& m@ == invalid_slide_message()
                    &&& *final(self) == *old(self)
                } else {
                    match box_id {
                        None => r is Ok && *final(self) == *old(self),
                        Some(path) => if old(self).deck.slides@[slide as int].node.descendant(
                            path@,
                        ) is None {
                            &&& r matches Err(NelsieError::GenericError(m))
                            &&& m@ == invalid_node_message()
                            &&& *final(self) == *old(self)
                        } else {
                            &&& r is Ok
                            &&& final(self).deck.global_styles == old(self).deck.global_styles
                            &&& final(self).deck.default_style == old(self).deck.default_style
                            &&& final(self).deck.node_id_counter == old(self).deck.node_id_counter
                            &&& other_slides_kept(
                                old(self).deck.slides@,
                                final(self).deck.slides@,
                                slide as int,
                            )
                            &&& style_set(
                                old(self).deck.slides@[slide as int],
                                final(self).deck.slides@[slide as int],
                                path@,
                                name@,
                                text_style,
                            )
                            &&& old(self).deck.slides@[slide as int].steps_cover()
                                ==> final(self).deck.slides@[slide as int].steps_cover()
                        },
                    }
                },
            },
            old(self).deck.well_formed() ==> final(self).deck.well_formed(),
    {
        match slide_id {
            Some(slide_id) => {
                if slide_id as usize >= self.deck.slides.len() {
                    return Err(NelsieError::generic("Invalid slide id"));
                }
                if let Some(box_id) = box_id {
                    if self.deck.slides[slide_id as usize].node.node_at(
                        box_id.as_slice(),
                    ).is_none() {
                        return Err(NelsieError::generic("Invalid node id"));
                    }
                    let ghost deck_before = self.deck;
                    let ghost before = self.deck.slides@[slide_id as int];
                    let slide = &mut self.deck.slides[slide_id as usize];
                    slide.n_steps = later_step(slide.n_steps, text_style.last_step());
                    let ghost new_root = final(slide).node;
                    let node = resolve_box_id(&mut slide.node, box_id.as_slice()).unwrap();
                    node.styles.update_style(String::from_str(name), text_style);
                    proof {
                        let target = before.node.descendant(box_id@)->Some_0;
                        let extra = Set::<u32>::empty();
                        before.node.lemma_replaced_descendant(new_root, box_id@, *node);
                        assert(node.children@ == target.children@);
                        if before.steps_cover() {
                            let bound = later(before.n_steps, text_style.max_step());
                            before.node.law_steps_propagate(box_id@);
                            assert(Node::children_max_step(node.children@)
                                == Node::children_max_step(target.children@));
                            before.node.lemma_replaced_steps(new_root, box_id@, *node, bound);
                        }
                        if deck_before.well_formed() {
                            assert(before.node.unique_ids() && before.node.ids_below(
                                deck_before.node_id_counter,
                            ));
                            before.node.lemma_descendant_ids(box_id@);
                            assert forall|id: u32| #[trigger]
                                node.has_id(id) <==> target.has_id(id) || extra.contains(id) by {}
                            before.node.lemma_replaced_unique(
                                new_root,
                                box_id@,
                                *node,
                                extra,
                                deck_before.node_id_counter,
                            );
                            assert forall|id: u32| #[trigger]
                                new_root.has_id(id) <==> before.node.has_id(id) by {
                                before.node.lemma_replaced_ids(new_root, box_id@, *node, extra, id);
                            }
                        }
                    }
                    proof {
                        if deck_before.well_formed() {
                            lemma_deck_stays_well_formed(deck_before, self.deck, slide_id as int);
                        }
                    }
                }
            },
            None => {
                self.deck.global_styles.update_style(String::from_str(name), text_style);
            },
        }
        Ok(())
    }

    /// The style `name` at `step`: as the deck's own scope gives it where no
    /// slide is named; as the scope of the box `box_id` of the slide
    /// `slide_id` gives it where both are named.
    pub fn get_style(
        &self,
        name: &str,
        step: Step,
        slide_id: Option<SlideId>,
        box_id: Option<BoxId>,
    ) -> (r: Result<PartialTextStyle, NelsieError>)
        ensures
            match get_style_outcome(self.deck, name@, step, slide_id, match box_id {
                Some(path) => Some(path@),
                None => None,
            }) {
                Ok(style) => r == Ok::<PartialTextStyle, NelsieError>(style),
                Err(message) => r matches Err(NelsieError::GenericError(m)) && m@ == message,
            },
    {
        let name = String::from_str(name);
        let found = match slide_id {
            Some(slide_id) => {
                if slide_id as usize >= self.deck.slides.len() {
                    return Err(NelsieError::generic("Invalid slide id"));
                }
                match box_id {
                    Some(box_id) => {
                        match self.deck.slides[slide_id as usize].node.style_at(
                            box_id.as_slice(),
                            &name,
                            step,
                        ) {
                            Some(found) => found,
                            None => {
                                return Err(NelsieError::generic("Invalid node id"));
                            },
                        }
                    },
                    None => {
                        return Err(NelsieError::generic("Invalid box id"));
                    },
                }
            },
            None => match self.deck.global_styles.get_style(&name) {
                Some(style) => Some(style.at_step(step).duplicate()),
                None => None,
            },
        };
        match found {
            Some(style) => Ok(style),
            None => {
                let mut message = String::from_str("Style not found: ");
                message.append(name.as_str());
                Err(NelsieError::GenericError(message))
            },
        }
    }

    /// Renders every slide at each of its steps, in increasing order of slide
    /// and step: for each slide the scenes of its steps. The first failure
    /// ends the render; the error names its kind, slide, step and node.
    pub fn render(&self, resources: &Resources) -> (r: Result<Vec<Vec<Scene>>, NelsieError>)
        ensures
            match r {
                Ok(all) => are_deck_scenes(all@, &self.deck, resources) && forall|i: int|
                    0 <= i < self.deck.slides@.len() ==> #[trigger] slide_renders(
                        &self.deck,
                        resources,
                        i,
                    ),
                Err(e) => {
                    &&& e matches NelsieError::GenericError(m)
                    &&& exists|failure: FrameError|
                        #[trigger] is_deck_failure(failure, &self.deck, resources) && m@
                            == frame_error_message(failure)
                },
            },
    {
        match render_slide_deck(&self.deck, resources) {
            Ok(all) => Ok(all),
            Err(failure) => {
                assert(is_deck_failure(failure, &self.deck, resources));
                Err(NelsieError::GenericError(failure.message()))
            },
        }
    }
}

/// A deck stays well formed where one slide changes so that its tree keeps
/// its ids or gains the deck's next id, repeats none, and keeps its steps
/// covered, while the counter does not fall.
proof fn lemma_deck_stays_well_formed(before: SlideDeck, after: SlideDeck, slide: int)
    requires
        before.well_formed(),
        0 <= slide < before.slides@.len(),
        other_slides_kept(before.slides@, after.slides@, slide),
        after.node_id_counter >= before.node_id_counter,
        after.slides@[slide].node.unique_ids(),
        after.slides@[slide].steps_cover(),
        forall|id: u32| #[trigger]
            after.slides@[slide].node.has_id(id) ==> before.slides@[slide].node.has_id(id) || (id
                == before.node_id_counter && after.node_id_counter > before.node_id_counter),
    ensures
        after.well_formed(),
{
    assert forall|i: int| 0 <= i < after.slides@.len() implies (#[trigger] after.slides@[i]).node.unique_ids()
        && after.slides@[i].node.ids_below(after.node_id_counter)
        && after.slides@[i].steps_cover() by {
        assert(before.slides@[i].node.ids_below(before.node_id_counter));
        if i == slide {
            assert forall|id: u32| #[trigger] after.slides@[i].node.has_id(id) implies id
                < after.node_id_counter by {
                if before.slides@[i].node.has_id(id) {
                }
            }
        } else {
            assert(after.slides@[i] == before.slides@[i]);
        }
    }
    assert forall|i: int, j: int, id: u32|
        0 <= i < after.slides@.len() && 0 <= j < after.slides@.len() && i != j && (
        #[trigger] after.slides@[i].node.has_id(id)) implies !(#[trigger] after.slides@[j].node.has_id(
        id,
    )) by {
        if after.slides@[j].node.has_id(id) {
            let other = if i == slide {
                j
            } else {
                i
            };
            assert(after.slides@[other] == before.slides@[other]);
            assert(before.slides@[other].node.ids_below(before.node_id_counter));
            assert(before.slides@[slide].node.ids_below(before.node_id_counter));
            if i != slide && j != slide {
                assert(after.slides@[i] == before.slides@[i]);
                assert(after.slides@[j] == before.slides@[j]);
                assert(before.slides@[i].node.has_id(id));
                assert(before.slides@[j].node.has_id(id));
            } else {
                assert(before.slides@[other].node.has_id(id));
                if before.slides@[slide].node.has_id(id) {
                    assert(before.slides@[slide].node.has_id(id));
                }
            }
        }
    }
}

} // verus!
