//! Slides and the deck that holds them.

use crate::color::Color;
use crate::error::NelsieError;
use crate::node::{Node, NodeId};
use crate::resources::Resources;
use crate::stepvalue::{Step, StepValue};
use crate::textstyle::{StyleMap, TextStyle};
use vstd::prelude::*;
use vstd::string::*;

verus! {

/// Font size of the deck's default style.
pub const DEFAULT_FONT_SIZE: u32 = 32;

/// Font weight of the deck's default style.
pub const DEFAULT_FONT_WEIGHT: u16 = 400;

/// The font family of the deck's default style where none is asked for.
pub open spec fn default_font_family() -> Seq<char> {
    "sans-serif"@
}

/// The name under which the deck gives its default style.
pub open spec fn default_style_name() -> Seq<char> {
    "default"@
}

/// The message with which a font family is refused.
pub open spec fn unknown_font_message(family: Seq<char>) -> Seq<char> {
    "Font not found: "@ + family
}

/// One slide: a canvas of fixed size, a background, and the tree of its boxes.
#[derive(Debug)]
pub struct Slide {
    pub width: u32,
    pub height: u32,
    pub name: String,
    pub bg_color: Color,
    /// The root of the tree. Its scope is the slide's scope: the snapshot of
    /// the deck's scope that was taken when the slide was made, and what was
    /// given to the slide since.
    pub node: Node,
    /// The last step of the slide: its steps are 0 to `n_steps`.
    pub n_steps: Step,
}

impl Slide {
    /// The slide's steps reach as far as the steps of every node of its tree.
    pub open spec fn steps_cover(&self) -> bool {
        self.node.max_step() <= self.n_steps
    }

    /// Steps propagate to the slide: a slide whose steps cover its tree has a
    /// last step that is no earlier than any step at which an attribute of any
    /// node changes, however deep the node lies.
    pub proof fn law_steps_reach_the_slide(&self, path: Seq<u32>)
        requires
            self.steps_cover(),
            self.node.descendant(path) is Some,
        ensures
            self.node.descendant(path)->Some_0.own_max_step() <= self.n_steps,
            self.node.descendant(path)->Some_0.max_step() <= self.n_steps,
    {
        self.node.law_steps_propagate(path);
    }

    /// A slide with the given tree. The slide's steps reach as far as the
    /// steps of the tree.
    pub fn with_root(width: u32, height: u32, name: String, bg_color: Color, root: Node) -> (r:
        Self)
        ensures
            r.width == width,
            r.height == height,
            r.name == name,
            r.bg_color == bg_color,
            r.node == root,
            r.n_steps == root.max_step(),
            r.steps_cover(),
    {
        let n_steps = root.n_steps();
        Slide { width, height, name, bg_color, node: root, n_steps }
    }

    /// A slide with a blank root of the given id, whose scope is `styles`. The
    /// slide's steps reach as far as the steps of `styles`.
    pub fn new(
        width: u32,
        height: u32,
        name: String,
        bg_color: Color,
        root_id: NodeId,
        styles: StyleMap,
    ) -> (r: Self)
        ensures
            r.width == width,
            r.height == height,
            r.name == name,
            r.bg_color == bg_color,
            r.node.node_id == root_id,
            r.node.is_blank(),
            r.node.styles == styles,
            r.n_steps == styles.max_step(),
            r.steps_cover(),
            r.node.unique_ids(),
            forall|id: u32| #[trigger] r.node.has_id(id) <==> id == root_id.0,
    {
        let n_steps = styles.last_step();
        let mut node = Node::new(root_id);
        node.styles = styles;
        let r = Slide { width, height, name, bg_color, node, n_steps };
        proof {
            assert(r.node.children@ =~= Seq::<Node>::empty());
            assert(r.node.show.entries() =~= Seq::empty());
            assert(r.node.x.entries() =~= Seq::empty());
            assert(r.node.y.entries() =~= Seq::empty());
            assert(r.node.width.entries() =~= Seq::empty());
            assert(r.node.height.entries() =~= Seq::empty());
            assert(r.node.row.entries() =~= Seq::empty());
            assert(r.node.reverse.entries() =~= Seq::empty());
            assert(r.node.bg_color.entries() =~= Seq::empty());
            assert(r.node.content.entries() =~= Seq::empty());
        }
        r
    }
}

/// The slides of a presentation, in order, with what they share: the styles of
/// the deck, the style that every text starts from, and the node ids.
#[derive(Debug)]
pub struct SlideDeck {
    pub slides: Vec<Slide>,
    /// The deck's own scope. A slide starts from a snapshot of it.
    pub global_styles: StyleMap,
    pub default_style: TextStyle,
    /// The id that the next node of the deck gets, on whatever slide. Ids grow
    /// and none is handed out twice.
    pub node_id_counter: u32,
}

impl SlideDeck {
    /// The deck is as its operations keep it: no id occurs twice, neither on
    /// one slide nor on two; every id is one that the deck has handed out; and
    /// every slide's steps cover the steps of its tree.
    pub open spec fn well_formed(&self) -> bool {
        &&& forall|i: int|
            0 <= i < self.slides@.len() ==> (#[trigger] self.slides@[i]).node.unique_ids()
                && self.slides@[i].node.ids_below(self.node_id_counter)
                && self.slides@[i].steps_cover()
        &&& forall|i: int, j: int, id: u32|
            0 <= i < self.slides@.len() && 0 <= j < self.slides@.len() && i != j && (
            #[trigger] self.slides@[i].node.has_id(id)) ==> !(#[trigger] self.slides@[j].node.has_id(
                id,
            ))
    }

    /// Ids are unique in the deck and grow: the id that the deck hands out
    /// next is above the id of every node of every slide, so that it is the
    /// id of no node made so far.
    pub proof fn law_next_id_is_fresh(&self, slide: int, id: u32)
        requires
            self.well_formed(),
            0 <= slide < self.slides@.len(),
            self.slides@[slide].node.has_id(id),
        ensures
            id < self.node_id_counter,
    {
        assert(self.slides@[slide].node.ids_below(self.node_id_counter));
    }

    /// The deck has no slides and has handed out no id, its default style has
    /// the font family `family` and the default size, color and weight, and
    /// the deck gives that style under the name "default" and no other.
    pub open spec fn is_fresh(&self, family: Seq<char>) -> bool {
        &&& self.slides@.len() == 0
        &&& self.node_id_counter == 0
        &&& self.default_style.font@ == family
        &&& self.default_style.size == DEFAULT_FONT_SIZE
        &&& self.default_style.color == (Color { red: 0, green: 0, blue: 0, alpha: 255 })
        &&& self.default_style.weight == DEFAULT_FONT_WEIGHT
        &&& self.global_styles.entries@.len() == 1
        &&& self.global_styles.entries@[0].0@ == default_style_name()
        &&& self.global_styles.entries@[0].1 == StepValue::Const(self.default_style.as_partial())
    }

    /// A deck without slides. Its default style has the font family
    /// `default_font` ("sans-serif" where none is given), which the font table
    /// must hold, and the deck gives it under the name "default".
    pub fn new(resources: &Resources, default_font: Option<&str>) -> (r: Result<
        SlideDeck,
        NelsieError,
    >)
        ensures
            ({
                let family = match default_font {
                    Some(f) => f@,
                    None => default_font_family(),
                };
                match r {
                    Ok(deck) => resources.font(family) is Some && deck.is_fresh(family)
                        && deck.well_formed(),
                    Err(e) => {
                        &&& resources.font(family) is None
                        &&& e matches NelsieError::GenericError(m)
                        &&& m@ == unknown_font_message(family)
                    },
                }
            }),
    {
        let family = match default_font {
            Some(f) => String::from_str(f),
            None => String::from_str("sans-serif"),
        };
        if resources.find_font(&family).is_none() {
            let mut message = String::from_str("Font not found: ");
            message.append(family.as_str());
            return Err(NelsieError::GenericError(message));
        }
        let default_style = TextStyle {
            font: family,
            size: DEFAULT_FONT_SIZE,
            color: Color::black(),
            weight: DEFAULT_FONT_WEIGHT,
        };
        let mut global_styles = StyleMap::new();
        global_styles.entries.push(
            (String::from_str("default"), StepValue::Const(default_style.to_partial())),
        );
        Ok(SlideDeck { slides: Vec::new(), global_styles, default_style, node_id_counter: 0 })
    }

    /// Hands out a node id that the deck has not handed out before, greater
    /// than all it has handed out; `None` where the ids are used up.
    pub fn new_node_id(&mut self) -> (r: Option<NodeId>)
        ensures
            final(self).slides == old(self).slides,
            final(self).global_styles == old(self).global_styles,
            final(self).default_style == old(self).default_style,
            match r {
                Some(id) => id.0 == old(self).node_id_counter && final(self).node_id_counter
                    == old(self).node_id_counter + 1,
                None => old(self).node_id_counter == u32::MAX && final(self).node_id_counter
                    == u32::MAX,
            },
    {
        if self.node_id_counter == u32::MAX {
            None
        } else {
            let id = self.node_id_counter;
            self.node_id_counter = id + 1;
            Some(NodeId::new(id))
        }
    }
}

} // verus!
