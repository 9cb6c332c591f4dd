//! The node tree of a slide.

use crate::color::Color;
use crate::stepvalue::{Step, StepValue};
use crate::textstyle::{PartialTextStyle, StyleMap};
use vstd::prelude::*;

verus! {

/// Identifies a node within its slide. Ids are handed out in increasing order
/// and never reused.
#[derive(Debug, Clone, Copy, PartialEq, Eq, Structural)]
pub struct NodeId(pub u32);

impl NodeId {
    pub fn new(id: u32) -> (r: Self)
        ensures
            r == NodeId(id),
    {
        NodeId(id)
    }

    pub fn as_u32(&self) -> (r: u32)
        ensures
            r == self.0,
    {
        self.0
    }
}

/// A width or a height: in slide units, or in hundredths of the parent's size.
#[derive(Debug, Clone, Copy, PartialEq, Eq, Structural)]
pub enum Size {
    Points(u32),
    Percent(u32),
}

/// A position along one axis, measured from where the parent starts: in slide
/// units, or in hundredths of the parent's size.
#[derive(Debug, Clone, Copy, PartialEq, Eq, Structural)]
pub enum LayoutExpr {
    Points(i32),
    Percent(u32),
}

/// Lines of text, drawn in the named style.
#[derive(Debug, Clone, PartialEq, Eq)]
pub struct StyledText {
    pub lines: Vec<String>,
    pub style: String,
}

/// A reference to an image by the path it is loaded from.
#[derive(Debug, Clone, PartialEq, Eq)]
pub struct Image {
    pub filename: String,
}

/// What a node shows besides its background: text or an image, never both.
#[derive(Debug, Clone, PartialEq, Eq)]
pub enum NodeContent {
    Text(StyledText),
    Image(Image),
}

/// A box of a slide. Every attribute may change from step to step; the
/// children are kept in the order in which they were added.
#[derive(Debug, PartialEq, Eq)]
pub struct Node {
    pub node_id: NodeId,
    pub children: Vec<Node>,
    pub show: StepValue<bool>,
    pub x: StepValue<Option<LayoutExpr>>,
    pub y: StepValue<Option<LayoutExpr>>,
    pub width: StepValue<Option<Size>>,
    pub height: StepValue<Option<Size>>,
    pub row: StepValue<bool>,
    pub reverse: StepValue<bool>,
    pub bg_color: StepValue<Option<Color>>,
    pub content: StepValue<Option<NodeContent>>,
    pub styles: StyleMap,
}

/// The greater of two steps.
pub open spec fn later(a: Step, b: Step) -> Step {
    if a >= b {
        a
    } else {
        b
    }
}

/// The greater of two steps.
pub fn later_step(a: Step, b: Step) -> (r: Step)
    ensures
        r == later(a, b),
{
    if a >= b {
        a
    } else {
        b
    }
}

/// `content` is the image loaded from `path`.
pub open spec fn content_is_image(content: Option<NodeContent>, path: Seq<char>) -> bool {
    content matches Some(NodeContent::Image(image)) && image.filename@ == path
}

/// Some entry among `entries` is the image loaded from `path`.
pub open spec fn entries_mention(entries: Seq<(Step, Option<NodeContent>)>, path: Seq<char>) -> bool
    decreases entries.len(),
{
    if entries.len() == 0 {
        false
    } else {
        entries_mention(entries.drop_last(), path) || content_is_image(entries.last().1, path)
    }
}

/// `out` holds `path`.
pub open spec fn holds_path(out: Seq<String>, path: Seq<char>) -> bool
    decreases out.len(),
{
    if out.len() == 0 {
        false
    } else {
        holds_path(out.drop_last(), path) || out.last()@ == path
    }
}

/// No path occurs twice in `out`.
pub open spec fn distinct_paths(out: Seq<String>) -> bool
    decreases out.len(),
{
    if out.len() == 0 {
        true
    } else {
        distinct_paths(out.drop_last()) && !holds_path(out.drop_last(), out.last()@)
    }
}

/// `out` holds a path exactly where one of its elements is that path.
pub proof fn lemma_holds_path(out: Seq<String>, path: Seq<char>)
    ensures
        holds_path(out, path) <==> exists|i: int| 0 <= i < out.len() && (#[trigger] out[i])@ == path,
    decreases out.len(),
{
    if out.len() > 0 {
        let init = out.drop_last();
        lemma_holds_path(init, path);
        if holds_path(out, path) {
            if out.last()@ == path {
                assert(out[out.len() - 1]@ == path);
            } else {
                let i = choose|i: int| 0 <= i < init.len() && (#[trigger] init[i])@ == path;
                assert(out[i]@ == path);
            }
        }
        if exists|i: int| 0 <= i < out.len() && (#[trigger] out[i])@ == path {
            let i = choose|i: int| 0 <= i < out.len() && (#[trigger] out[i])@ == path;
            if i < init.len() {
                assert(init[i]@ == path);
            }
        }
    }
}

/// The paths of `out` are distinct exactly where no two of its elements are
/// the same path.
pub proof fn lemma_distinct_paths(out: Seq<String>)
    ensures
        distinct_paths(out) <==> forall|i: int, j: int|
            0 <= i < j < out.len() ==> (#[trigger] out[i])@ != (#[trigger] out[j])@,
    decreases out.len(),
{
    if out.len() > 0 {
        let init = out.drop_last();
        let last = out.len() - 1;
        lemma_distinct_paths(init);
        lemma_holds_path(init, out.last()@);
        if distinct_paths(out) {
            assert forall|i: int, j: int| 0 <= i < j < out.len() implies (#[trigger] out[i])@ != (
            #[trigger] out[j])@ by {
                if j < last {
                    assert(init[i]@ != init[j]@);
                } else if out[i]@ == out[j]@ {
                    assert(init[i]@ == out.last()@);
                }
            }
        }
        if forall|i: int, j: int|
            0 <= i < j < out.len() ==> (#[trigger] out[i])@ != (#[trigger] out[j])@ {
            assert forall|i: int, j: int| 0 <= i < j < init.len() implies (#[trigger] init[i])@
                != (#[trigger] init[j])@ by {
                assert(out[i]@ != out[j]@);
            }
            if holds_path(init, out.last()@) {
                let i = choose|i: int| 0 <= i < init.len() && (#[trigger] init[i])@ == out.last()@;
                assert(out[i]@ != out[last]@);
            }
        }
    }
}

/// Some entry is an image of that path exactly where the recursive search
/// finds one.
pub proof fn lemma_entries_mention(entries: Seq<(Step, Option<NodeContent>)>, path: Seq<char>)
    ensures
        entries_mention(entries, path) <==> exists|i: int|
            0 <= i < entries.len() && content_is_image((#[trigger] entries[i]).1, path),
    decreases entries.len(),
{
    if entries.len() > 0 {
        let init = entries.drop_last();
        lemma_entries_mention(init, path);
        if entries_mention(entries, path) {
            if content_is_image(entries.last().1, path) {
                assert(content_is_image(entries[entries.len() - 1].1, path));
            } else {
                let i = choose|i: int|
                    0 <= i < init.len() && content_is_image((#[trigger] init[i]).1, path);
                assert(content_is_image(entries[i].1, path));
            }
        }
        if exists|i: int|
            0 <= i < entries.len() && content_is_image((#[trigger] entries[i]).1, path) {
            let i = choose|i: int|
                0 <= i < entries.len() && content_is_image((#[trigger] entries[i]).1, path);
            if i < init.len() {
                assert(content_is_image(init[i].1, path));
            }
        }
    }
}

/// From index `from` on, no element of `out` is a path that `out` holds
/// before it.
pub open spec fn appended_fresh(out: Seq<String>, from: int) -> bool {
    forall|i: int| from <= i < out.len() ==> !holds_path(out.take(i), (#[trigger] out[i])@)
}

/// What holds of a list read up to `from` holds of any list that starts with
/// the same elements; so a list that grows by fresh paths twice grew by fresh
/// paths.
pub proof fn lemma_appended_fresh(before: Seq<String>, after: Seq<String>, from: int)
    requires
        0 <= from <= before.len() <= after.len(),
        after.take(before.len() as int) == before,
        appended_fresh(before, from),
        appended_fresh(after, before.len() as int),
    ensures
        appended_fresh(after, from),
{
    assert forall|i: int| from <= i < after.len() implies !holds_path(
        after.take(i),
        (#[trigger] after[i])@,
    ) by {
        if i < before.len() {
            assert(after.take(before.len() as int)[i] == after[i]);
            assert(after.take(i) =~= before.take(i));
            assert(!holds_path(before.take(i), before[i]@));
        }
    }
}

/// The set of the paths that `out` holds.
pub open spec fn path_set(out: Seq<String>) -> Set<Seq<char>> {
    Set::new(|path: Seq<char>| holds_path(out, path))
}

/// Adds `path` to `out` unless `out` holds it already.
pub fn insert_path(out: &mut Vec<String>, path: &String)
    ensures
        forall|p: Seq<char>|
            #![trigger holds_path(final(out)@, p)]
            holds_path(final(out)@, p) <==> holds_path(old(out)@, p) || p == path@,
        distinct_paths(old(out)@) ==> distinct_paths(final(out)@),
        final(out)@.len() >= old(out)@.len(),
        final(out)@.take(old(out)@.len() as int) == old(out)@,
        holds_path(old(out)@, path@) ==> final(out)@ == old(out)@,
        !holds_path(old(out)@, path@) ==> final(out)@.len() == old(out)@.len() + 1
            && final(out)@.last()@ == path@,
        appended_fresh(final(out)@, old(out)@.len() as int),
{
    let mut i: usize = 0;
    while i < out.len()
        invariant
            i <= out.len(),
            *out == *old(out),
            !holds_path(out@.take(i as int), path@),
        decreases out.len() - i,
    {
        proof {
            assert(out@.take(i + 1).drop_last() =~= out@.take(i as int));
        }
        if out[i] == *path {
            proof {
                lemma_holds_path_at(out@, i as int);
                assert(out@.take(out@.len() as int) =~= out@);
            }
            return ;
        }
        i += 1;
    }
    proof {
        assert(out@.take(i as int) =~= out@);
    }
    out.push(path.clone());
    proof {
        assert(out@.drop_last() =~= old(out)@);
        assert(out@.take(old(out)@.len() as int) =~= old(out)@);
        assert(out@[old(out)@.len() as int]@ == path@);
    }
}

/// `out` holds each of its elements.
pub proof fn lemma_holds_path_at(out: Seq<String>, i: int)
    requires
        0 <= i < out.len(),
    ensures
        holds_path(out, out[i]@),
    decreases out.len(),
{
    if i < out.len() - 1 {
        lemma_holds_path_at(out.drop_last(), i);
    }
}

impl Node {
    /// The node has no children, no content and no background, is a column, is
    /// shown at every step, and leaves position and size open.
    pub open spec fn is_blank(&self) -> bool {
        &&& self.children@.len() == 0
        &&& self.show == StepValue::Const(true)
        &&& self.x == StepValue::<Option<LayoutExpr>>::Const(None)
        &&& self.y == StepValue::<Option<LayoutExpr>>::Const(None)
        &&& self.width == StepValue::<Option<Size>>::Const(None)
        &&& self.height == StepValue::<Option<Size>>::Const(None)
        &&& self.row == StepValue::Const(false)
        &&& self.reverse == StepValue::Const(false)
        &&& self.bg_color == StepValue::<Option<Color>>::Const(None)
        &&& self.content == StepValue::<Option<NodeContent>>::Const(None)
    }

    /// `self` and `other` differ at most in their children.
    pub open spec fn same_attributes(&self, other: Node) -> bool {
        &&& self.node_id == other.node_id
        &&& self.show == other.show
        &&& self.x == other.x
        &&& self.y == other.y
        &&& self.width == other.width
        &&& self.height == other.height
        &&& self.row == other.row
        &&& self.reverse == other.reverse
        &&& self.bg_color == other.bg_color
        &&& self.content == other.content
        &&& self.styles == other.styles
    }

    /// A blank node with the given id, whose scope gives no style.
    pub fn new(node_id: NodeId) -> (r: Self)
        ensures
            r.node_id == node_id,
            r.is_blank(),
            r.styles.entries@.len() == 0,
            r.max_step() == 0,
    {
        let r = Node {
            node_id,
            children: Vec::new(),
            show: StepValue::Const(true),
            x: StepValue::Const(None),
            y: StepValue::Const(None),
            width: StepValue::Const(None),
            height: StepValue::Const(None),
            row: StepValue::Const(false),
            reverse: StepValue::Const(false),
            bg_color: StepValue::Const(None),
            content: StepValue::Const(None),
            styles: StyleMap::new(),
        };
        proof {
            assert(r.styles.entries@ =~= Seq::empty());
            assert(r.children@ =~= Seq::empty());
            assert(r.show.entries() =~= Seq::empty());
            assert(r.x.entries() =~= Seq::empty());
            assert(r.y.entries() =~= Seq::empty());
            assert(r.width.entries() =~= Seq::empty());
            assert(r.height.entries() =~= Seq::empty());
            assert(r.row.entries() =~= Seq::empty());
            assert(r.reverse.entries() =~= Seq::empty());
            assert(r.bg_color.entries() =~= Seq::empty());
            assert(r.content.entries() =~= Seq::empty());
        }
        r
    }

    /// The children's greatest step, 0 for no children.
    pub open spec fn children_max_step(kids: Seq<Node>) -> Step
        decreases kids,
    {
        if kids.len() == 0 {
            0
        } else {
            later(Self::children_max_step(kids.drop_last()), kids.last().max_step())
        }
    }

    /// The greatest step at which one of the node's own attributes, or a style
    /// of its scope, changes.
    pub open spec fn own_max_step(&self) -> Step {
        later(
            later(
                later(
                    later(self.show.max_step(), self.x.max_step()),
                    later(self.y.max_step(), self.width.max_step()),
                ),
                later(
                    later(self.height.max_step(), self.row.max_step()),
                    later(self.reverse.max_step(), self.bg_color.max_step()),
                ),
            ),
            later(self.content.max_step(), self.styles.max_step()),
        )
    }

    /// The number of steps that the node takes part in: the greatest step at
    /// which an attribute of the node or of one of its descendants changes.
    pub open spec fn max_step(&self) -> Step
        decreases self,
    {
        later(self.own_max_step(), Self::children_max_step(self.children@))
    }

    /// The node reached from `self` by the child indices of `path`.
    pub open spec fn descendant(&self, path: Seq<u32>) -> Option<Node>
        decreases path.len(),
    {
        if path.len() == 0 {
            Some(*self)
        } else if (path[0] as int) < self.children@.len() {
            self.children@[path[0] as int].descendant(path.subrange(1, path.len() as int))
        } else {
            None
        }
    }

    /// `new` is `self` with the node at `path` replaced by `replacement`, and
    /// nothing else changed.
    pub open spec fn replaced_at(&self, new: Node, path: Seq<u32>, replacement: Node) -> bool
        decreases path.len(),
    {
        if path.len() == 0 {
            new == replacement
        } else {
            let i = path[0] as int;
            &&& i < self.children@.len()
            &&& new.same_attributes(*self)
            &&& new.children@.len() == self.children@.len()
            &&& forall|j: int|
                0 <= j < self.children@.len() && j != i ==> #[trigger] new.children@[j]
                    == self.children@[j]
            &&& self.children@[i].replaced_at(
                new.children@[i],
                path.subrange(1, path.len() as int),
                replacement,
            )
        }
    }

    /// What the scope of the node at `path` gives under `name` at `step`. The
    /// outer `None` means that there is no node at `path`, the inner one that
    /// the scope does not know the name.
    pub open spec fn style_at_path(&self, path: Seq<u32>, name: Seq<char>, step: Step) -> Option<
        Option<PartialTextStyle>,
    > {
        match self.descendant(path) {
            Some(node) => Some(
                match node.styles.lookup(name) {
                    Some(style) => Some(style.value_at(step)),
                    None => None,
                },
            ),
            None => None,
        }
    }

    /// After a replacement at `path`, the node at `path` is the replacement.
    pub proof fn lemma_replaced_descendant(&self, new: Node, path: Seq<u32>, replacement: Node)
        requires
            self.replaced_at(new, path, replacement),
        ensures
            self.descendant(path) is Some,
            new.descendant(path) == Some(replacement),
        decreases path.len(),
    {
        if path.len() > 0 {
            self.children@[path[0] as int].lemma_replaced_descendant(
                new.children@[path[0] as int],
                path.subrange(1, path.len() as int),
                replacement,
            );
        }
    }

    /// The node at `path`, if there is one.
    pub fn node_at(&self, path: &[u32]) -> (r: Option<&Node>)
        ensures
            match r {
                Some(n) => self.descendant(path@) == Some(*n),
                None => self.descendant(path@) is None,
            },
        decreases path.len(),
    {
        if path.len() == 0 {
            return Some(self);
        }
        let index = path[0] as usize;
        if index >= self.children.len() {
            return None;
        }
        let rest = vstd::slice::slice_subrange(path, 1, path.len());
        self.children[index].node_at(rest)
    }

    /// The style of that name at `step`, as the scope of the node at `path`
    /// gives it.
    pub fn style_at(&self, path: &[u32], name: &String, step: Step) -> (r: Option<
        Option<PartialTextStyle>,
    >)
        ensures
            r == self.style_at_path(path@, name@, step),
    {
        match self.node_at(path) {
            Some(node) => Some(
                match node.styles.get_style(name) {
                    Some(style) => Some(style.at_step(step).duplicate()),
                    None => None,
                },
            ),
            None => None,
        }
    }

    /// The node or one of its descendants has the id `id`.
    pub open spec fn has_id(&self, id: u32) -> bool
        decreases self,
    {
        self.node_id.0 == id || Self::children_have_id(self.children@, id)
    }

    /// Some node among `kids` and their descendants has the id `id`.
    pub open spec fn children_have_id(kids: Seq<Node>, id: u32) -> bool
        decreases kids,
    {
        if kids.len() == 0 {
            false
        } else {
            Self::children_have_id(kids.drop_last(), id) || kids.last().has_id(id)
        }
    }

    /// No two nodes of the subtree have the same id.
    pub open spec fn unique_ids(&self) -> bool
        decreases self,
    {
        &&& !Self::children_have_id(self.children@, self.node_id.0)
        &&& forall|i: int|
            0 <= i < self.children@.len() ==> (#[trigger] self.children@[i]).unique_ids()
        &&& forall|i: int, j: int, id: u32|
            0 <= i < self.children@.len() && 0 <= j < self.children@.len() && i != j && (
            #[trigger] self.children@[i].has_id(id)) ==> !(#[trigger] self.children@[j].has_id(id))
    }

    /// Every id of the subtree is below `bound`.
    pub open spec fn ids_below(&self, bound: u32) -> bool {
        forall|id: u32| #[trigger] self.has_id(id) ==> id < bound
    }

    /// The children have an id exactly where one of them has it.
    pub proof fn lemma_children_ids(kids: Seq<Node>, id: u32)
        ensures
            Self::children_have_id(kids, id) <==> exists|i: int|
                0 <= i < kids.len() && (#[trigger] kids[i]).has_id(id),
        decreases kids.len(),
    {
        if kids.len() > 0 {
            let init = kids.drop_last();
            Self::lemma_children_ids(init, id);
            if Self::children_have_id(kids, id) {
                if kids.last().has_id(id) {
                    assert(kids[kids.len() - 1].has_id(id));
                } else {
                    let i = choose|i: int| 0 <= i < init.len() && (#[trigger] init[i]).has_id(id);
                    assert(kids[i].has_id(id));
                }
            }
            if exists|i: int| 0 <= i < kids.len() && (#[trigger] kids[i]).has_id(id) {
                let i = choose|i: int| 0 <= i < kids.len() && (#[trigger] kids[i]).has_id(id);
                Self::lemma_child_id(kids, i, id);
            }
        }
    }

    /// The ids of a descendant are ids of the tree, and in a tree without a
    /// repeated id no subtree repeats one.
    pub proof fn lemma_descendant_ids(&self, path: Seq<u32>)
        requires
            self.descendant(path) is Some,
        ensures
            forall|id: u32| #[trigger] self.descendant(path)->Some_0.has_id(id) ==> self.has_id(id),
            self.unique_ids() ==> self.descendant(path)->Some_0.unique_ids(),
        decreases path.len(),
    {
        if path.len() > 0 {
            let i = path[0] as int;
            let child = self.children@[i];
            let rest = path.subrange(1, path.len() as int);
            child.lemma_descendant_ids(rest);
            assert forall|id: u32| #[trigger]
                self.descendant(path)->Some_0.has_id(id) implies self.has_id(id) by {
                assert(child.descendant(rest)->Some_0.has_id(id));
                assert(child.has_id(id));
                Self::lemma_child_id(self.children@, i, id);
            }
        }
    }

    /// Where the node at `path` is replaced by one that has the same ids and
    /// the ids in `extra`, the tree has the ids it had and those in `extra`.
    pub proof fn lemma_replaced_ids(
        &self,
        new: Node,
        path: Seq<u32>,
        replacement: Node,
        extra: Set<u32>,
        id: u32,
    )
        requires
            self.replaced_at(new, path, replacement),
            self.descendant(path) is Some,
            forall|i: u32| #[trigger]
                replacement.has_id(i) <==> self.descendant(path)->Some_0.has_id(i)
                    || extra.contains(i),
        ensures
            new.has_id(id) <==> self.has_id(id) || extra.contains(id),
        decreases path.len(),
    {
        if path.len() > 0 {
            let i = path[0] as int;
            let rest = path.subrange(1, path.len() as int);
            self.children@[i].lemma_replaced_ids(new.children@[i], rest, replacement, extra, id);
            Self::lemma_children_ids(self.children@, id);
            Self::lemma_children_ids(new.children@, id);
            if Self::children_have_id(new.children@, id) {
                let j = choose|j: int|
                    0 <= j < new.children@.len() && (#[trigger] new.children@[j]).has_id(id);
                if j != i {
                    assert(new.children@[j] == self.children@[j]);
                    assert(self.children@[j].has_id(id));
                } else if !extra.contains(id) {
                    assert(self.children@[i].has_id(id));
                }
            }
            if Self::children_have_id(self.children@, id) {
                let j = choose|j: int|
                    0 <= j < self.children@.len() && (#[trigger] self.children@[j]).has_id(id);
                if j != i {
                    assert(new.children@[j] == self.children@[j]);
                    assert(new.children@[j].has_id(id));
                } else {
                    assert(new.children@[i].has_id(id));
                }
            }
            if extra.contains(id) {
                assert(new.children@[i].has_id(id));
            }
        }
    }

    /// Where the node at `path` is replaced by one without a repeated id that
    /// has the same ids and some fresh ones, the tree still repeats no id.
    pub proof fn lemma_replaced_unique(
        &self,
        new: Node,
        path: Seq<u32>,
        replacement: Node,
        extra: Set<u32>,
        bound: u32,
    )
        requires
            self.replaced_at(new, path, replacement),
            self.descendant(path) is Some,
            self.unique_ids(),
            self.ids_below(bound),
            replacement.unique_ids(),
            forall|i: u32| #[trigger]
                replacement.has_id(i) <==> self.descendant(path)->Some_0.has_id(i)
                    || extra.contains(i),
            forall|i: u32| extra.contains(i) ==> i >= bound,
        ensures
            new.unique_ids(),
        decreases path.len(),
    {
        if path.len() > 0 {
            let i = path[0] as int;
            let rest = path.subrange(1, path.len() as int);
            let old_child = self.children@[i];
            let new_child = new.children@[i];
            assert forall|id: u32| #[trigger] old_child.has_id(id) implies id < bound by {
                Self::lemma_child_id(self.children@, i, id);
                assert(self.has_id(id));
            }
            old_child.lemma_replaced_unique(new_child, rest, replacement, extra, bound);
            assert forall|id: u32| #[trigger]
                new_child.has_id(id) <==> old_child.has_id(id) || extra.contains(id) by {
                old_child.lemma_replaced_ids(new_child, rest, replacement, extra, id);
            }
            assert(self.has_id(self.node_id.0));
            if Self::children_have_id(new.children@, new.node_id.0) {
                Self::lemma_children_ids(new.children@, new.node_id.0);
                let j = choose|j: int|
                    0 <= j < new.children@.len() && (#[trigger] new.children@[j]).has_id(
                        new.node_id.0,
                    );
                if j != i {
                    assert(new.children@[j] == self.children@[j]);
                }
                assert(self.children@[j].has_id(self.node_id.0));
                Self::lemma_child_id(self.children@, j, self.node_id.0);
            }
            assert forall|j: int| 0 <= j < new.children@.len() implies (
            #[trigger] new.children@[j]).unique_ids() by {
                if j != i {
                    assert(new.children@[j] == self.children@[j]);
                    assert(self.children@[j].unique_ids());
                }
            }
            assert forall|a: int, b: int, id: u32|
                0 <= a < new.children@.len() && 0 <= b < new.children@.len() && a != b && (
                #[trigger] new.children@[a].has_id(id)) implies !(#[trigger] new.children@[b].has_id(
                id,
            )) by {
                if a != i {
                    assert(new.children@[a] == self.children@[a]);
                }
                if b != i {
                    assert(new.children@[b] == self.children@[b]);
                }
                if new.children@[b].has_id(id) {
                    if extra.contains(id) {
                        let other = if a == i {
                            b
                        } else {
                            a
                        };
                        assert(self.children@[other].has_id(id));
                        Self::lemma_child_id(self.children@, other, id);
                        assert(self.has_id(id));
                    } else {
                        assert(self.children@[a].has_id(id));
                        assert(self.children@[b].has_id(id));
                    }
                }
            }
        }
    }

    /// A node without a repeated id that gets one more child, a leaf with a
    /// fresh id, repeats no id, and has the ids it had and the fresh one.
    pub proof fn lemma_leaf_added(&self, grown: Node, bound: u32)
        requires
            self.unique_ids(),
            self.ids_below(bound),
            grown.same_attributes(*self),
            grown.children@.len() == self.children@.len() + 1,
            grown.children@.drop_last() == self.children@,
            grown.children@.last().children@.len() == 0,
            grown.children@.last().node_id.0 >= bound,
        ensures
            grown.unique_ids(),
            forall|id: u32| #[trigger]
                grown.has_id(id) <==> self.has_id(id) || id == grown.children@.last().node_id.0,
    {
        let leaf = grown.children@.last();
        let n = self.children@.len() as int;
        assert(self.has_id(self.node_id.0));
        assert forall|id: u32| leaf.has_id(id) <==> id == leaf.node_id.0 by {
            assert(leaf.children@ =~= Seq::<Node>::empty());
        }
        assert forall|j: int| 0 <= j < n implies grown.children@[j] == self.children@[j] by {
            assert(grown.children@.drop_last()[j] == grown.children@[j]);
        }
        assert forall|id: u32| #[trigger]
            Self::children_have_id(grown.children@, id) <==> Self::children_have_id(
                self.children@,
                id,
            ) || id == leaf.node_id.0 by {
            assert(leaf.has_id(id) <==> id == leaf.node_id.0);
        }
        assert forall|id: u32| #[trigger]
            grown.has_id(id) <==> self.has_id(id) || id == leaf.node_id.0 by {
            assert(Self::children_have_id(grown.children@, id) <==> Self::children_have_id(
                self.children@,
                id,
            ) || id == leaf.node_id.0);
        }
        assert(!Self::children_have_id(grown.children@, grown.node_id.0));
        assert forall|j: int| 0 <= j < grown.children@.len() implies (
        #[trigger] grown.children@[j]).unique_ids() by {
            if j < n {
                assert(self.children@[j].unique_ids());
            } else {
                assert(grown.children@[j] == leaf);
            }
        }
        assert forall|a: int, b: int, id: u32|
            0 <= a < grown.children@.len() && 0 <= b < grown.children@.len() && a != b && (
            #[trigger] grown.children@[a].has_id(id)) implies !(#[trigger] grown.children@[b].has_id(
            id,
        )) by {
            if grown.children@[b].has_id(id) {
                if a < n && b < n {
                    assert(self.children@[a].has_id(id));
                    assert(self.children@[b].has_id(id));
                } else {
                    let other = if a < n {
                        a
                    } else {
                        b
                    };
                    assert(grown.children@[a + b - other] == leaf);
                    assert(self.children@[other].has_id(id));
                    Self::lemma_child_id(self.children@, other, id);
                    assert(self.has_id(id));
                }
            }
        }
    }

    /// An id that a child has is an id that the children have.
    pub proof fn lemma_child_id(kids: Seq<Node>, i: int, id: u32)
        requires
            0 <= i < kids.len(),
            kids[i].has_id(id),
        ensures
            Self::children_have_id(kids, id),
        decreases kids.len(),
    {
        if i < kids.len() - 1 {
            Self::lemma_child_id(kids.drop_last(), i, id);
        }
    }

    /// Some child among `kids` shows, at some step, the image loaded from `path`.
    pub open spec fn children_mention(kids: Seq<Node>, path: Seq<char>) -> bool
        decreases kids,
    {
        if kids.len() == 0 {
            false
        } else {
            Self::children_mention(kids.drop_last(), path) || kids.last().mentions_image(path)
        }
    }

    /// The node or one of its descendants shows, at some step, the image loaded
    /// from `path`.
    pub open spec fn mentions_image(&self, path: Seq<char>) -> bool
        decreases self,
    {
        ||| content_is_image(self.content.fallback(), path)
        ||| entries_mention(self.content.entries(), path)
        ||| Self::children_mention(self.children@, path)
    }

    /// The children mention an image exactly where one of them does.
    pub proof fn lemma_children_mention(kids: Seq<Node>, path: Seq<char>)
        ensures
            Self::children_mention(kids, path) <==> exists|i: int|
                0 <= i < kids.len() && (#[trigger] kids[i]).mentions_image(path),
        decreases kids.len(),
    {
        if kids.len() > 0 {
            let init = kids.drop_last();
            Self::lemma_children_mention(init, path);
            if Self::children_mention(kids, path) {
                if kids.last().mentions_image(path) {
                    assert(kids[kids.len() - 1].mentions_image(path));
                } else {
                    let i = choose|i: int|
                        0 <= i < init.len() && (#[trigger] init[i]).mentions_image(path);
                    assert(kids[i].mentions_image(path));
                }
            }
            if exists|i: int| 0 <= i < kids.len() && (#[trigger] kids[i]).mentions_image(path) {
                let i = choose|i: int|
                    0 <= i < kids.len() && (#[trigger] kids[i]).mentions_image(path);
                if i < init.len() {
                    assert(init[i].mentions_image(path));
                }
            }
        }
    }

    /// The paths of all images that the subtree shows at any step.
    pub open spec fn image_paths(&self) -> Set<Seq<char>> {
        Set::new(|path: Seq<char>| self.mentions_image(path))
    }

    /// The position of the node along the main axis of its parent: `x` under
    /// a row, `y` under a column.
    pub fn main_axis_position(&self, has_row_parent: bool) -> (r: &StepValue<Option<LayoutExpr>>)
        ensures
            *r == if has_row_parent {
                self.x
            } else {
                self.y
            },
    {
        if has_row_parent {
            &self.x
        } else {
            &self.y
        }
    }

    /// The position of the node across the main axis of its parent: `y` under
    /// a row, `x` under a column.
    pub fn cross_axis_position(&self, has_row_parent: bool) -> (r: &StepValue<Option<LayoutExpr>>)
        ensures
            *r == if has_row_parent {
                self.y
            } else {
                self.x
            },
    {
        if has_row_parent {
            &self.y
        } else {
            &self.x
        }
    }

    /// Adds to `out` the path of every image that the node or a descendant
    /// shows at any step. A path that `out` holds already is not added again.
    ///
    /// The paths are kept in a list and told apart by their text. A hash set
    /// of strings would not do here: the verifier knows what a hash set holds
    /// only for keys whose hashing it has a model of, which are integers and
    /// the like, and it does not know the path type of std at all.
    pub fn collect_image_paths(&self, out: &mut Vec<String>)
        ensures
            path_set(final(out)@) == path_set(old(out)@).union(self.image_paths()),
            forall|p: Seq<char>|
                #![trigger holds_path(final(out)@, p)]
                holds_path(final(out)@, p) <==> holds_path(old(out)@, p) || self.mentions_image(p),
            distinct_paths(old(out)@) ==> distinct_paths(final(out)@),
            final(out)@.len() >= old(out)@.len(),
            final(out)@.take(old(out)@.len() as int) == old(out)@,
            appended_fresh(final(out)@, old(out)@.len() as int),
        decreases self,
    {
        let ghost start = old(out)@.len() as int;
        match &self.content {
            StepValue::Const(value) => {
                if let Some(NodeContent::Image(image)) = value {
                    insert_path(out, &image.filename);
                }
            },
            StepValue::Steps { entries, fallback } => {
                if let Some(NodeContent::Image(image)) = fallback {
                    insert_path(out, &image.filename);
                }
                let mut i: usize = 0;
                while i < entries.len()
                    invariant
                        i <= entries.len(),
                        forall|p: Seq<char>|
                            #![trigger holds_path(out@, p)]
                            holds_path(out@, p) <==> holds_path(old(out)@, p) || content_is_image(
                                *fallback,
                                p,
                            ) || entries_mention(entries@.take(i as int), p),
                        distinct_paths(old(out)@) ==> distinct_paths(out@),
                        out@.len() >= old(out)@.len(),
                        out@.take(old(out)@.len() as int) == old(out)@,
                        start == old(out)@.len(),
                        appended_fresh(out@, start),
                    decreases entries.len() - i,
                {
                    proof {
                        assert(entries@.take(i + 1).drop_last() =~= entries@.take(i as int));
                    }
                    let ghost before = out@;
                    if let Some(NodeContent::Image(image)) = &entries[i].1 {
                        insert_path(out, &image.filename);
                    }
                    proof {
                        assert(out@.take(old(out)@.len() as int) =~= before.take(
                            old(out)@.len() as int,
                        ));
                        assert(out@.take(before.len() as int) =~= before);
                        lemma_appended_fresh(before, out@, start);
                        assert(entries@.take(i + 1).last() == entries@[i as int]);
                        assert forall|p: Seq<char>|
                            #![trigger holds_path(out@, p)]
                            holds_path(out@, p) <==> holds_path(old(out)@, p) || content_is_image(
                                *fallback,
                                p,
                            ) || entries_mention(entries@.take(i + 1), p) by {
                            assert(holds_path(out@, p) <==> holds_path(before, p)
                                || content_is_image(entries@[i as int].1, p));
                        }
                    }
                    i += 1;
                }
                proof {
                    assert(entries@.take(i as int) =~= entries@);
                }
            },
        }
        proof {
            assert(out@.take(old(out)@.len() as int) =~= old(out)@);
            assert(self.children@.take(0) =~= Seq::<Node>::empty());
            assert forall|p: Seq<char>|
                #![trigger holds_path(out@, p)]
                holds_path(out@, p) <==> holds_path(old(out)@, p) || content_is_image(
                    self.content.fallback(),
                    p,
                ) || entries_mention(self.content.entries(), p) || Self::children_mention(
                    self.children@.take(0),
                    p,
                ) by {}
        }
        let mut k: usize = 0;
        while k < self.children.len()
            invariant
                k <= self.children.len(),
                forall|p: Seq<char>|
                    #![trigger holds_path(out@, p)]
                    holds_path(out@, p) <==> holds_path(old(out)@, p) || content_is_image(
                        self.content.fallback(),
                        p,
                    ) || entries_mention(self.content.entries(), p) || Self::children_mention(
                        self.children@.take(k as int),
                        p,
                    ),
                distinct_paths(old(out)@) ==> distinct_paths(out@),
                out@.len() >= old(out)@.len(),
                out@.take(old(out)@.len() as int) == old(out)@,
                start == old(out)@.len(),
                appended_fresh(out@, start),
            decreases self.children.len() - k,
        {
            proof {
                assert(self.children@.take(k + 1).drop_last() =~= self.children@.take(k as int));
            }
            let ghost before = out@;
            self.children[k].collect_image_paths(out);
            proof {
                assert(out@.take(old(out)@.len() as int) =~= before.take(
                    old(out)@.len() as int,
                ));
                lemma_appended_fresh(before, out@, start);
                assert(self.children@.take(k + 1).last() == self.children@[k as int]);
                assert forall|p: Seq<char>|
                    #![trigger holds_path(out@, p)]
                    holds_path(out@, p) <==> holds_path(old(out)@, p) || content_is_image(
                        self.content.fallback(),
                        p,
                    ) || entries_mention(self.content.entries(), p) || Self::children_mention(
                        self.children@.take(k + 1),
                        p,
                    ) by {
                    assert(holds_path(out@, p) <==> holds_path(before, p)
                        || self.children@[k as int].mentions_image(p));
                }
            }
            k += 1;
        }
        proof {
            assert(self.children@.take(k as int) =~= self.children@);
            assert(path_set(out@) =~= path_set(old(out)@).union(self.image_paths()));
        }
    }

    /// The number of steps that the node takes part in.
    pub fn n_steps(&self) -> (r: Step)
        ensures
            r == self.max_step(),
        decreases self,
    {
        let a = later_step(
            later_step(self.show.last_step(), self.x.last_step()),
            later_step(self.y.last_step(), self.width.last_step()),
        );
        let b = later_step(
            later_step(self.height.last_step(), self.row.last_step()),
            later_step(self.reverse.last_step(), self.bg_color.last_step()),
        );
        let c = later_step(self.content.last_step(), self.styles.last_step());
        let own = later_step(later_step(a, b), c);
        let mut kids: Step = 0;
        let mut k: usize = 0;
        while k < self.children.len()
            invariant
                k <= self.children.len(),
                kids == Self::children_max_step(self.children@.take(k as int)),
            decreases self.children.len() - k,
        {
            proof {
                assert(self.children@.take(k + 1).drop_last() =~= self.children@.take(k as int));
            }
            kids = later_step(kids, self.children[k].n_steps());
            k += 1;
        }
        proof {
            assert(self.children@.take(k as int) =~= self.children@);
        }
        later_step(own, kids)
    }

    /// The child at `index`, if there is one.
    pub fn child_node(&self, index: usize) -> (r: Option<&Node>)
        ensures
            match r {
                Some(c) => index < self.children@.len() && *c == self.children@[index as int],
                None => index >= self.children@.len(),
            },
    {
        if index < self.children.len() {
            Some(&self.children[index])
        } else {
            None
        }
    }

    /// A child's steps are among its parent's.
    pub proof fn lemma_child_steps(kids: Seq<Node>, i: int)
        requires
            0 <= i < kids.len(),
        ensures
            kids[i].max_step() <= Self::children_max_step(kids),
        decreases kids.len(),
    {
        if i < kids.len() - 1 {
            Self::lemma_child_steps(kids.drop_last(), i);
        }
    }

    /// Children that all stay within a bound stay within it together.
    pub proof fn lemma_children_steps_bound(kids: Seq<Node>, bound: Step)
        requires
            forall|i: int| 0 <= i < kids.len() ==> (#[trigger] kids[i]).max_step() <= bound,
        ensures
            Self::children_max_step(kids) <= bound,
        decreases kids.len(),
    {
        if kids.len() > 0 {
            let init = kids.drop_last();
            assert forall|i: int| 0 <= i < init.len() implies (#[trigger] init[i]).max_step()
                <= bound by {
                assert(init[i] == kids[i]);
            }
            Self::lemma_children_steps_bound(init, bound);
            assert(kids[kids.len() - 1].max_step() <= bound);
        }
    }

    /// Replacing a node by one that stays within a bound keeps a tree within
    /// that bound.
    pub proof fn lemma_replaced_steps(
        &self,
        new: Node,
        path: Seq<u32>,
        replacement: Node,
        bound: Step,
    )
        requires
            self.replaced_at(new, path, replacement),
            self.max_step() <= bound,
            replacement.max_step() <= bound,
        ensures
            new.max_step() <= bound,
        decreases path.len(),
    {
        if path.len() > 0 {
            let i = path[0] as int;
            Self::lemma_child_steps(self.children@, i);
            self.children@[i].lemma_replaced_steps(
                new.children@[i],
                path.subrange(1, path.len() as int),
                replacement,
                bound,
            );
            assert forall|j: int| 0 <= j < new.children@.len() implies (#[trigger] new.children@[j]).max_step()
                <= bound by {
                if j != i {
                    Self::lemma_child_steps(self.children@, j);
                    assert(new.children@[j] == self.children@[j]);
                }
            }
            Self::lemma_children_steps_bound(new.children@, bound);
        }
    }

    /// Steps propagate upwards: a node takes part in every step in which a
    /// descendant does, however deep the descendant lies.
    pub proof fn law_steps_propagate(&self, path: Seq<u32>)
        requires
            self.descendant(path) is Some,
        ensures
            self.descendant(path)->Some_0.max_step() <= self.max_step(),
            self.descendant(path)->Some_0.own_max_step() <= self.max_step(),
        decreases path.len(),
    {
        if path.len() > 0 {
            let child = self.children@[path[0] as int];
            child.law_steps_propagate(path.subrange(1, path.len() as int));
            Self::lemma_child_steps(self.children@, path[0] as int);
        }
    }

    /// A node takes part in every step at which one of its own attributes, or
    /// a style of its scope, changes.
    pub proof fn law_attribute_steps(&self)
        ensures
            self.show.max_step() <= self.max_step(),
            self.x.max_step() <= self.max_step(),
            self.y.max_step() <= self.max_step(),
            self.width.max_step() <= self.max_step(),
            self.height.max_step() <= self.max_step(),
            self.row.max_step() <= self.max_step(),
            self.reverse.max_step() <= self.max_step(),
            self.bg_color.max_step() <= self.max_step(),
            self.content.max_step() <= self.max_step(),
            self.styles.max_step() <= self.max_step(),
    {
    }
}

} // verus!
