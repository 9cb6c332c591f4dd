//! The box model: from a node tree and a step to the rectangle of every node.
//!
//! A node is a row or a column. Its children follow one another along its
//! main axis, each starting where the one before it ends, unless a child's
//! position is given. Across the main axis a child starts where its parent
//! starts and is as large as its parent, unless its position or size is given.
//! Along the main axis a child without a given size is as large as its content,
//! or as its own children need together.

use crate::error::{RenderError, RenderErrorKind};
use crate::geometry::{in_range, Geometry, Rectangle};
use crate::node::{LayoutExpr, Node, NodeContent, NodeId, Size};
use crate::resources::{text_block_width, text_line_height, Resources};
use crate::stepvalue::Step;
use crate::textstyle::{resolve_style, StyleMap, TextStyle};
use std::collections::HashMap;
use vstd::prelude::*;
use vstd::string::*;

verus! {

/// What a layout is computed for: the step, the tables of fonts and images, and
/// the style that every text starts from.
pub struct LayoutContext<'a> {
    pub resources: &'a Resources,
    pub default_style: &'a TextStyle,
    pub step: Step,
}

/// Number of characters of the longest line.
pub open spec fn max_line_chars(lines: Seq<String>) -> int
    decreases lines.len(),
{
    if lines.len() == 0 {
        0
    } else {
        let before = max_line_chars(lines.drop_last());
        if lines.last()@.len() > before {
            lines.last()@.len() as int
        } else {
            before
        }
    }
}

/// The size that a content has by itself: nothing for no content, the native
/// size of an image, the block of a text in its resolved style.
pub open spec fn content_size_spec(
    content: Option<NodeContent>,
    styles: StyleMap,
    ctx: LayoutContext,
) -> Result<(int, int), RenderErrorKind> {
    match content {
        None => Ok((0, 0)),
        Some(NodeContent::Image(image)) => match ctx.resources.image(image.filename@) {
            Some(info) => Ok((info.width as int, info.height as int)),
            None => Err(RenderErrorKind::MissingImage),
        },
        Some(NodeContent::Text(text)) => match styles.resolved(
            *ctx.default_style,
            text.style@,
            ctx.step,
        ) {
            None => Err(RenderErrorKind::UnknownStyle),
            Some(style) => match ctx.resources.font(style.font@) {
                None => Err(RenderErrorKind::MissingFont),
                Some(font) => {
                    let w = text_block_width(
                        max_line_chars(text.lines@),
                        style.size as int,
                        font.advance as int,
                    );
                    let h = text.lines@.len() * text_line_height(
                        style.size as int,
                        font.line_height as int,
                    );
                    if in_range(w) && in_range(h) {
                        Ok((w, h))
                    } else {
                        Err(RenderErrorKind::OutOfRange)
                    }
                },
            },
        },
    }
}

/// The size of what has been laid in a row or a column so far, with one more
/// box of size `next` added: along the main axis the sizes add up, across it
/// the largest counts.
pub open spec fn flow_add(row: bool, so_far: (int, int), next: (int, int)) -> (int, int) {
    if row {
        (so_far.0 + next.0, if next.1 > so_far.1 {
            next.1
        } else {
            so_far.1
        })
    } else {
        (if next.0 > so_far.0 {
            next.0
        } else {
            so_far.0
        }, so_far.1 + next.1)
    }
}

/// A given size in slide units, nothing for a size given in hundredths of the
/// parent (which is unknown while sizes are gathered bottom-up), `natural`
/// where no size is given.
pub open spec fn preferred(given: Option<Size>, natural: int) -> int {
    match given {
        Some(Size::Points(v)) => v as int,
        Some(Size::Percent(_)) => 0,
        None => natural,
    }
}

/// The size that a node asks of its parent at `ctx.step`, or the first failure
/// met while the subtree is measured: the node's content first, then its
/// children in the order in which they were added, then the node's own size.
pub open spec fn measured(node: Node, ctx: LayoutContext) -> Result<
    (int, int),
    RenderError,
>
    decreases node,
{
    let content = node.content.value_at(ctx.step);
    match content_size_spec(content, node.styles, ctx) {
        Err(kind) => Err(RenderError { kind, node_id: node.node_id }),
        Ok(content_size) => match measured_children(
            node.children@,
            ctx,
            node.row.value_at(ctx.step),
        ) {
            Err(e) => Err(e),
            Ok(flow) => {
                let natural = if content is Some {
                    content_size
                } else {
                    flow
                };
                if in_range(natural.0) && in_range(natural.1) {
                    Ok(
                        (
                            preferred(node.width.value_at(ctx.step), natural.0),
                            preferred(node.height.value_at(ctx.step), natural.1),
                        ),
                    )
                } else {
                    Err(RenderError { kind: RenderErrorKind::OutOfRange, node_id: node.node_id })
                }
            },
        },
    }
}

/// The size that `kids` need together in a row or a column, or the first
/// failure among them.
pub open spec fn measured_children(
    kids: Seq<Node>,
    ctx: LayoutContext,
    row: bool,
) -> Result<(int, int), RenderError>
    decreases kids,
{
    if kids.len() == 0 {
        Ok((0, 0))
    } else {
        match measured_children(kids.drop_last(), ctx, row) {
            Err(e) => Err(e),
            Ok(so_far) => match measured(kids.last(), ctx) {
                Err(e) => Err(e),
                Ok(next) => Ok(flow_add(row, so_far, next)),
            },
        }
    }
}

/// The size that a node asks of its parent; nothing where it cannot be measured.
pub open spec fn preferred_size(node: Node, ctx: LayoutContext) -> (int, int) {
    match measured(node, ctx) {
        Ok(size) => size,
        Err(_) => (0, 0),
    }
}

/// A failure among the first children is the failure of all of them.
pub proof fn lemma_children_failure_stays(
    kids: Seq<Node>,
    ctx: LayoutContext,
    row: bool,
    i: int,
    n: int,
)
    requires
        0 <= i <= n <= kids.len(),
        measured_children(kids.take(i), ctx, row) is Err,
    ensures
        measured_children(kids.take(n), ctx, row) == measured_children(
            kids.take(i),
            ctx,
            row,
        ),
    decreases n - i,
{
    if i < n {
        lemma_children_failure_stays(kids, ctx, row, i, n - 1);
        assert(kids.take(n).drop_last() =~= kids.take(n - 1));
    }
}

/// No node asks for a negative size, nor for more than a coordinate can hold.
pub proof fn law_sizes_are_not_negative(node: Node, ctx: LayoutContext)
    ensures
        measured(node, ctx) matches Ok(size) ==> 0 <= size.0 <= i64::MAX && 0 <= size.1
            <= i64::MAX,
    decreases node,
{
    lemma_content_not_negative(node.content.value_at(ctx.step), node.styles, ctx);
    lemma_flow_not_negative(node.children@, ctx, node.row.value_at(ctx.step));
}

/// The size of a content is never negative.
pub proof fn lemma_content_not_negative(
    content: Option<NodeContent>,
    styles: StyleMap,
    ctx: LayoutContext,
)
    ensures
        content_size_spec(content, styles, ctx) matches Ok(size) ==> 0 <= size.0 <= i64::MAX && 0
            <= size.1 <= i64::MAX,
{
    if let Some(NodeContent::Text(text)) = content {
        if let Some(style) = styles.resolved(*ctx.default_style, text.style@, ctx.step) {
            if let Some(font) = ctx.resources.font(style.font@) {
                lemma_max_line_chars(text.lines@);
                let c = max_line_chars(text.lines@);
                let s = style.size as int;
                let a = font.advance as int;
                let l = font.line_height as int;
                let n = text.lines@.len() as int;
                assert(c * s * a >= 0 && s * l >= 0) by (nonlinear_arith)
                    requires
                        c >= 0,
                        s >= 0,
                        a >= 0,
                        l >= 0,
                ;
                assert(n * (s * l / 1000) >= 0) by (nonlinear_arith)
                    requires
                        n >= 0,
                        s * l >= 0,
                ;
            }
        }
    }
}

/// No line is longer than the longest.
pub proof fn lemma_max_line_chars(lines: Seq<String>)
    ensures
        0 <= max_line_chars(lines),
        forall|i: int| 0 <= i < lines.len() ==> (#[trigger] lines[i])@.len() <= max_line_chars(lines),
    decreases lines.len(),
{
    if lines.len() > 0 {
        let init = lines.drop_last();
        lemma_max_line_chars(init);
        assert forall|i: int| 0 <= i < lines.len() implies (#[trigger] lines[i])@.len()
            <= max_line_chars(lines) by {
            if i < init.len() {
                assert(init[i] == lines[i]);
            }
        }
    }
}

/// What children need together is never negative, and no more than each of
/// them could need at most.
pub proof fn lemma_flow_not_negative(
    kids: Seq<Node>,
    ctx: LayoutContext,
    row: bool,
)
    ensures
        measured_children(kids, ctx, row) matches Ok(size) ==> 0 <= size.0 <= kids.len()
            * i64::MAX && 0 <= size.1 <= kids.len() * i64::MAX,
    decreases kids,
{
    if kids.len() > 0 {
        lemma_flow_not_negative(kids.drop_last(), ctx, row);
        law_sizes_are_not_negative(kids.last(), ctx);
    }
}

/// The sizes of a subtree as they were measured: for every node the size it
/// asks of its parent.
#[derive(Debug)]
pub struct SizeTree {
    pub width: i64,
    pub height: i64,
    pub children: Vec<SizeTree>,
}

impl SizeTree {
    /// The tree holds, node by node, the sizes of `node` and its descendants.
    pub open spec fn agrees(&self, node: Node, ctx: LayoutContext) -> bool
        decreases self,
    {
        &&& measured(node, ctx) == Ok::<(int, int), RenderError>(
            (self.width as int, self.height as int),
        )
        &&& 0 <= self.width
        &&& 0 <= self.height
        &&& self.children@.len() == node.children@.len()
        &&& forall|i: int|
            0 <= i < self.children@.len() ==> (#[trigger] self.children@[i]).agrees(
                node.children@[i],
                ctx,
            )
    }
}

/// `chars * size * per_mille / 1000`, computed without loss.
fn scaled(chars: usize, size: u32, per_mille: u16) -> (r: u128)
    ensures
        r == chars * size * per_mille / 1000,
{
    let a: u128 = chars as u128;
    let b: u128 = size as u128;
    let c: u128 = per_mille as u128;
    assert(a * b <= 0x1_0000_0000_0000_0000 * 0x1_0000_0000) by (nonlinear_arith)
        requires
            0 <= a <= 0x1_0000_0000_0000_0000,
            0 <= b <= 0x1_0000_0000,
    ;
    let ab: u128 = a * b;
    assert(ab * c <= 0x1_0000_0000_0000_0000_0000_0000 * 0x1_0000) by (nonlinear_arith)
        requires
            0 <= ab <= 0x1_0000_0000_0000_0000_0000_0000,
            0 <= c <= 0x1_0000,
    ;
    ab * c / 1000
}

/// `lines * (size * per_mille / 1000)`, computed without loss.
fn stacked(lines: usize, size: u32, per_mille: u16) -> (r: u128)
    ensures
        r == lines * (size * per_mille / 1000),
{
    let a: u128 = lines as u128;
    let b: u128 = size as u128;
    let c: u128 = per_mille as u128;
    assert(b * c <= 0x1_0000_0000 * 0x1_0000) by (nonlinear_arith)
        requires
            0 <= b <= 0x1_0000_0000,
            0 <= c <= 0x1_0000,
    ;
    let line: u128 = b * c / 1000;
    assert(a * line <= 0x1_0000_0000_0000_0000 * 0x1_0000_0000_0000) by (nonlinear_arith)
        requires
            0 <= a <= 0x1_0000_0000_0000_0000,
            0 <= line <= 0x1_0000_0000_0000,
    ;
    a * line
}

/// Number of characters of the longest line.
fn longest_line(lines: &Vec<String>) -> (r: usize)
    ensures
        r == max_line_chars(lines@),
{
    let mut best: usize = 0;
    let mut i: usize = 0;
    while i < lines.len()
        invariant
            i <= lines.len(),
            best == max_line_chars(lines@.take(i as int)),
        decreases lines.len() - i,
    {
        proof {
            assert(lines@.take(i + 1).drop_last() =~= lines@.take(i as int));
        }
        let n = lines[i].as_str().unicode_len();
        if n > best {
            best = n;
        }
        i += 1;
    }
    proof {
        assert(lines@.take(i as int) =~= lines@);
    }
    best
}

/// The size that a content has by itself at the step of `ctx`.
pub fn content_size(content: &Option<NodeContent>, styles: &StyleMap, ctx: &LayoutContext) -> (r:
    Result<(i64, i64), RenderErrorKind>)
    ensures
        match r {
            Ok(size) => content_size_spec(*content, *styles, *ctx) == Ok::<
                (int, int),
                RenderErrorKind,
            >((size.0 as int, size.1 as int)) && 0 <= size.0 && 0 <= size.1,
            Err(kind) => content_size_spec(*content, *styles, *ctx) == Err::<
                (int, int),
                RenderErrorKind,
            >(kind),
        },
{
    proof {
        lemma_content_not_negative(*content, *styles, *ctx);
    }
    match content {
        None => Ok((0, 0)),
        Some(NodeContent::Image(image)) => match ctx.resources.find_image(&image.filename) {
            Some(info) => Ok((info.width as i64, info.height as i64)),
            None => Err(RenderErrorKind::MissingImage),
        },
        Some(NodeContent::Text(text)) => match resolve_style(
            styles,
            ctx.default_style,
            &text.style,
            ctx.step,
        ) {
            None => Err(RenderErrorKind::UnknownStyle),
            Some(style) => match ctx.resources.find_font(&style.font) {
                None => Err(RenderErrorKind::MissingFont),
                Some(font) => {
                    let w = scaled(longest_line(&text.lines), style.size, font.advance);
                    let h = stacked(text.lines.len(), style.size, font.line_height);
                    if w <= 0x7fff_ffff_ffff_ffff && h <= 0x7fff_ffff_ffff_ffff {
                        Ok((w as i64, h as i64))
                    } else {
                        Err(RenderErrorKind::OutOfRange)
                    }
                },
            },
        },
    }
}

/// Measures a subtree bottom-up: for every node the size that it asks of its
/// parent at the step of `ctx`.
pub fn measure(node: &Node, ctx: &LayoutContext) -> (r: Result<
    SizeTree,
    RenderError,
>)
    ensures
        match r {
            Ok(sizes) => sizes.agrees(*node, *ctx),
            Err(e) => measured(*node, *ctx) == Err::<(int, int), RenderError>(e),
        },
    decreases node,
{
    let content = node.content.at_step(ctx.step);
    let content_size = match content_size(content, &node.styles, ctx) {
        Ok(size) => size,
        Err(kind) => {
            return Err(RenderError { kind, node_id: node.node_id });
        },
    };
    let row = *node.row.at_step(ctx.step);
    let mut kids: Vec<SizeTree> = Vec::new();
    let mut flow_w: i128 = 0;
    let mut flow_h: i128 = 0;
    let mut i: usize = 0;
    while i < node.children.len()
        invariant
            i <= node.children.len(),
            content_size_spec(node.content.value_at(ctx.step), node.styles, *ctx) is Ok,
            row == node.row.value_at(ctx.step),
            kids@.len() == i,
            measured_children(node.children@.take(i as int), *ctx, row) == Ok::<
                (int, int),
                RenderError,
            >((flow_w as int, flow_h as int)),
            0 <= flow_w <= i * i64::MAX,
            0 <= flow_h <= i * i64::MAX,
            forall|j: int|
                0 <= j < i ==> (#[trigger] kids@[j]).agrees(node.children@[j], *ctx),
        decreases node.children.len() - i,
    {
        proof {
            assert(node.children@.take(i + 1).drop_last() =~= node.children@.take(i as int));
            assert(node.children@.take(i + 1).last() == node.children@[i as int]);
        }
        match measure(&node.children[i], ctx) {
            Ok(sizes) => {
                if row {
                    flow_w = flow_w + sizes.width as i128;
                    if sizes.height as i128 > flow_h {
                        flow_h = sizes.height as i128;
                    }
                } else {
                    if sizes.width as i128 > flow_w {
                        flow_w = sizes.width as i128;
                    }
                    flow_h = flow_h + sizes.height as i128;
                }
                kids.push(sizes);
            },
            Err(e) => {
                proof {
                    lemma_children_failure_stays(
                        node.children@,
                        *ctx,
                        row,
                        i + 1,
                        node.children@.len() as int,
                    );
                    assert(node.children@.take(node.children@.len() as int) =~= node.children@);
                }
                return Err(e);
            },
        }
        i += 1;
    }
    proof {
        assert(node.children@.take(i as int) =~= node.children@);
    }
    let natural_w: i128 = if content.is_some() {
        content_size.0 as i128
    } else {
        flow_w
    };
    let natural_h: i128 = if content.is_some() {
        content_size.1 as i128
    } else {
        flow_h
    };
    if natural_w > 0x7fff_ffff_ffff_ffff || natural_h > 0x7fff_ffff_ffff_ffff {
        return Err(RenderError { kind: RenderErrorKind::OutOfRange, node_id: node.node_id });
    }
    let width: i64 = match node.width.at_step(ctx.step) {
        Some(Size::Points(v)) => *v as i64,
        Some(Size::Percent(_)) => 0,
        None => natural_w as i64,
    };
    let height: i64 = match node.height.at_step(ctx.step) {
        Some(Size::Points(v)) => *v as i64,
        Some(Size::Percent(_)) => 0,
        None => natural_h as i64,
    };
    Ok(SizeTree { width, height, children: kids })
}


/// `percent` hundredths of `size`, rounded down.
pub open spec fn percent_of(size: int, percent: int) -> int {
    size * percent / 100
}

/// A size as it is given, `otherwise` where none is given. `parent` is the
/// parent's size along the same axis.
pub open spec fn resolve_size(given: Option<Size>, parent: int, otherwise: int) -> int {
    match given {
        Some(Size::Points(v)) => v as int,
        Some(Size::Percent(p)) => percent_of(parent, p as int),
        None => otherwise,
    }
}

/// A position as it is given, measured from where the parent starts;
/// `otherwise` where none is given.
pub open spec fn resolve_position(
    given: Option<LayoutExpr>,
    parent_start: int,
    parent_size: int,
    otherwise: int,
) -> int {
    match given {
        Some(LayoutExpr::Points(v)) => parent_start + v,
        Some(LayoutExpr::Percent(p)) => parent_start + percent_of(parent_size, p as int),
        None => otherwise,
    }
}

/// The rectangle of a child of a row or column that occupies `parent`.
/// `preferred` is the size the child asks for, `cursor` the place where the
/// child before it ends along the main axis.
pub open spec fn child_geometry(
    parent: Geometry,
    row: bool,
    child: Node,
    step: Step,
    preferred: (int, int),
    cursor: int,
) -> Geometry {
    Geometry {
        x: resolve_position(child.x.value_at(step), parent.x, parent.width, if row {
            cursor
        } else {
            parent.x
        }),
        y: resolve_position(child.y.value_at(step), parent.y, parent.height, if row {
            parent.y
        } else {
            cursor
        }),
        width: resolve_size(child.width.value_at(step), parent.width, if row {
            preferred.0
        } else {
            parent.width
        }),
        height: resolve_size(child.height.value_at(step), parent.height, if row {
            parent.height
        } else {
            preferred.1
        }),
    }
}

/// The child that is laid out, and painted, as number `k`: the children in the
/// order in which they were added, or in the opposite order where the node is
/// reversed at that step.
pub open spec fn layout_index(node: Node, step: Step, k: int) -> int {
    if node.reverse.value_at(step) {
        node.children@.len() - 1 - k
    } else {
        k
    }
}

/// Where child number `k` (in layout order) starts along the main axis unless
/// its position is given: where `rect` starts for the first child, where the
/// child before it ends for the others.
pub open spec fn cursor_at(
    node: Node,
    rect: Geometry,
    ctx: LayoutContext,
    k: int,
) -> int
    decreases k, 0int,
{
    if k <= 0 {
        rect.main_start(node.row.value_at(ctx.step))
    } else {
        child_geometry_at(node, rect, ctx, k - 1).main_end(node.row.value_at(ctx.step))
    }
}

/// The rectangle of child number `k` (in layout order) of `node`, which
/// occupies `rect`.
pub open spec fn child_geometry_at(
    node: Node,
    rect: Geometry,
    ctx: LayoutContext,
    k: int,
) -> Geometry
    decreases k, 1int,
{
    let child = node.children@[layout_index(node, ctx.step, k)];
    child_geometry(
        rect,
        node.row.value_at(ctx.step),
        child,
        ctx.step,
        preferred_size(child, ctx),
        cursor_at(node, rect, ctx, k),
    )
}

/// `map` with the rectangles of `node`, which occupies `rect`, and of all its
/// descendants: the node first, then child by child in layout order.
pub open spec fn placed(
    node: Node,
    rect: Geometry,
    ctx: LayoutContext,
    map: Map<u32, Geometry>,
) -> Map<u32, Geometry>
    decreases node, node.children@.len() + 1,
{
    placed_children(
        node,
        rect,
        ctx,
        node.children@.len() as int,
        map.insert(node.node_id.0, rect),
    )
}

/// `map` with the rectangles of the first `k` children (in layout order) of
/// `node` and of their descendants.
pub open spec fn placed_children(
    node: Node,
    rect: Geometry,
    ctx: LayoutContext,
    k: int,
    map: Map<u32, Geometry>,
) -> Map<u32, Geometry>
    decreases node, k,
{
    if k <= 0 || k > node.children@.len() {
        map
    } else {
        placed(
            node.children@[layout_index(node, ctx.step, k - 1)],
            child_geometry_at(node, rect, ctx, k - 1),
            ctx,
            placed_children(node, rect, ctx, k - 1, map),
        )
    }
}

/// The first descendant of `node`, in layout order, whose rectangle does not
/// fit the machine's coordinates.
pub open spec fn place_failure(
    node: Node,
    rect: Geometry,
    ctx: LayoutContext,
) -> Option<RenderError>
    decreases node, node.children@.len() + 1,
{
    children_failure(node, rect, ctx, node.children@.len() as int)
}

/// The first failure among the first `k` children (in layout order) of `node`
/// and their descendants.
pub open spec fn children_failure(
    node: Node,
    rect: Geometry,
    ctx: LayoutContext,
    k: int,
) -> Option<RenderError>
    decreases node, k,
{
    if k <= 0 || k > node.children@.len() {
        None
    } else {
        match children_failure(node, rect, ctx, k - 1) {
            Some(e) => Some(e),
            None => {
                let child = node.children@[layout_index(node, ctx.step, k - 1)];
                let geometry = child_geometry_at(node, rect, ctx, k - 1);
                if geometry.fits() {
                    place_failure(child, geometry, ctx)
                } else {
                    Some(RenderError { kind: RenderErrorKind::OutOfRange, node_id: child.node_id })
                }
            },
        }
    }
}

/// A failure among the first children is the failure of all of them.
pub proof fn lemma_place_failure_stays(
    node: Node,
    rect: Geometry,
    ctx: LayoutContext,
    k: int,
    n: int,
)
    requires
        0 <= k <= n <= node.children@.len(),
        children_failure(node, rect, ctx, k) is Some,
    ensures
        children_failure(node, rect, ctx, n) == children_failure(node, rect, ctx, k),
    decreases n - k,
{
    if k < n {
        lemma_place_failure_stays(node, rect, ctx, k, n - 1);
    }
}

/// The rectangles of a map, over the integers.
pub open spec fn geometry_map(rects: Map<u32, Rectangle>) -> Map<u32, Geometry> {
    rects.map_values(|r: Rectangle| r@)
}

/// `percent` hundredths of `size`, rounded down.
fn percent(size: i64, hundredths: u32) -> (r: i128)
    requires
        size >= 0,
    ensures
        r == percent_of(size as int, hundredths as int),
        0 <= r <= 0x1_0000_0000_0000_0000_0000_0000,
{
    let a: i128 = size as i128;
    let b: i128 = hundredths as i128;
    assert(0 <= a * b <= 0x1_0000_0000_0000_0000 * 0x1_0000_0000) by (nonlinear_arith)
        requires
            0 <= a <= 0x1_0000_0000_0000_0000,
            0 <= b <= 0x1_0000_0000,
    ;
    a * b / 100
}

/// A size as it is given, `otherwise` where none is given.
fn size_of(given: &Option<Size>, parent: i64, otherwise: i64) -> (r: i128)
    requires
        parent >= 0,
        otherwise >= 0,
    ensures
        r == resolve_size(*given, parent as int, otherwise as int),
        0 <= r <= 0x1_0000_0000_0000_0000_0000_0000,
{
    match given {
        Some(Size::Points(v)) => *v as i128,
        Some(Size::Percent(p)) => percent(parent, *p),
        None => otherwise as i128,
    }
}

/// A position as it is given, `otherwise` where none is given.
fn position_of(given: &Option<LayoutExpr>, parent_start: i64, parent_size: i64, otherwise: i64) -> (r:
    i128)
    requires
        parent_size >= 0,
    ensures
        r == resolve_position(*given, parent_start as int, parent_size as int, otherwise as int),
        -0x1_0000_0000_0000_0000_0000_0000_0000 <= r <= 0x1_0000_0000_0000_0000_0000_0000_0000,
{
    match given {
        Some(LayoutExpr::Points(v)) => parent_start as i128 + *v as i128,
        Some(LayoutExpr::Percent(p)) => parent_start as i128 + percent(parent_size, *p),
        None => otherwise as i128,
    }
}

/// The rectangle of the four numbers, where it fits the machine's coordinates.
fn to_rectangle(x: i128, y: i128, width: i128, height: i128) -> (r: Option<Rectangle>)
    requires
        -0x1_0000_0000_0000_0000_0000_0000_0000 <= x <= 0x1_0000_0000_0000_0000_0000_0000_0000,
        -0x1_0000_0000_0000_0000_0000_0000_0000 <= y <= 0x1_0000_0000_0000_0000_0000_0000_0000,
        0 <= width <= 0x1_0000_0000_0000_0000_0000_0000,
        0 <= height <= 0x1_0000_0000_0000_0000_0000_0000,
    ensures
        match r {
            Some(rect) => rect@ == (Geometry {
                x: x as int,
                y: y as int,
                width: width as int,
                height: height as int,
            }) && rect@.fits(),
            None => !(Geometry {
                x: x as int,
                y: y as int,
                width: width as int,
                height: height as int,
            }).fits(),
        },
{
    let low: i128 = -0x8000_0000_0000_0000;
    let high: i128 = 0x7fff_ffff_ffff_ffff;
    if low <= x && x <= high && low <= y && y <= high && width <= high && height <= high && x
        + width <= high && y + height <= high {
        Some(Rectangle { x: x as i64, y: y as i64, width: width as i64, height: height as i64 })
    } else {
        None
    }
}

/// Writing a rectangle into the map writes its geometry into the map's geometry.
pub proof fn lemma_geometry_map_insert(rects: Map<u32, Rectangle>, id: u32, rect: Rectangle)
    ensures
        geometry_map(rects.insert(id, rect)) == geometry_map(rects).insert(id, rect@),
{
    assert(geometry_map(rects.insert(id, rect)) =~= geometry_map(rects).insert(id, rect@));
}

/// Places a measured subtree top-down: `node` occupies `rect`, and its
/// children are laid out in it. The rectangles are written to `out` under the
/// nodes' ids.
pub fn place(
    node: &Node,
    sizes: &SizeTree,
    rect: Rectangle,
    ctx: &LayoutContext,
    out: &mut HashMap<u32, Rectangle>,
) -> (r: Result<(), RenderError>)
    requires
        sizes.agrees(*node, *ctx),
        rect.width >= 0,
        rect.height >= 0,
        rect@.fits(),
    ensures
        match r {
            Ok(()) => place_failure(*node, rect@, *ctx) is None && geometry_map(
                final(out)@,
            ) == placed(*node, rect@, *ctx, geometry_map(old(out)@)),
            Err(e) => place_failure(*node, rect@, *ctx) == Some(e),
        },
    decreases node,
{
    let row = *node.row.at_step(ctx.step);
    let reverse = *node.reverse.at_step(ctx.step);
    let n = node.children.len();
    out.insert(node.node_id.as_u32(), rect);
    proof {
        lemma_geometry_map_insert(old(out)@, node.node_id.0, rect);
    }
    let ghost start = geometry_map(old(out)@).insert(node.node_id.0, rect@);
    let mut cursor: i64 = if row {
        rect.x
    } else {
        rect.y
    };
    let mut k: usize = 0;
    while k < n
        invariant
            k <= n,
            n == node.children@.len(),
            row == node.row.value_at(ctx.step),
            reverse == node.reverse.value_at(ctx.step),
            sizes.agrees(*node, *ctx),
            rect.width >= 0,
            rect.height >= 0,
            rect@.fits(),
            cursor == cursor_at(*node, rect@, *ctx, k as int),
            children_failure(*node, rect@, *ctx, k as int) is None,
            geometry_map(out@) == placed_children(*node, rect@, *ctx, k as int, start),
        decreases n - k,
    {
        let index = if reverse {
            n - 1 - k
        } else {
            k
        };
        let child = &node.children[index];
        let child_sizes = &sizes.children[index];
        assert(index == layout_index(*node, ctx.step, k as int));
        assert(sizes.children@[index as int].agrees(node.children@[index as int], *ctx));
        let ghost geometry = child_geometry_at(*node, rect@, *ctx, k as int);
        let x = position_of(child.x.at_step(ctx.step), rect.x, rect.width, if row {
            cursor
        } else {
            rect.x
        });
        let y = position_of(child.y.at_step(ctx.step), rect.y, rect.height, if row {
            rect.y
        } else {
            cursor
        });
        let width = size_of(child.width.at_step(ctx.step), rect.width, if row {
            child_sizes.width
        } else {
            rect.width
        });
        let height = size_of(child.height.at_step(ctx.step), rect.height, if row {
            rect.height
        } else {
            child_sizes.height
        });
        assert(geometry == (Geometry {
            x: x as int,
            y: y as int,
            width: width as int,
            height: height as int,
        }));
        let child_rect = match to_rectangle(x, y, width, height) {
            Some(r) => r,
            None => {
                proof {
                    lemma_place_failure_stays(*node, rect@, *ctx, k + 1, n as int);
                }
                return Err(
                    RenderError { kind: RenderErrorKind::OutOfRange, node_id: child.node_id },
                );
            },
        };
        match place(child, child_sizes, child_rect, ctx, out) {
            Ok(()) => {},
            Err(e) => {
                proof {
                    lemma_place_failure_stays(*node, rect@, *ctx, k + 1, n as int);
                }
                return Err(e);
            },
        }
        cursor = if row {
            child_rect.x + child_rect.width
        } else {
            child_rect.y + child_rect.height
        };
        k += 1;
    }
    Ok(())
}

/// The rectangle of every node of a slide at one step, by node id.
#[derive(Debug)]
pub struct ComputedLayout {
    pub rects: HashMap<u32, Rectangle>,
}

impl View for ComputedLayout {
    type V = Map<u32, Geometry>;

    open spec fn view(&self) -> Map<u32, Geometry> {
        geometry_map(self.rects@)
    }
}

impl ComputedLayout {
    /// The rectangle of a node, `None` for a node that the layout does not hold.
    pub fn rect(&self, node_id: NodeId) -> (r: Option<Rectangle>)
        ensures
            r == if self.rects@.contains_key(node_id.0) {
                Some(self.rects@[node_id.0])
            } else {
                None
            },
    {
        match self.rects.get(&node_id.as_u32()) {
            Some(rect) => Some(*rect),
            None => None,
        }
    }

    /// Position and size of a node: `(x, y, width, height)`.
    pub fn xywh(&self, node_id: NodeId) -> (r: Option<(i64, i64, i64, i64)>)
        ensures
            r == if self.rects@.contains_key(node_id.0) {
                let rect = self.rects@[node_id.0];
                Some((rect.x, rect.y, rect.width, rect.height))
            } else {
                None
            },
    {
        match self.rect(node_id) {
            Some(rect) => Some((rect.x, rect.y, rect.width, rect.height)),
            None => None,
        }
    }

    /// Position of a node: `(x, y)`.
    pub fn xy(&self, node_id: NodeId) -> (r: Option<(i64, i64)>)
        ensures
            r == if self.rects@.contains_key(node_id.0) {
                let rect = self.rects@[node_id.0];
                Some((rect.x, rect.y))
            } else {
                None
            },
    {
        match self.rect(node_id) {
            Some(rect) => Some((rect.x, rect.y)),
            None => None,
        }
    }
}

/// The canvas of a slide: it starts at the origin.
pub open spec fn canvas(width: u32, height: u32) -> Geometry {
    Geometry { x: 0, y: 0, width: width as int, height: height as int }
}

/// The rectangle of a slide's root: what the box model gives a child of the
/// canvas. A position or a size that the root is given is honoured as it is
/// for every node; where none is given the root starts where the canvas
/// starts and is as large as the canvas.
pub open spec fn root_geometry(root: Node, width: u32, height: u32, step: Step) -> Geometry {
    child_geometry(canvas(width, height), false, root, step, (width as int, height as int), 0)
}

/// Why the tree under `root` cannot be laid out on a canvas of that size, if it
/// cannot: the first failure of measuring, else the root where its rectangle
/// does not fit the coordinates, else the first failure of placing.
pub open spec fn layout_failure(root: Node, width: u32, height: u32, ctx: LayoutContext) -> Option<
    RenderError,
> {
    match measured(root, ctx) {
        Err(e) => Some(e),
        Ok(_) => if root_geometry(root, width, height, ctx.step).fits() {
            place_failure(root, root_geometry(root, width, height, ctx.step), ctx)
        } else {
            Some(RenderError { kind: RenderErrorKind::OutOfRange, node_id: root.node_id })
        },
    }
}

/// The layout of the tree under `root` on a canvas of that size: the root
/// occupies `root_geometry`, and its descendants are placed in it.
pub open spec fn layout_of(root: Node, width: u32, height: u32, ctx: LayoutContext) -> Map<
    u32,
    Geometry,
> {
    placed(root, root_geometry(root, width, height, ctx.step), ctx, Map::empty())
}

/// `result` is what the layout of the tree under `root` comes to: the layout
/// where there is no failure, else the first failure.
pub open spec fn is_layout_result(
    result: Result<ComputedLayout, RenderError>,
    root: Node,
    width: u32,
    height: u32,
    ctx: LayoutContext,
) -> bool {
    match result {
        Ok(layout) => layout_failure(root, width, height, ctx) is None && layout@ == layout_of(
            root,
            width,
            height,
            ctx,
        ),
        Err(e) => layout_failure(root, width, height, ctx) == Some(e),
    }
}

impl<'a> LayoutContext<'a> {
    pub fn new(
        resources: &'a Resources,
        default_style: &'a TextStyle,
        step: Step,
    ) -> (r: Self)
        ensures
            r == (LayoutContext { resources, default_style, step }),
    {
        LayoutContext { resources, default_style, step }
    }

    /// Lays out the tree under `root` on a canvas of the given size, at the
    /// step of the context: measures bottom-up, then places top-down.
    pub fn compute_layout(&self, root: &Node, width: u32, height: u32) -> (r: Result<
        ComputedLayout,
        RenderError,
    >)
        ensures
            is_layout_result(r, *root, width, height, *self),
    {
        let sizes = match measure(root, self) {
            Ok(sizes) => sizes,
            Err(e) => {
                return Err(e);
            },
        };
        let mut rects: HashMap<u32, Rectangle> = HashMap::new();
        let x = position_of(root.x.at_step(self.step), 0, width as i64, 0);
        let y = position_of(root.y.at_step(self.step), 0, height as i64, 0);
        let w = size_of(root.width.at_step(self.step), width as i64, width as i64);
        let h = size_of(root.height.at_step(self.step), height as i64, height as i64);
        let rect = match to_rectangle(x, y, w, h) {
            Some(rect) => rect,
            None => {
                return Err(
                    RenderError { kind: RenderErrorKind::OutOfRange, node_id: root.node_id },
                );
            },
        };
        proof {
            assert(geometry_map(rects@) =~= Map::<u32, Geometry>::empty());
        }
        match place(root, &sizes, rect, self, &mut rects) {
            Ok(()) => Ok(ComputedLayout { rects }),
            Err(e) => Err(e),
        }
    }
}


/// The rectangles of a layout as the machine holds them.
pub open spec fn rectangles(layout: Map<u32, Geometry>) -> Map<u32, Rectangle> {
    layout.map_values(
        |g: Geometry|
            Rectangle { x: g.x as i64, y: g.y as i64, width: g.width as i64, height: g.height as i64 },
    )
}

/// A layout holds the rectangles of its geometry.
pub proof fn lemma_rectangles_of_layout(layout: ComputedLayout)
    ensures
        rectangles(layout@) == layout.rects@,
{
    assert(rectangles(geometry_map(layout.rects@)) =~= layout.rects@);
}

/// Determinism: the layout is a function of the tree, the canvas, the step and
/// the tables. Two layouts of the same input fail alike or hold, for the same
/// nodes, the same rectangles to the last bit.
pub proof fn law_layout_is_deterministic(
    first: Result<ComputedLayout, RenderError>,
    second: Result<ComputedLayout, RenderError>,
    root: Node,
    width: u32,
    height: u32,
    ctx: LayoutContext,
)
    requires
        is_layout_result(first, root, width, height, ctx),
        is_layout_result(second, root, width, height, ctx),
    ensures
        match (first, second) {
            (Ok(a), Ok(b)) => a.rects@ == b.rects@,
            (Err(a), Err(b)) => a == b,
            _ => false,
        },
{
    if let Ok(a) = first {
        if let Ok(b) = second {
            lemma_rectangles_of_layout(a);
            lemma_rectangles_of_layout(b);
        }
    }
}

/// The sizes, along the main axis, of the first `k` children in layout order,
/// added up.
pub open spec fn flow_extent(
    node: Node,
    rect: Geometry,
    ctx: LayoutContext,
    k: int,
) -> int
    decreases k,
{
    if k <= 0 {
        0
    } else {
        flow_extent(node, rect, ctx, k - 1) + child_geometry_at(
            node,
            rect,
            ctx,
            k - 1,
        ).main_size(node.row.value_at(ctx.step))
    }
}

/// The position that is given to `child` along the main axis of a row (`x`) or
/// of a column (`y`), at `step`.
pub open spec fn main_position(child: Node, row: bool, step: Step) -> Option<LayoutExpr> {
    if row {
        child.x.value_at(step)
    } else {
        child.y.value_at(step)
    }
}

/// The position that is given to `child` across the main axis.
pub open spec fn cross_position(child: Node, row: bool, step: Step) -> Option<LayoutExpr> {
    if row {
        child.y.value_at(step)
    } else {
        child.x.value_at(step)
    }
}

/// The size that is given to `child` across the main axis.
pub open spec fn cross_size(child: Node, row: bool, step: Step) -> Option<Size> {
    if row {
        child.height.value_at(step)
    } else {
        child.width.value_at(step)
    }
}

/// The size that is given to `child` along the main axis.
pub open spec fn main_size(child: Node, row: bool, step: Step) -> Option<Size> {
    if row {
        child.width.value_at(step)
    } else {
        child.height.value_at(step)
    }
}

/// Box model, one child: a child without a given position starts, along the
/// main axis, where the child before it in layout order ends (the first one
/// where its parent starts), and across it where its parent starts. Without a
/// given size across the main axis it is as large as its parent there. A size
/// given in slide units is the child's size, a size left open along the main
/// axis is the size the child asks for.
pub proof fn law_flow_step(
    node: Node,
    rect: Geometry,
    ctx: LayoutContext,
    k: int,
)
    requires
        0 <= k < node.children@.len(),
    ensures
        ({
            let row = node.row.value_at(ctx.step);
            let child = node.children@[layout_index(node, ctx.step, k)];
            let g = child_geometry_at(node, rect, ctx, k);
            let asked = preferred_size(child, ctx);
            &&& main_position(child, row, ctx.step) is None && k == 0 ==> g.main_start(row)
                == rect.main_start(row)
            &&& main_position(child, row, ctx.step) is None && k > 0 ==> g.main_start(row)
                == child_geometry_at(node, rect, ctx, k - 1).main_end(row)
            &&& cross_position(child, row, ctx.step) is None ==> g.main_start(!row)
                == rect.main_start(!row)
            &&& cross_size(child, row, ctx.step) is None ==> g.main_size(!row) == rect.main_size(
                !row,
            )
            &&& main_size(child, row, ctx.step) is None ==> g.main_size(row) == if row {
                asked.0
            } else {
                asked.1
            }
            &&& main_size(child, row, ctx.step) matches Some(Size::Points(v)) ==> g.main_size(row)
                == v
            &&& cross_size(child, row, ctx.step) matches Some(Size::Points(v)) ==> g.main_size(
                !row,
            ) == v
        }),
{
}

/// Box model, the whole flow: where none of the first `k + 1` children in
/// layout order has a given position along the main axis, child number `k`
/// starts at the parent's start plus the sizes of the children before it.
pub proof fn law_flow_offsets(
    node: Node,
    rect: Geometry,
    ctx: LayoutContext,
    k: int,
)
    requires
        0 <= k < node.children@.len(),
        forall|j: int|
            0 <= j <= k ==> main_position(
                #[trigger] node.children@[layout_index(node, ctx.step, j)],
                node.row.value_at(ctx.step),
                ctx.step,
            ) is None,
    ensures
        child_geometry_at(node, rect, ctx, k).main_start(node.row.value_at(ctx.step))
            == rect.main_start(node.row.value_at(ctx.step)) + flow_extent(node, rect, ctx, k),
    decreases k,
{
    let row = node.row.value_at(ctx.step);
    assert(main_position(node.children@[layout_index(node, ctx.step, k)], row, ctx.step) is None);
    if k > 0 {
        law_flow_offsets(node, rect, ctx, k - 1);
    }
}

/// Reversal: where a node is reversed at a step, its children are laid out
/// from the last one added to the first, so that the flow starts with the
/// last child; the tree itself stays as it is.
pub proof fn law_reverse_flips_flow(
    node: Node,
    rect: Geometry,
    ctx: LayoutContext,
    k: int,
)
    requires
        0 <= k < node.children@.len(),
        node.reverse.value_at(ctx.step),
    ensures
        layout_index(node, ctx.step, k) == node.children@.len() - 1 - k,
        main_position(node.children@.last(), node.row.value_at(ctx.step), ctx.step) is None
            ==> child_geometry_at(node, rect, ctx, 0).main_start(
            node.row.value_at(ctx.step),
        ) == rect.main_start(node.row.value_at(ctx.step)),
{
}


/// Placing a subtree writes only under the ids of the subtree.
pub proof fn lemma_placed_keeps_others(
    node: Node,
    rect: Geometry,
    ctx: LayoutContext,
    map: Map<u32, Geometry>,
    id: u32,
)
    requires
        !node.has_id(id),
    ensures
        placed(node, rect, ctx, map).contains_key(id) == map.contains_key(id),
        placed(node, rect, ctx, map)[id] == map[id],
    decreases node, node.children@.len() + 1,
{
    assert forall|j: int| 0 <= j < node.children@.len() implies !(#[trigger] node.children@[layout_index(
        node,
        ctx.step,
        j,
    )]).has_id(id) by {
        let i = layout_index(node, ctx.step, j);
        if node.children@[i].has_id(id) {
            Node::lemma_child_id(node.children@, i, id);
        }
    }
    lemma_placed_children_keep_others(
        node,
        rect,
        ctx,
        node.children@.len() as int,
        map.insert(node.node_id.0, rect),
        id,
    );
}

/// Placing children writes only under the ids of their subtrees.
pub proof fn lemma_placed_children_keep_others(
    node: Node,
    rect: Geometry,
    ctx: LayoutContext,
    k: int,
    map: Map<u32, Geometry>,
    id: u32,
)
    requires
        0 <= k <= node.children@.len(),
        forall|j: int|
            0 <= j < k ==> !(#[trigger] node.children@[layout_index(node, ctx.step, j)]).has_id(id),
    ensures
        placed_children(node, rect, ctx, k, map).contains_key(id) == map.contains_key(id),
        placed_children(node, rect, ctx, k, map)[id] == map[id],
    decreases node, k,
{
    if k > 0 {
        lemma_placed_children_keep_others(node, rect, ctx, k - 1, map, id);
        let child = node.children@[layout_index(node, ctx.step, k - 1)];
        assert(!child.has_id(id));
        lemma_placed_keeps_others(
            child,
            child_geometry_at(node, rect, ctx, k - 1),
            ctx,
            placed_children(node, rect, ctx, k - 1, map),
            id,
        );
    }
}

/// The layout holds, under a node's id, the rectangle that the node occupies,
/// as long as no descendant has the same id.
pub proof fn law_layout_holds_node(
    node: Node,
    rect: Geometry,
    ctx: LayoutContext,
    map: Map<u32, Geometry>,
)
    requires
        !Node::children_have_id(node.children@, node.node_id.0),
    ensures
        placed(node, rect, ctx, map).contains_key(node.node_id.0),
        placed(node, rect, ctx, map)[node.node_id.0] == rect,
{
    let id = node.node_id.0;
    assert forall|j: int| 0 <= j < node.children@.len() implies !(#[trigger] node.children@[layout_index(
        node,
        ctx.step,
        j,
    )]).has_id(id) by {
        let i = layout_index(node, ctx.step, j);
        if node.children@[i].has_id(id) {
            Node::lemma_child_id(node.children@, i, id);
        }
    }
    lemma_placed_children_keep_others(
        node,
        rect,
        ctx,
        node.children@.len() as int,
        map.insert(id, rect),
        id,
    );
}

/// The layout holds, under the id of a child, the rectangle that the box
/// model gives the child, as long as no two nodes of the tree share an id.
pub proof fn law_layout_holds_child(
    node: Node,
    rect: Geometry,
    ctx: LayoutContext,
    map: Map<u32, Geometry>,
    k: int,
)
    requires
        0 <= k < node.children@.len(),
        node.unique_ids(),
    ensures
        ({
            let child = node.children@[layout_index(node, ctx.step, k)];
            let all = placed(node, rect, ctx, map);
            all.contains_key(child.node_id.0) && all[child.node_id.0] == child_geometry_at(
                node,
                rect,
                ctx,
                k,
            )
        }),
{
    let n = node.children@.len() as int;
    let start = map.insert(node.node_id.0, rect);
    let index = layout_index(node, ctx.step, k);
    let child = node.children@[index];
    let id = child.node_id.0;
    let geometry = child_geometry_at(node, rect, ctx, k);
    assert(child.unique_ids());
    law_layout_holds_node(
        child,
        geometry,
        ctx,
        placed_children(node, rect, ctx, k, start),
    );
    lemma_later_children_keep(node, rect, ctx, k + 1, n, start, id, index);
}

/// The children laid out after a child do not write under the child's id.
proof fn lemma_later_children_keep(
    node: Node,
    rect: Geometry,
    ctx: LayoutContext,
    from: int,
    to: int,
    map: Map<u32, Geometry>,
    id: u32,
    index: int,
)
    requires
        0 < from <= to <= node.children@.len(),
        index == layout_index(node, ctx.step, from - 1),
        node.children@[index].has_id(id),
        node.unique_ids(),
    ensures
        placed_children(node, rect, ctx, to, map).contains_key(id) == placed_children(
            node,
            rect,
            ctx,
            from,
            map,
        ).contains_key(id),
        placed_children(node, rect, ctx, to, map)[id] == placed_children(
            node,
            rect,
            ctx,
            from,
            map,
        )[id],
    decreases to - from,
{
    if from < to {
        lemma_later_children_keep(node, rect, ctx, from, to - 1, map, id, index);
        let other = layout_index(node, ctx.step, to - 1);
        assert(other != index);
        assert(!node.children@[other].has_id(id));
        lemma_placed_keeps_others(
            node.children@[other],
            child_geometry_at(node, rect, ctx, to - 1),
            ctx,
            placed_children(node, rect, ctx, to - 1, map),
            id,
        );
    }
}


/// Placing a subtree keeps what the map holds and adds every id of the subtree.
pub proof fn lemma_placed_covers(
    node: Node,
    rect: Geometry,
    ctx: LayoutContext,
    map: Map<u32, Geometry>,
)
    ensures
        forall|id: u32| #[trigger]
            map.contains_key(id) ==> placed(node, rect, ctx, map).contains_key(id),
        forall|id: u32| #[trigger]
            node.has_id(id) ==> placed(node, rect, ctx, map).contains_key(id),
    decreases node, node.children@.len() + 1,
{
    let n = node.children@.len() as int;
    let start = map.insert(node.node_id.0, rect);
    lemma_placed_children_cover(node, rect, ctx, n, start);
    assert forall|id: u32| #[trigger] node.has_id(id) implies placed(
        node,
        rect,
        ctx,
        map,
    ).contains_key(id) by {
        if id != node.node_id.0 {
            Node::lemma_children_ids(node.children@, id);
            let i = choose|i: int|
                0 <= i < node.children@.len() && (#[trigger] node.children@[i]).has_id(id);
            let k = if node.reverse.value_at(ctx.step) {
                n - 1 - i
            } else {
                i
            };
            assert(layout_index(node, ctx.step, k) == i);
            assert(node.children@[layout_index(node, ctx.step, k)].has_id(id));
        } else {
            assert(start.contains_key(id));
        }
    }
    assert forall|id: u32| #[trigger] map.contains_key(id) implies placed(
        node,
        rect,
        ctx,
        map,
    ).contains_key(id) by {
        assert(start.contains_key(id));
    }
}

/// Placing children keeps what the map holds and adds every id of their
/// subtrees.
pub proof fn lemma_placed_children_cover(
    node: Node,
    rect: Geometry,
    ctx: LayoutContext,
    k: int,
    map: Map<u32, Geometry>,
)
    requires
        0 <= k <= node.children@.len(),
    ensures
        forall|id: u32| #[trigger]
            map.contains_key(id) ==> placed_children(node, rect, ctx, k, map).contains_key(
                id,
            ),
        forall|j: int, id: u32|
            0 <= j < k && (#[trigger] node.children@[layout_index(node, ctx.step, j)].has_id(id))
                ==> placed_children(node, rect, ctx, k, map).contains_key(id),
    decreases node, k,
{
    if k > 0 {
        let before = placed_children(node, rect, ctx, k - 1, map);
        let child = node.children@[layout_index(node, ctx.step, k - 1)];
        lemma_placed_children_cover(node, rect, ctx, k - 1, map);
        lemma_placed_covers(
            child,
            child_geometry_at(node, rect, ctx, k - 1),
            ctx,
            before,
        );
        assert forall|id: u32| #[trigger] map.contains_key(id) implies placed_children(
            node,
            rect,
            ctx,
            k,
            map,
        ).contains_key(id) by {
            assert(before.contains_key(id));
        }
        assert forall|j: int, id: u32|
            0 <= j < k && (#[trigger] node.children@[layout_index(node, ctx.step, j)].has_id(
                id,
            )) implies placed_children(node, rect, ctx, k, map).contains_key(id) by {
            if j < k - 1 {
                assert(before.contains_key(id));
            } else {
                assert(child.has_id(id));
            }
        }
    }
}

/// Children that can be measured together can each be measured.
pub proof fn lemma_each_child_measured(
    kids: Seq<Node>,
    ctx: LayoutContext,
    row: bool,
    i: int,
)
    requires
        0 <= i < kids.len(),
        measured_children(kids, ctx, row) is Ok,
    ensures
        measured(kids[i], ctx) is Ok,
    decreases kids.len(),
{
    if i < kids.len() - 1 {
        lemma_each_child_measured(kids.drop_last(), ctx, row, i);
    }
}


/// No rectangle of the map has a negative width or height.
pub open spec fn sizes_not_negative(map: Map<u32, Geometry>) -> bool {
    forall|id: u32| #[trigger] map.contains_key(id) ==> map[id].width >= 0 && map[id].height >= 0
}

/// A child of a box whose size is not negative has a size that is not negative.
pub proof fn lemma_child_size_not_negative(
    node: Node,
    rect: Geometry,
    ctx: LayoutContext,
    k: int,
)
    requires
        0 <= k < node.children@.len(),
        rect.width >= 0,
        rect.height >= 0,
    ensures
        child_geometry_at(node, rect, ctx, k).width >= 0,
        child_geometry_at(node, rect, ctx, k).height >= 0,
{
    let child = node.children@[layout_index(node, ctx.step, k)];
    law_sizes_are_not_negative(child, ctx);
    if let Some(Size::Percent(p)) = child.width.value_at(ctx.step) {
        assert(rect.width * (p as int) / 100 >= 0) by (nonlinear_arith)
            requires
                rect.width >= 0,
                p >= 0,
        ;
    }
    if let Some(Size::Percent(p)) = child.height.value_at(ctx.step) {
        assert(rect.height * (p as int) / 100 >= 0) by (nonlinear_arith)
            requires
                rect.height >= 0,
                p >= 0,
        ;
    }
}

/// Placing a box whose size is not negative adds no rectangle of negative
/// width or height.
pub proof fn lemma_placed_not_negative(
    node: Node,
    rect: Geometry,
    ctx: LayoutContext,
    map: Map<u32, Geometry>,
)
    requires
        rect.width >= 0,
        rect.height >= 0,
        sizes_not_negative(map),
    ensures
        sizes_not_negative(placed(node, rect, ctx, map)),
    decreases node, node.children@.len() + 1,
{
    lemma_placed_children_not_negative(
        node,
        rect,
        ctx,
        node.children@.len() as int,
        map.insert(node.node_id.0, rect),
    );
}

/// Placing the children of a box whose size is not negative adds no rectangle
/// of negative width or height.
pub proof fn lemma_placed_children_not_negative(
    node: Node,
    rect: Geometry,
    ctx: LayoutContext,
    k: int,
    map: Map<u32, Geometry>,
)
    requires
        0 <= k <= node.children@.len(),
        rect.width >= 0,
        rect.height >= 0,
        sizes_not_negative(map),
    ensures
        sizes_not_negative(placed_children(node, rect, ctx, k, map)),
    decreases node, k,
{
    if k > 0 {
        lemma_placed_children_not_negative(node, rect, ctx, k - 1, map);
        lemma_child_size_not_negative(node, rect, ctx, k - 1);
        lemma_placed_not_negative(
            node.children@[layout_index(node, ctx.step, k - 1)],
            child_geometry_at(node, rect, ctx, k - 1),
            ctx,
            placed_children(node, rect, ctx, k - 1, map),
        );
    }
}

/// No negative geometry: in the layout of a slide no rectangle has a negative
/// width or height.
pub proof fn law_layout_sizes_are_not_negative(
    root: Node,
    width: u32,
    height: u32,
    ctx: LayoutContext,
)
    ensures
        sizes_not_negative(layout_of(root, width, height, ctx)),
{
    let w = width as int;
    let h = height as int;
    if let Some(Size::Percent(p)) = root.width.value_at(ctx.step) {
        assert(w * (p as int) / 100 >= 0) by (nonlinear_arith)
            requires
                w >= 0,
                p >= 0,
        ;
    }
    if let Some(Size::Percent(p)) = root.height.value_at(ctx.step) {
        assert(h * (p as int) / 100 >= 0) by (nonlinear_arith)
            requires
                h >= 0,
                p >= 0,
        ;
    }
    lemma_placed_not_negative(
        root,
        root_geometry(root, width, height, ctx.step),
        ctx,
        Map::empty(),
    );
}

} // verus!
