//! The order in which a complete quadtree lays its nodes out in one
//! sequence: the model that the tree is held against.

use crate::rect2d::{Point, Rect2D};
use vstd::prelude::*;

verus! {

/// What a node of the tree holds, as plain values.
pub struct NodeView {
    /// The region that the node covers.
    pub bounds: Rect2D,
    /// The indices of the four children, or `None` on the deepest level.
    pub children: Option<Seq<usize>>,
}

/// The number of nodes below a node that has `levels` levels beneath it.
pub open spec fn descendant_count(levels: nat) -> nat
    decreases levels,
{
    if levels == 0 {
        0
    } else {
        4 + 4 * descendant_count((levels - 1) as nat)
    }
}

/// The number of nodes of a tree of the given depth.
pub open spec fn node_count(depth: nat) -> nat {
    1 + descendant_count(depth)
}

/// Four consecutive indices, starting at `first`.
pub open spec fn child_indices(first: int) -> Seq<usize> {
    seq![first as usize, (first + 1) as usize, (first + 2) as usize, (first + 3) as usize]
}

/// Where the nodes below the `k`-th child of a node start, when the node's
/// own children start at `start` and the node has `levels` levels beneath it.
pub open spec fn block_start(levels: nat, start: int, k: int) -> int {
    start + 4 + k * descendant_count((levels - 1) as nat)
}

/// The four children of a node with the given bounds, as they stand in the
/// tree once it is complete.
pub open spec fn child_row(bounds: Rect2D, levels: nat, start: int) -> Seq<NodeView> {
    Seq::new(
        4,
        |k: int|
            NodeView {
                bounds: bounds.spec_quadrants()[k],
                children: if levels <= 1 {
                    None
                } else {
                    Some(child_indices(block_start(levels, start, k)))
                },
            },
    )
}

/// The nodes below the first `k` children of a node, one child's block after
/// the other.
pub open spec fn blocks(bounds: Rect2D, levels: nat, start: int, k: nat) -> Seq<NodeView>
    decreases levels, k,
{
    if levels == 0 || k == 0 {
        Seq::empty()
    } else {
        blocks(bounds, levels, start, (k - 1) as nat) + descendants(
            bounds.spec_quadrants()[k - 1],
            (levels - 1) as nat,
            block_start(levels, start, k - 1),
        )
    }
}

/// All nodes below a node with the given bounds and `levels` levels beneath
/// it, in the order in which they stand in the tree from index `start` on:
/// the four children first, then everything below the first child,
/// everything below the second, and so on.
pub open spec fn descendants(bounds: Rect2D, levels: nat, start: int) -> Seq<NodeView>
    decreases levels, 5nat,
{
    if levels == 0 {
        Seq::empty()
    } else {
        child_row(bounds, levels, start) + blocks(bounds, levels, start, 4)
    }
}

/// The complete tree over `world` with `depth` levels below the root.
pub open spec fn layout(world: Rect2D, depth: nat) -> Seq<NodeView> {
    seq![
        NodeView {
            bounds: world,
            children: if depth == 0 {
                None
            } else {
                Some(child_indices(1))
            },
        },
    ] + descendants(world, depth, 1)
}

/// The rectangle of the given size, centered at the origin.
pub open spec fn world_rect(size: Point) -> Rect2D {
    Rect2D {
        min: Point { x: (-(size.x / 2)) as i64, y: (-(size.y / 2)) as i64 },
        max: Point { x: (size.x / 2) as i64, y: (size.y / 2) as i64 },
    }
}

/// The block below `k` children holds `k` times the nodes below one child.
pub proof fn lemma_blocks_len(bounds: Rect2D, levels: nat, start: int, k: nat)
    requires
        levels >= 1,
    ensures
        blocks(bounds, levels, start, k).len() == k * descendant_count((levels - 1) as nat),
    decreases levels, k,
{
    let d = descendant_count((levels - 1) as nat);
    if k > 0 {
        lemma_blocks_len(bounds, levels, start, (k - 1) as nat);
        lemma_descendants_len(
            bounds.spec_quadrants()[k - 1],
            (levels - 1) as nat,
            block_start(levels, start, k - 1),
        );
        assert(blocks(bounds, levels, start, k) == blocks(bounds, levels, start, (k - 1) as nat)
            + descendants(
            bounds.spec_quadrants()[k - 1],
            (levels - 1) as nat,
            block_start(levels, start, k - 1),
        ));
        assert(k * d == (k - 1) * d + d) by (nonlinear_arith);
    } else {
        assert(k * d == 0) by (nonlinear_arith)
            requires
                k == 0,
        ;
    }
}

/// The nodes below a node are as many as `descendant_count` says.
pub proof fn lemma_descendants_len(bounds: Rect2D, levels: nat, start: int)
    ensures
        descendants(bounds, levels, start).len() == descendant_count(levels),
    decreases levels, 5nat,
{
    if levels > 0 {
        lemma_blocks_len(bounds, levels, start, 4);
    }
}

} // verus!
