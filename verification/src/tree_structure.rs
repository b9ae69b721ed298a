//! How the nodes of a complete quadtree refer to each other: what follows
//! from the order in which the tree lays its nodes out.

use crate::rect2d::{lemma_intersect_outer, lemma_quadrants_within, Rect2D};
use crate::tree_layout::{
    block_start, blocks, child_indices, child_row, descendant_count, descendants, layout,
    lemma_blocks_len, lemma_descendants_len, node_count, NodeView,
};
use vstd::prelude::*;

verus! {

/// The node at `i` is a leaf, or its four children stand at consecutive
/// indices behind it and cover its four quadrants in order.
pub open spec fn node_linked(t: Seq<NodeView>, i: int) -> bool {
    match t[i].children {
        None => true,
        Some(c) => {
            &&& c == child_indices(c[0] as int)
            &&& i < c[0]
            &&& c[0] + 3 < t.len()
            &&& forall|m: int|
                0 <= m < 4 ==> (#[trigger] t[c[0] + m]).bounds == t[i].bounds.spec_quadrants()[m]
        },
    }
}

/// The node at `j` is one of the four children of the node at `i`.
pub open spec fn is_child(t: Seq<NodeView>, i: int, j: int) -> bool {
    &&& 0 <= i < t.len()
    &&& t[i].children is Some
    &&& t[i].children.unwrap()[0] <= j <= t[i].children.unwrap()[0] + 3
}

/// The node at `j` is a child of a node that stands before it.
pub open spec fn has_parent(t: Seq<NodeView>, j: int) -> bool {
    exists|i: int| 0 <= i < j && #[trigger] is_child(t, i, j)
}

/// Every node is linked to its children, and every node but the root is the
/// child of a node before it.
pub open spec fn linked(t: Seq<NodeView>) -> bool {
    &&& t.len() >= 1
    &&& t.len() <= usize::MAX
    &&& forall|i: int| 0 <= i < t.len() ==> #[trigger] node_linked(t, i)
    &&& forall|j: int| 1 <= j < t.len() ==> #[trigger] has_parent(t, j)
}

/// A node with at least one level beneath it has at least four nodes below.
pub proof fn lemma_descendant_count_positive(levels: nat)
    requires
        levels >= 1,
    ensures
        descendant_count(levels) >= 4,
{
}

/// The entry at offset `off` of the block below the `kk`-th child is the
/// entry at `off` among that child's own descendants.
pub proof fn lemma_blocks_index(bounds: Rect2D, levels: nat, start: int, k: nat, kk: int, off: int)
    requires
        levels >= 1,
        0 <= kk < k,
        0 <= off < descendant_count((levels - 1) as nat),
    ensures
        0 <= kk * descendant_count((levels - 1) as nat) + off < blocks(
            bounds,
            levels,
            start,
            k,
        ).len(),
        blocks(bounds, levels, start, k)[kk * descendant_count((levels - 1) as nat) + off]
            == descendants(
            bounds.spec_quadrants()[kk],
            (levels - 1) as nat,
            block_start(levels, start, kk),
        )[off],
    decreases k,
{
    let d = descendant_count((levels - 1) as nat);
    let front = blocks(bounds, levels, start, (k - 1) as nat);
    let last = descendants(
        bounds.spec_quadrants()[k - 1],
        (levels - 1) as nat,
        block_start(levels, start, k - 1),
    );
    lemma_blocks_len(bounds, levels, start, k);
    lemma_blocks_len(bounds, levels, start, (k - 1) as nat);
    lemma_descendants_len(
        bounds.spec_quadrants()[k - 1],
        (levels - 1) as nat,
        block_start(levels, start, k - 1),
    );
    assert(blocks(bounds, levels, start, k) == front + last);
    assert(k * d == (k - 1) * d + d) by (nonlinear_arith);
    if kk == k - 1 {
        assert(kk * d >= 0) by (nonlinear_arith)
            requires
                kk >= 0,
                d >= 0,
        ;
    } else {
        lemma_blocks_index(bounds, levels, start, (k - 1) as nat, kk, off);
    }
}

/// The entry at offset `4 + kk * d + off` among the descendants of a node is
/// the entry at `off` among the descendants of its `kk`-th child.
pub proof fn lemma_descendants_index(bounds: Rect2D, levels: nat, start: int, kk: int, off: int)
    requires
        levels >= 1,
        0 <= kk < 4,
        0 <= off < descendant_count((levels - 1) as nat),
    ensures
        4 <= 4 + kk * descendant_count((levels - 1) as nat) + off < descendant_count(levels),
        descendants(bounds, levels, start)[4 + kk * descendant_count((levels - 1) as nat) + off]
            == descendants(
            bounds.spec_quadrants()[kk],
            (levels - 1) as nat,
            block_start(levels, start, kk),
        )[off],
{
    lemma_blocks_index(bounds, levels, start, 4, kk, off);
    lemma_blocks_len(bounds, levels, start, 4);
    lemma_descendants_len(bounds, levels, start);
}

/// Within a block of nodes that starts at index `start` of the tree, the
/// node at offset `j` is a leaf or is linked to four children inside the
/// block.
pub open spec fn block_node_linked(block: Seq<NodeView>, start: int, j: int) -> bool {
    match block[j].children {
        None => true,
        Some(c) => {
            &&& c == child_indices(c[0] as int)
            &&& start + j < c[0]
            &&& c[0] + 3 < start + block.len()
            &&& forall|m: int|
                0 <= m < 4 ==> (#[trigger] block[c[0] - start + m]).bounds
                    == block[j].bounds.spec_quadrants()[m]
        },
    }
}

/// The children of a node, which open the block of its descendants, are
/// linked to their own children.
proof fn lemma_row_linked(bounds: Rect2D, levels: nat, start: int, k: int)
    requires
        levels >= 1,
        0 <= start,
        start + descendant_count(levels) <= usize::MAX,
        0 <= k < 4,
    ensures
        descendants(bounds, levels, start).len() == descendant_count(levels),
        descendants(bounds, levels, start)[k].bounds == bounds.spec_quadrants()[k],
        block_node_linked(descendants(bounds, levels, start), start, k),
{
    let block = descendants(bounds, levels, start);
    let d = descendant_count((levels - 1) as nat);
    lemma_descendants_len(bounds, levels, start);
    assert(block[k] == child_row(bounds, levels, start)[k]);
    if levels > 1 {
        let first = block_start(levels, start, k);
        assert(0 <= k * d <= 3 * d) by (nonlinear_arith)
            requires
                0 <= k <= 3,
                d >= 0,
        ;
        lemma_descendant_count_positive((levels - 1) as nat);
        let c = block[k].children.unwrap();
        assert(c == child_indices(first));
        assert(c[0] == first);
        assert forall|m: int| 0 <= m < 4 implies (#[trigger] block[c[0] - start + m]).bounds
            == block[k].bounds.spec_quadrants()[m] by {
            lemma_descendants_index(bounds, levels, start, k, m);
            let inner = descendants(bounds.spec_quadrants()[k], (levels - 1) as nat, first);
            assert(inner[m] == child_row(bounds.spec_quadrants()[k], (levels - 1) as nat, first)[m]);
        }
    }
}

/// A node inside the block below the `kk`-th child is linked as it is
/// within that child's own descendants.
proof fn lemma_inner_linked(bounds: Rect2D, levels: nat, start: int, kk: int, off: int)
    requires
        levels >= 1,
        0 <= start,
        start + descendant_count(levels) <= usize::MAX,
        0 <= kk < 4,
        0 <= off < descendant_count((levels - 1) as nat),
    ensures
        block_node_linked(
            descendants(bounds, levels, start),
            start,
            4 + kk * descendant_count((levels - 1) as nat) + off,
        ),
    decreases levels, 0nat,
{
    let block = descendants(bounds, levels, start);
    let d = descendant_count((levels - 1) as nat);
    let first = block_start(levels, start, kk);
    let inner = descendants(bounds.spec_quadrants()[kk], (levels - 1) as nat, first);
    let j = 4 + kk * d + off;
    lemma_descendants_len(bounds, levels, start);
    lemma_descendants_len(bounds.spec_quadrants()[kk], (levels - 1) as nat, first);
    lemma_descendants_index(bounds, levels, start, kk, off);
    assert(0 <= kk * d && kk * d + d <= 4 * d) by (nonlinear_arith)
        requires
            0 <= kk <= 3,
            d >= 0,
    ;
    lemma_descendants_linked(bounds.spec_quadrants()[kk], (levels - 1) as nat, first, off);
    assert(block[j] == inner[off]);
    if block[j].children is Some {
        let c = block[j].children.unwrap();
        assert forall|m: int| 0 <= m < 4 implies (#[trigger] block[c[0] - start + m]).bounds
            == block[j].bounds.spec_quadrants()[m] by {
            lemma_descendants_index(bounds, levels, start, kk, c[0] - first + m);
            assert(block[c[0] - start + m] == inner[c[0] - first + m]);
        }
    }
}

/// Every node among the descendants of a node is a leaf or is linked to four
/// children among them.
pub proof fn lemma_descendants_linked(bounds: Rect2D, levels: nat, start: int, j: int)
    requires
        0 <= start,
        start + descendant_count(levels) <= usize::MAX,
        0 <= j < descendant_count(levels),
    ensures
        block_node_linked(descendants(bounds, levels, start), start, j),
    decreases levels, 1nat,
{
    let d = descendant_count((levels - 1) as nat);
    if j < 4 {
        lemma_row_linked(bounds, levels, start, j);
    } else if j - 4 < d {
        lemma_inner_linked(bounds, levels, start, 0, j - 4);
    } else if j - 4 < 2 * d {
        lemma_inner_linked(bounds, levels, start, 1, j - 4 - d);
    } else if j - 4 < 3 * d {
        lemma_inner_linked(bounds, levels, start, 2, j - 4 - 2 * d);
    } else {
        lemma_inner_linked(bounds, levels, start, 3, j - 4 - 3 * d);
    }
}

/// Within a block of nodes that starts at index `start` of the tree, the
/// node at offset `j` is a child of the node at offset `i`.
pub open spec fn block_is_child(block: Seq<NodeView>, start: int, i: int, j: int) -> bool {
    &&& 0 <= i < block.len()
    &&& block[i].children is Some
    &&& block[i].children.unwrap()[0] <= start + j <= block[i].children.unwrap()[0] + 3
}

/// Within a block, the node at offset `j` is a child of a node before it.
pub open spec fn block_has_parent(block: Seq<NodeView>, start: int, j: int) -> bool {
    exists|i: int| 0 <= i < j && #[trigger] block_is_child(block, start, i, j)
}

/// A node inside the block below the `kk`-th child has its parent among the
/// descendants.
proof fn lemma_inner_has_parent(bounds: Rect2D, levels: nat, start: int, kk: int, off: int)
    requires
        levels >= 1,
        0 <= start,
        start + descendant_count(levels) <= usize::MAX,
        0 <= kk < 4,
        0 <= off < descendant_count((levels - 1) as nat),
    ensures
        block_has_parent(
            descendants(bounds, levels, start),
            start,
            4 + kk * descendant_count((levels - 1) as nat) + off,
        ),
    decreases levels, 0nat,
{
    let block = descendants(bounds, levels, start);
    let d = descendant_count((levels - 1) as nat);
    let first = block_start(levels, start, kk);
    let inner = descendants(bounds.spec_quadrants()[kk], (levels - 1) as nat, first);
    let j = 4 + kk * d + off;
    lemma_descendants_len(bounds, levels, start);
    lemma_descendants_len(bounds.spec_quadrants()[kk], (levels - 1) as nat, first);
    assert(0 <= kk * d && kk * d + d <= 4 * d) by (nonlinear_arith)
        requires
            0 <= kk <= 3,
            d >= 0,
    ;
    if off < 4 {
        assert(block[kk] == child_row(bounds, levels, start)[kk]);
        assert(block[kk].children.unwrap() == child_indices(first));
        assert(block_is_child(block, start, kk, j));
    } else {
        lemma_descendants_has_parent(bounds.spec_quadrants()[kk], (levels - 1) as nat, first, off);
        let i = choose|i: int| 0 <= i < off && #[trigger] block_is_child(inner, first, i, off);
        lemma_descendants_index(bounds, levels, start, kk, i);
        assert(block_is_child(block, start, 4 + kk * d + i, j));
    }
}

/// Every node among the descendants of a node, but for its four children,
/// has its parent among them.
pub proof fn lemma_descendants_has_parent(bounds: Rect2D, levels: nat, start: int, j: int)
    requires
        0 <= start,
        start + descendant_count(levels) <= usize::MAX,
        4 <= j < descendant_count(levels),
    ensures
        block_has_parent(descendants(bounds, levels, start), start, j),
    decreases levels, 1nat,
{
    let d = descendant_count((levels - 1) as nat);
    if j - 4 < d {
        lemma_inner_has_parent(bounds, levels, start, 0, j - 4);
    } else if j - 4 < 2 * d {
        lemma_inner_has_parent(bounds, levels, start, 1, j - 4 - d);
    } else if j - 4 < 3 * d {
        lemma_inner_has_parent(bounds, levels, start, 2, j - 4 - 2 * d);
    } else {
        lemma_inner_has_parent(bounds, levels, start, 3, j - 4 - 3 * d);
    }
}

/// In the complete tree every node is linked to its children, and every
/// node but the root has a parent before it.
pub proof fn lemma_layout_linked(world: Rect2D, depth: nat)
    requires
        node_count(depth) <= usize::MAX,
    ensures
        layout(world, depth).len() == node_count(depth),
        layout(world, depth)[0].bounds == world,
        linked(layout(world, depth)),
{
    let t = layout(world, depth);
    let block = descendants(world, depth, 1);
    lemma_descendants_len(world, depth, 1);
    assert forall|i: int| 0 <= i < t.len() implies #[trigger] node_linked(t, i) by {
        if i == 0 {
            if depth > 0 {
                lemma_descendant_count_positive(depth);
                let c = t[0].children.unwrap();
                assert(c == child_indices(1));
                assert forall|m: int| 0 <= m < 4 implies (#[trigger] t[c[0] + m]).bounds
                    == t[0].bounds.spec_quadrants()[m] by {
                    lemma_row_linked(world, depth, 1, m);
                    assert(t[1 + m] == block[m]);
                }
            }
        } else {
            lemma_descendants_linked(world, depth, 1, i - 1);
            assert(t[i] == block[i - 1]);
            if t[i].children is Some {
                let c = t[i].children.unwrap();
                assert forall|m: int| 0 <= m < 4 implies (#[trigger] t[c[0] + m]).bounds
                    == t[i].bounds.spec_quadrants()[m] by {
                    assert(t[c[0] + m] == block[c[0] - 1 + m]);
                }
            }
        }
    }
    assert forall|j: int| 1 <= j < t.len() implies #[trigger] has_parent(t, j) by {
        if j <= 4 {
            assert(is_child(t, 0, j));
        } else {
            lemma_descendants_has_parent(world, depth, 1, j - 1);
            let i = choose|i: int| 0 <= i < j - 1 && #[trigger] block_is_child(block, 1, i, j - 1);
            assert(t[i + 1] == block[i]);
            assert(is_child(t, i + 1, j));
        }
    }
}

/// The `m`-th of the four nodes from index `first` on overlaps `target`.
pub open spec fn hit(t: Seq<NodeView>, first: int, m: int, target: Rect2D) -> bool {
    t[first + m].bounds.spec_intersect(target)
}

/// How many of the first `k` of the four nodes from index `first` on
/// overlap `target`.
pub open spec fn hits_before(t: Seq<NodeView>, first: int, target: Rect2D, k: int) -> int {
    (if k > 0 && hit(t, first, 0, target) {
        1int
    } else {
        0
    }) + (if k > 1 && hit(t, first, 1, target) {
        1int
    } else {
        0
    }) + (if k > 2 && hit(t, first, 2, target) {
        1int
    } else {
        0
    }) + (if k > 3 && hit(t, first, 3, target) {
        1int
    } else {
        0
    })
}

/// The index of the first of the four nodes from `first` on that overlaps
/// `target`; the last of them if none does.
pub open spec fn first_hit(t: Seq<NodeView>, first: int, target: Rect2D) -> int {
    if hit(t, first, 0, target) {
        first
    } else if hit(t, first, 1, target) {
        first + 1
    } else if hit(t, first, 2, target) {
        first + 2
    } else {
        first + 3
    }
}

/// The node at which the descent from `i` stops: as long as exactly one
/// child of the current node overlaps `target`, the descent goes on into
/// that child.
pub open spec fn smallest_from(t: Seq<NodeView>, i: int, target: Rect2D) -> int
    decreases t.len() - i,
{
    if 0 <= i < t.len() && t[i].children is Some {
        let first = t[i].children.unwrap()[0] as int;
        let next = first_hit(t, first, target);
        if hits_before(t, first, target, 4) == 1 && i < next < t.len() {
            smallest_from(t, next, target)
        } else {
            i
        }
    } else {
        i
    }
}

/// The node at `j` is the node at `i` or stands somewhere below it.
pub open spec fn in_subtree(t: Seq<NodeView>, i: int, j: int) -> bool
    decreases t.len() - i,
{
    i == j || (0 <= i < t.len() && t[i].children is Some && {
        let first = t[i].children.unwrap()[0] as int;
        &&& i < first
        &&& first + 3 < t.len()
        &&& (in_subtree(t, first, j) || in_subtree(t, first + 1, j) || in_subtree(t, first + 2, j)
            || in_subtree(t, first + 3, j))
    })
}

/// The bounds of every node of a linked tree over a well-formed world are
/// well formed.
pub proof fn lemma_node_well_formed(t: Seq<NodeView>, j: int)
    requires
        linked(t),
        t[0].bounds.well_formed(),
        0 <= j < t.len(),
    ensures
        t[j].bounds.well_formed(),
    decreases j,
{
    if j > 0 {
        assert(has_parent(t, j));
        let i = choose|i: int| 0 <= i < j && #[trigger] is_child(t, i, j);
        lemma_node_well_formed(t, i);
        assert(node_linked(t, i));
        let first = t[i].children.unwrap()[0] as int;
        assert(t[first + (j - first)].bounds == t[i].bounds.spec_quadrants()[j - first]);
        lemma_quadrants_within(t[i].bounds, j - first);
    }
}

/// A child's bounds lie within its parent's bounds.
pub proof fn lemma_child_within(t: Seq<NodeView>, i: int, j: int)
    requires
        linked(t),
        t[0].bounds.well_formed(),
        is_child(t, i, j),
    ensures
        0 <= i < j < t.len(),
        t[j].bounds.well_formed(),
        t[j].bounds.within(t[i].bounds),
{
    lemma_node_well_formed(t, i);
    assert(node_linked(t, i));
    let first = t[i].children.unwrap()[0] as int;
    assert(t[first + (j - first)].bounds == t[i].bounds.spec_quadrants()[j - first]);
    lemma_quadrants_within(t[i].bounds, j - first);
}

/// A node below another stands behind it in the tree, and its bounds lie
/// within the other's bounds.
pub proof fn lemma_subtree_within(t: Seq<NodeView>, i: int, j: int)
    requires
        linked(t),
        t[0].bounds.well_formed(),
        0 <= i < t.len(),
        in_subtree(t, i, j),
    ensures
        i <= j < t.len(),
        t[j].bounds.within(t[i].bounds),
    decreases t.len() - i,
{
    if i != j {
        let first = t[i].children.unwrap()[0] as int;
        let m = if in_subtree(t, first, j) {
            0int
        } else if in_subtree(t, first + 1, j) {
            1int
        } else if in_subtree(t, first + 2, j) {
            2int
        } else {
            3int
        };
        assert(in_subtree(t, first + m, j));
        lemma_subtree_within(t, first + m, j);
        lemma_child_within(t, i, first + m);
    }
}

/// A child of a node below `a` stands below `a` too.
pub proof fn lemma_subtree_step(t: Seq<NodeView>, a: int, p: int, j: int)
    requires
        linked(t),
        0 <= a < t.len(),
        in_subtree(t, a, p),
        is_child(t, p, j),
    ensures
        in_subtree(t, a, j),
    decreases t.len() - a,
{
    assert(node_linked(t, a));
    if a == p {
        let first = t[a].children.unwrap()[0] as int;
        assert(in_subtree(t, j, j));
    } else {
        let first = t[a].children.unwrap()[0] as int;
        let m = if in_subtree(t, first, p) {
            0int
        } else if in_subtree(t, first + 1, p) {
            1int
        } else if in_subtree(t, first + 2, p) {
            2int
        } else {
            3int
        };
        assert(in_subtree(t, first + m, p));
        lemma_subtree_step(t, first + m, p, j);
    }
}

/// Every node of a linked tree stands below the root.
pub proof fn lemma_all_below_root(t: Seq<NodeView>, j: int)
    requires
        linked(t),
        0 <= j < t.len(),
    ensures
        in_subtree(t, 0, j),
    decreases j,
{
    if j > 0 {
        assert(has_parent(t, j));
        let i = choose|i: int| 0 <= i < j && #[trigger] is_child(t, i, j);
        lemma_all_below_root(t, i);
        lemma_subtree_step(t, 0, i, j);
    }
}

/// The nodes at or below the node at `i` whose bounds overlap `target`.
pub open spec fn hits_below(t: Seq<NodeView>, i: int, target: Rect2D) -> Set<usize> {
    Set::new(|j: usize| in_subtree(t, i, j as int) && t[j as int].bounds.spec_intersect(target))
}

/// All nodes of the tree whose bounds overlap `target`.
pub open spec fn all_hits(t: Seq<NodeView>, target: Rect2D) -> Set<usize> {
    Set::new(|j: usize| j < t.len() && t[j as int].bounds.spec_intersect(target))
}

/// Below a node whose bounds do not overlap `target`, no node overlaps it.
pub proof fn lemma_no_hits_below(t: Seq<NodeView>, i: int, target: Rect2D)
    requires
        linked(t),
        t[0].bounds.well_formed(),
        0 <= i < t.len(),
        !t[i].bounds.spec_intersect(target),
    ensures
        hits_below(t, i, target) == Set::<usize>::empty(),
{
    assert forall|j: usize| !hits_below(t, i, target).contains(j) by {
        if in_subtree(t, i, j as int) {
            lemma_subtree_within(t, i, j as int);
            if t[j as int].bounds.spec_intersect(target) {
                lemma_intersect_outer(t[j as int].bounds, t[i].bounds, target);
            }
        }
    }
    assert(hits_below(t, i, target) =~= Set::<usize>::empty());
}

/// The hits at or below a node are the node itself, if it is one, and the
/// hits below its four children.
pub proof fn lemma_hits_below_unfold(t: Seq<NodeView>, i: int, target: Rect2D)
    requires
        linked(t),
        0 <= i < t.len(),
        t[i].bounds.spec_intersect(target),
    ensures
        t[i].children is None ==> hits_below(t, i, target) == set![i as usize],
        t[i].children is Some ==> hits_below(t, i, target) == set![i as usize].union(
            hits_below(t, t[i].children.unwrap()[0] as int, target),
        ).union(hits_below(t, t[i].children.unwrap()[0] + 1, target)).union(
            hits_below(t, t[i].children.unwrap()[0] + 2, target),
        ).union(hits_below(t, t[i].children.unwrap()[0] + 3, target)),
{
    assert(node_linked(t, i));
    if t[i].children is None {
        assert(hits_below(t, i, target) =~= set![i as usize]);
    } else {
        let first = t[i].children.unwrap()[0] as int;
        assert(hits_below(t, i, target) =~= set![i as usize].union(
            hits_below(t, first, target),
        ).union(hits_below(t, first + 1, target)).union(hits_below(t, first + 2, target)).union(
            hits_below(t, first + 3, target),
        ));
    }
}

/// The hits at or below the root are all hits of the tree.
pub proof fn lemma_hits_below_root(t: Seq<NodeView>, target: Rect2D)
    requires
        linked(t),
        t[0].bounds.well_formed(),
    ensures
        hits_below(t, 0, target) == all_hits(t, target),
{
    assert forall|j: usize| hits_below(t, 0, target).contains(j) == all_hits(t, target).contains(
        j,
    ) by {
        if j < t.len() {
            lemma_all_below_root(t, j as int);
        }
        if in_subtree(t, 0, j as int) {
            lemma_subtree_within(t, 0, j as int);
        }
    }
    assert(hits_below(t, 0, target) =~= all_hits(t, target));
}

} // verus!
