//! What holds of every static quadtree and of the two queries on it.

use crate::rect2d::{lemma_quadrants_cover, lemma_quadrants_within, Rect2D};
use crate::static_quadtree::StaticQuadTree;
use crate::tree_layout::{descendant_count, node_count, NodeView};
use crate::tree_structure::{
    all_hits, first_hit, has_parent, hit, hits_before, in_subtree, is_child, lemma_all_below_root,
    lemma_child_within, lemma_node_well_formed, lemma_subtree_within, linked, node_linked,
    smallest_from,
};
use vstd::arithmetic::power::pow;
use vstd::prelude::*;

verus! {

/// A tree with `depth` levels below the root has `(4^(depth+1) - 1) / 3`
/// nodes.
pub proof fn lemma_node_count_formula(depth: nat)
    ensures
        3 * node_count(depth) + 1 == pow(4, depth + 1),
        node_count(depth) == (pow(4, depth + 1) - 1) / 3,
    decreases depth,
{
    reveal(pow);
    if depth == 0 {
        assert(pow(4, 0) == 1);
        assert(pow(4, 1) == 4 * pow(4, 0));
    } else {
        lemma_node_count_formula((depth - 1) as nat);
        assert(pow(4, depth + 1) == 4 * pow(4, depth as nat));
        assert(descendant_count(depth) == 4 + 4 * descendant_count((depth - 1) as nat));
    }
}

/// The number of nodes grows with the depth.
pub proof fn lemma_node_count_monotonic(a: nat, b: nat)
    requires
        a <= b,
    ensures
        node_count(a) <= node_count(b),
    decreases b,
{
    if a < b {
        lemma_node_count_monotonic(a, (b - 1) as nat);
    }
}

/// A tree of depth `MAX_DEPTH` at most has fewer than `2^32` nodes, so that
/// its nodes can be counted in a `usize`.
pub proof fn lemma_node_count_fits(depth: nat)
    requires
        depth <= MAX_DEPTH,
    ensures
        node_count(depth) <= u32::MAX,
        node_count(depth) <= usize::MAX,
{
    lemma_node_count_monotonic(depth, 15);
    reveal_with_fuel(descendant_count, 16);
    assert(node_count(15) == 1431655765);
}

/// The deepest tree whose nodes can be counted in a `usize` on every
/// machine.
pub const MAX_DEPTH: usize = 15;

/// A tree has `(4^(depth+1) - 1) / 3` nodes, where `depth` is the number of
/// levels below its root.
pub proof fn lemma_tree_node_count(tree: StaticQuadTree)
    requires
        tree.well_formed(),
    ensures
        tree@.len() == (pow(4, tree.spec_depth() + 1) - 1) / 3,
{
    tree.lemma_is_layout();
    lemma_node_count_formula(tree.spec_depth());
}

/// Every node of a tree but the root is the child of a node before it, and
/// the bounds of a child lie within the bounds of its parent.
pub proof fn lemma_child_within_parent(tree: StaticQuadTree, i: int, j: int)
    requires
        tree.well_formed(),
    ensures
        1 <= j < tree@.len() ==> has_parent(tree@, j),
        is_child(tree@, i, j) ==> 0 <= i < j < tree@.len() && tree@[j].bounds.within(
            tree@[i].bounds,
        ),
{
    tree.lemma_is_layout();
    if is_child(tree@, i, j) {
        lemma_child_within(tree@, i, j);
    }
}

/// The descent for a target equal to the whole world stops at the root.
pub proof fn lemma_smallest_of_world(tree: StaticQuadTree)
    requires
        tree.well_formed(),
    ensures
        smallest_from(tree@, 0, tree.world()) == 0,
{
    tree.lemma_is_layout();
    let t = tree@;
    let world = tree.world();
    assert(node_linked(t, 0));
    if t[0].children is Some {
        let first = t[0].children.unwrap()[0] as int;
        assert forall|m: int| 0 <= m < 4 implies hit(t, first, m, world) by {
            assert(t[first + m].bounds == world.spec_quadrants()[m]);
            lemma_quadrants_within(world, m);
        }
        assert(hits_before(t, first, world, 4) == 4);
    }
}

/// `inner` lies within `outer` and touches none of its edges.
pub open spec fn strictly_within(inner: Rect2D, outer: Rect2D) -> bool {
    &&& inner.well_formed()
    &&& outer.min.x < inner.min.x
    &&& inner.max.x < outer.max.x
    &&& outer.min.y < inner.min.y
    &&& inner.max.y < outer.max.y
}

/// A target strictly within the `m`-th quadrant of a rectangle overlaps
/// that quadrant and none of the other three.
proof fn lemma_one_quadrant(bounds: Rect2D, m: int, target: Rect2D, other: int)
    requires
        bounds.well_formed(),
        0 <= m < 4,
        0 <= other < 4,
        strictly_within(target, bounds.spec_quadrants()[m]),
    ensures
        bounds.spec_quadrants()[other].spec_intersect(target) == (other == m),
{
}

/// From a node above a leaf, the descent for a target strictly within the
/// leaf's bounds ends at that leaf.
pub proof fn lemma_descent_reaches(t: Seq<NodeView>, i: int, leaf: int, target: Rect2D)
    requires
        linked(t),
        t[0].bounds.well_formed(),
        0 <= i < t.len(),
        in_subtree(t, i, leaf),
        t[leaf].children is None,
        strictly_within(target, t[leaf].bounds),
    ensures
        smallest_from(t, i, target) == leaf,
    decreases t.len() - i,
{
    if i != leaf {
        assert(node_linked(t, i));
        lemma_node_well_formed(t, i);
        let first = t[i].children.unwrap()[0] as int;
        let m = if in_subtree(t, first, leaf) {
            0int
        } else if in_subtree(t, first + 1, leaf) {
            1int
        } else if in_subtree(t, first + 2, leaf) {
            2int
        } else {
            3int
        };
        assert(in_subtree(t, first + m, leaf));
        lemma_subtree_within(t, first + m, leaf);
        assert(t[first + m].bounds == t[i].bounds.spec_quadrants()[m]);
        assert forall|other: int| 0 <= other < 4 implies hit(t, first, other, target) == (other
            == m) by {
            assert(t[first + other].bounds == t[i].bounds.spec_quadrants()[other]);
            lemma_one_quadrant(t[i].bounds, m, target, other);
        }
        assert(hit(t, first, 0, target) == (0 == m));
        assert(hit(t, first, 1, target) == (1 == m));
        assert(hit(t, first, 2, target) == (2 == m));
        assert(hit(t, first, 3, target) == (3 == m));
        assert(hits_before(t, first, target, 4) == 1);
        assert(first_hit(t, first, target) == first + m);
        lemma_descent_reaches(t, first + m, leaf, target);
    }
}

/// The descent for a target that lies strictly within the bounds of a leaf
/// ends at that leaf, which has no children.
pub proof fn lemma_smallest_of_inner(tree: StaticQuadTree, leaf: int, target: Rect2D)
    requires
        tree.well_formed(),
        0 <= leaf < tree@.len(),
        tree@[leaf].children is None,
        strictly_within(target, tree@[leaf].bounds),
    ensures
        smallest_from(tree@, 0, target) == leaf,
        tree@[smallest_from(tree@, 0, target)].children is None,
{
    tree.lemma_is_layout();
    lemma_all_below_root(tree@, leaf);
    lemma_descent_reaches(tree@, 0, leaf, target);
}

/// The descent from the node at `i` passes through the node at `j`.
pub open spec fn on_descent(t: Seq<NodeView>, i: int, target: Rect2D, j: int) -> bool
    decreases t.len() - i,
{
    i == j || (0 <= i < t.len() && t[i].children is Some && {
        let first = t[i].children.unwrap()[0] as int;
        let next = first_hit(t, first, target);
        &&& hits_before(t, first, target, 4) == 1
        &&& i < next < t.len()
        &&& on_descent(t, next, target, j)
    })
}

/// The descent passes through the node at which it ends.
pub proof fn lemma_descent_ends_on_path(t: Seq<NodeView>, i: int, target: Rect2D)
    ensures
        on_descent(t, i, target, smallest_from(t, i, target)),
    decreases t.len() - i,
{
    if 0 <= i < t.len() && t[i].children is Some {
        let first = t[i].children.unwrap()[0] as int;
        let next = first_hit(t, first, target);
        if hits_before(t, first, target, 4) == 1 && i < next < t.len() {
            lemma_descent_ends_on_path(t, next, target);
        }
    }
}

/// Every node on the descent from a node whose bounds overlap the target
/// has bounds that overlap the target.
pub proof fn lemma_descent_hits(t: Seq<NodeView>, i: int, target: Rect2D, j: int)
    requires
        0 <= i < t.len(),
        t[i].bounds.spec_intersect(target),
        on_descent(t, i, target, j),
    ensures
        0 <= j < t.len(),
        t[j].bounds.spec_intersect(target),
    decreases t.len() - i,
{
    if i != j {
        let first = t[i].children.unwrap()[0] as int;
        let next = first_hit(t, first, target);
        lemma_descent_hits(t, next, target, j);
    }
}

/// For a target that overlaps the world, the set of overlapping nodes holds
/// the root and every node that the descent to the smallest node passes
/// through, the smallest node included.
pub proof fn lemma_intersecting_includes_descent(tree: StaticQuadTree, target: Rect2D, j: int)
    requires
        tree.well_formed(),
        tree.world().spec_intersect(target),
    ensures
        all_hits(tree@, target).contains(0),
        all_hits(tree@, target).contains(smallest_from(tree@, 0, target) as usize),
        on_descent(tree@, 0, target, j) ==> 0 <= j < tree@.len() && all_hits(
            tree@,
            target,
        ).contains(j as usize),
{
    tree.lemma_is_layout();
    lemma_descent_ends_on_path(tree@, 0, target);
    lemma_descent_hits(tree@, 0, target, smallest_from(tree@, 0, target));
    if on_descent(tree@, 0, target, j) {
        lemma_descent_hits(tree@, 0, target, j);
    }
}

/// The node at which the descent from a node ends contains the target, if
/// the node from which it starts does.
pub proof fn lemma_descent_contains(t: Seq<NodeView>, i: int, target: Rect2D)
    requires
        linked(t),
        t[0].bounds.well_formed(),
        0 <= i < t.len(),
        target.well_formed(),
        target.within(t[i].bounds),
    ensures
        0 <= smallest_from(t, i, target) < t.len(),
        target.within(t[smallest_from(t, i, target)].bounds),
    decreases t.len() - i,
{
    if t[i].children is Some {
        let first = t[i].children.unwrap()[0] as int;
        let next = first_hit(t, first, target);
        if hits_before(t, first, target, 4) == 1 && i < next < t.len() {
            assert(node_linked(t, i));
            lemma_node_well_formed(t, i);
            let q = t[i].bounds.spec_quadrants();
            assert forall|m: int| 0 <= m < 4 implies (#[trigger] t[first + m]).bounds == q[m] by {}
            lemma_quadrants_cover(t[i].bounds, target.min.x as int, target.min.y as int);
            lemma_quadrants_cover(t[i].bounds, target.max.x as int, target.max.y as int);
            let low = choose|m: int|
                0 <= m < 4 && #[trigger] q[m].contains_point(
                    target.min.x as int,
                    target.min.y as int,
                );
            let high = choose|m: int|
                0 <= m < 4 && #[trigger] q[m].contains_point(
                    target.max.x as int,
                    target.max.y as int,
                );
            assert(t[first + low].bounds == q[low]);
            assert(t[first + high].bounds == q[high]);
            assert(hit(t, first, low, target));
            assert(hit(t, first, high, target));
            assert(next == first + low);
            assert(next == first + high);
            lemma_descent_contains(t, next, target);
        }
    }
}

/// The smallest node of a well-formed target that lies within the world
/// contains the target.
pub proof fn lemma_smallest_contains(tree: StaticQuadTree, target: Rect2D)
    requires
        tree.well_formed(),
        target.well_formed(),
        target.within(tree.world()),
    ensures
        0 <= smallest_from(tree@, 0, target) < tree@.len(),
        target.within(tree@[smallest_from(tree@, 0, target)].bounds),
{
    tree.lemma_is_layout();
    lemma_descent_contains(tree@, 0, target);
}

} // verus!
