//! Static QuadTree structure for recursive division of colliding entities in space

use crate::node_set::{node_set_insert, node_set_new, set_members};
use crate::rect2d::{Point, Rect2D};
use crate::tree_layout::{
    block_start, blocks, child_indices, descendant_count, descendants, layout, lemma_blocks_len,
    lemma_descendants_len, node_count, world_rect, NodeView,
};
use crate::tree_structure::{
    all_hits, first_hit, hits_before, hits_below, lemma_hits_below_root, lemma_hits_below_unfold,
    lemma_layout_linked, lemma_no_hits_below, linked, node_linked, smallest_from,
};
use bevy::platform::collections::HashSet;
use vstd::prelude::*;

verus! {

/// A node in the static tree representation of recursive quadrants
#[derive(Debug)]
pub struct StaticQuadTreeNode {
    /// Size of this node
    bounds: Rect2D,
    /// Children quadrants of this node. None if this is
    /// on the maximal depth level
    children: Option<[usize; 4]>,
}

impl View for StaticQuadTreeNode {
    type V = NodeView;

    /// The bounds of the node and the indices of its children.
    closed spec fn view(&self) -> NodeView {
        NodeView {
            bounds: self.bounds,
            children: match self.children {
                Some(c) => Some(c@),
                None => None,
            },
        }
    }
}

impl StaticQuadTreeNode {
    /// The region that this node covers.
    pub fn bounds(&self) -> (r: Rect2D)
        ensures
            r == self@.bounds,
    {
        self.bounds
    }

    /// The indices of the four children of this node, if it has any.
    pub fn children(&self) -> (c: Option<[usize; 4]>)
        ensures
            c is Some == self@.children is Some,
            c is Some ==> c.unwrap()@ == self@.children.unwrap(),
    {
        self.children
    }
}

/// The nodes of a vector, each as plain values.
pub open spec fn node_views(nodes: Seq<StaticQuadTreeNode>) -> Seq<NodeView> {
    nodes.map_values(|n: StaticQuadTreeNode| n@)
}

/// Resource for nodes in a quad-tree collision detection algorithm
#[derive(Debug)]
pub struct StaticQuadTree {
    nodes: Vec<StaticQuadTreeNode>,
    max_depth: usize,
}

impl View for StaticQuadTree {
    type V = Seq<NodeView>;

    /// The nodes of the tree in their order, the root first.
    closed spec fn view(&self) -> Seq<NodeView> {
        node_views(self.nodes@)
    }
}

impl StaticQuadTree {
    /// The number of levels below the root.
    pub closed spec fn spec_depth(&self) -> nat {
        self.max_depth as nat
    }

    /// The region that the root covers.
    pub open spec fn world(&self) -> Rect2D {
        self@[0].bounds
    }

    /// The tree is the complete tree over a well-formed world, and its
    /// nodes can be counted in a `usize`.
    #[verifier::type_invariant]
    pub closed spec fn well_formed(&self) -> bool {
        &&& self.nodes@.len() >= 1
        &&& self.nodes@[0]@.bounds.well_formed()
        &&& node_count(self.max_depth as nat) <= usize::MAX
        &&& node_views(self.nodes@) == layout(self.nodes@[0]@.bounds, self.max_depth as nat)
    }

    /// Creates a new static QuadTree
    pub fn new(screen_size: Point, max_depth: usize) -> (tree: Self)
        requires
            screen_size.x >= 0,
            screen_size.y >= 0,
            node_count(max_depth as nat) <= usize::MAX,
        ensures
            tree.well_formed(),
            tree.spec_depth() == max_depth,
            tree@ == layout(world_rect(screen_size), max_depth as nat),
            tree@.len() == node_count(max_depth as nat),
    {
        let mut nodes: Vec<StaticQuadTreeNode> = Vec::new();

        let half = Point { x: screen_size.x / 2, y: screen_size.y / 2 };
        let top = StaticQuadTreeNode {
            bounds: Rect2D::new(Point { x: -half.x, y: -half.y }, half),
            children: None,
        };
        nodes.push(top);
        assert(node_views(nodes@) =~= seq![NodeView { bounds: top.bounds, children: None }]);
        if max_depth >= 1 {
            Self::subdivide(&mut nodes, 0, 1, max_depth);
        }
        assert(node_views(nodes@) =~= layout(world_rect(screen_size), max_depth as nat));
        assert(nodes@[0]@ == node_views(nodes@)[0]);
        proof {
            lemma_layout_linked(world_rect(screen_size), max_depth as nat);
        }
        Self { nodes, max_depth }
    }

    /// The number of nodes of the tree.
    pub fn len(&self) -> (n: usize)
        ensures
            n == self@.len(),
            n == node_count(self.spec_depth()),
    {
        proof {
            use_type_invariant(self);
            lemma_layout_linked(self.nodes@[0]@.bounds, self.max_depth as nat);
        }
        self.nodes.len()
    }

    /// The number of levels below the root.
    pub fn max_depth(&self) -> (d: usize)
        ensures
            d == self.spec_depth(),
    {
        self.max_depth
    }

    /// The node at `index`.
    pub fn node(&self, index: usize) -> (n: &StaticQuadTreeNode)
        requires
            index < self@.len(),
        ensures
            n@ == self@[index as int],
    {
        &self.nodes[index]
    }

    /// The tree is complete: see `lemma_layout_linked` for what follows.
    pub proof fn lemma_is_layout(&self)
        requires
            self.well_formed(),
        ensures
            self@.len() == node_count(self.spec_depth()),
            self@.len() <= usize::MAX,
            self.world().well_formed(),
            self@ == layout(self.world(), self.spec_depth()),
            linked(self@),
    {
        lemma_layout_linked(self.nodes@[0]@.bounds, self.max_depth as nat);
    }

    /// Finds the smallest quadrant that completely contains an entity
    pub fn smallest_node(&self, target: &Rect2D) -> (found: usize)
        ensures
            found < self@.len(),
            found == smallest_from(self@, 0, *target),
    {
        proof {
            use_type_invariant(self);
            self.lemma_is_layout();
        }
        let mut current_index: usize = 0;

        loop
            invariant_except_break
                current_index < self@.len(),
                smallest_from(self@, current_index as int, *target) == smallest_from(
                    self@,
                    0,
                    *target,
                ),
            invariant
                self@ == node_views(self.nodes@),
                linked(self@),
            ensures
                current_index < self@.len(),
                current_index == smallest_from(self@, 0, *target),
            decreases self@.len() - current_index,
        {
            assert(node_linked(self@, current_index as int));
            assert(self@[current_index as int] == self.nodes@[current_index as int]@);
            if let Some(children) = self.nodes[current_index].children {
                let ghost first = children@[0] as int;
                let mut matches: Vec<usize> = Vec::new();
                let mut k: usize = 0;
                while k < 4
                    invariant
                        0 <= k <= 4,
                        self@ == node_views(self.nodes@),
                        children@ == child_indices(first),
                        0 <= first,
                        first + 3 < self@.len(),
                        self@.len() == self.nodes@.len(),
                        self@.len() <= usize::MAX,
                        matches@.len() == hits_before(self@, first, *target, k as int),
                        matches@.len() > 0 ==> matches@[0] == first_hit(self@, first, *target),
                    decreases 4 - k,
                {
                    let child = children[k];
                    assert(child == children@[k as int]);
                    assert(child == first + k) by {
                        let c = child_indices(first);
                        assert(c[0] == first && c[1] == first + 1 && c[2] == first + 2 && c[3]
                            == first + 3);
                    }
                    assert(self@[first + k] == self.nodes@[child as int]@);
                    if self.nodes[child].bounds.intersect(target) {
                        matches.push(child);
                    }
                    k += 1;
                }

                if matches.len() == 1 {
                    // The target is contained in only one quadrant, so dive deeper
                    // within that quadrant
                    current_index = matches[0];
                } else {
                    // If there is more than one match, the target is contained in
                    // more than one quadrants, thus overlapping a boundary. We
                    // cannot get deeper than we are.
                    break;
                }
            } else {
                // There are no children quadrants defined at this level, so
                // don't dive deeper.
                break;
            }
        }
        current_index
    }

    /// finds all intersecting nodes of the tree with a given bounding box rectangle
    pub fn intersecting_nodes(&self, target: &Rect2D) -> (result: HashSet<usize>)
        ensures
            set_members(result) == all_hits(self@, *target),
    {
        let mut result = node_set_new();
        proof {
            use_type_invariant(self);
            self.lemma_is_layout();
            lemma_hits_below_root(self@, *target);
        }
        self.intersect(0, &mut result, target);
        assert(set_members(result) =~= all_hits(self@, *target));
        result
    }

    /// Adds to `result` every node at or below `index` whose bounds overlap
    /// `target`; what lies below a node that does not overlap it is skipped.
    fn intersect(&self, index: usize, result: &mut HashSet<usize>, target: &Rect2D)
        requires
            index < self@.len(),
        ensures
            set_members(*final(result)) == set_members(*old(result)).union(
                hits_below(self@, index as int, *target),
            ),
        decreases self@.len() - index,
    {
        proof {
            use_type_invariant(self);
            self.lemma_is_layout();
            assert(node_linked(self@, index as int));
            assert(self@[index as int] == self.nodes@[index as int]@);
        }
        let ghost before = set_members(*result);
        if self.nodes[index].bounds.intersect(target) {
            node_set_insert(result, index);
            proof {
                lemma_hits_below_unfold(self@, index as int, *target);
            }
            if let Some(children) = &self.nodes[index].children {
                let ghost first = children@[0] as int;
                let mut k: usize = 0;
                while k < 4
                    invariant
                        0 <= k <= 4,
                        children@ == child_indices(first),
                        index < first,
                        first + 3 < self@.len(),
                        self@.len() <= usize::MAX,
                        set_members(*result) == before.insert(index).union(
                            if k > 0 {
                                hits_below(self@, first, *target)
                            } else {
                                Set::empty()
                            },
                        ).union(
                            if k > 1 {
                                hits_below(self@, first + 1, *target)
                            } else {
                                Set::empty()
                            },
                        ).union(
                            if k > 2 {
                                hits_below(self@, first + 2, *target)
                            } else {
                                Set::empty()
                            },
                        ).union(
                            if k > 3 {
                                hits_below(self@, first + 3, *target)
                            } else {
                                Set::empty()
                            },
                        ),
                    decreases 4 - k,
                {
                    let child = children[k];
                    assert(child == first + k) by {
                        let c = child_indices(first);
                        assert(c[0] == first && c[1] == first + 1 && c[2] == first + 2 && c[3]
                            == first + 3);
                    }
                    let ghost prev = set_members(*result);
                    self.intersect(child, result, target);
                    assert(set_members(*result) =~= prev.union(
                        hits_below(self@, first + k, *target),
                    ));
                    k += 1;
                    assert(set_members(*result) =~= before.insert(index).union(
                        if k > 0 {
                            hits_below(self@, first, *target)
                        } else {
                            Set::empty()
                        },
                    ).union(
                        if k > 1 {
                            hits_below(self@, first + 1, *target)
                        } else {
                            Set::empty()
                        },
                    ).union(
                        if k > 2 {
                            hits_below(self@, first + 2, *target)
                        } else {
                            Set::empty()
                        },
                    ).union(
                        if k > 3 {
                            hits_below(self@, first + 3, *target)
                        } else {
                            Set::empty()
                        },
                    ));
                }
                assert(set_members(*result) =~= before.union(
                    hits_below(self@, index as int, *target),
                ));
            } else {
                assert(set_members(*result) =~= before.union(
                    hits_below(self@, index as int, *target),
                ));
            }
        } else {
            proof {
                lemma_no_hits_below(self@, index as int, *target);
            }
            assert(set_members(*result) =~= before.union(hits_below(self@, index as int, *target)));
        }
    }

    /// Recursively divides the quadrants of a node in the QuadTree
    fn subdivide(
        nodes: &mut Vec<StaticQuadTreeNode>,
        index: usize,
        depth: usize,
        max_depth: usize,
    )
        requires
            1 <= depth <= max_depth,
            index < old(nodes)@.len(),
            old(nodes)@[index as int]@.children is None,
            old(nodes)@.len() + descendant_count((max_depth - depth + 1) as nat) <= usize::MAX,
        ensures
            node_views(final(nodes)@) == node_views(old(nodes)@).update(
                index as int,
                NodeView {
                    bounds: old(nodes)@[index as int]@.bounds,
                    children: Some(child_indices(old(nodes)@.len() as int)),
                },
            ) + descendants(
                old(nodes)@[index as int]@.bounds,
                (max_depth - depth + 1) as nat,
                old(nodes)@.len() as int,
            ),
        decreases max_depth - depth,
    {
        let ghost levels = (max_depth - depth + 1) as nat;
        let ghost below = descendant_count((levels - 1) as nat);
        let ghost before = node_views(nodes@);
        let bounds = nodes[index].bounds;
        let children = bounds.quadrants();
        let n = nodes.len();
        let child_index = [n, n + 1, n + 2, n + 3];
        nodes.set(index, StaticQuadTreeNode { bounds, children: Some(child_index) });
        let ghost parent = NodeView { bounds, children: Some(child_indices(n as int)) };
        assert(child_index@ =~= child_indices(n as int));
        let mut k: usize = 0;
        while k < 4
            invariant
                0 <= k <= 4,
                children@ == bounds.spec_quadrants(),
                n + 4 <= usize::MAX,
                before.len() == n,
                index < n,
                nodes@.len() == n + k,
                node_views(nodes@) =~= before.update(index as int, parent) + Seq::new(
                    k as nat,
                    |m: int| NodeView { bounds: bounds.spec_quadrants()[m], children: None },
                ),
            decreases 4 - k,
        {
            let ghost prev = nodes@;
            let quad = StaticQuadTreeNode { bounds: children[k], children: None };
            nodes.push(quad);
            proof {
                assert(node_views(nodes@) =~= node_views(prev).push(quad@));
            }
            k += 1;
        }
        proof {
            lemma_blocks_len(bounds, levels, n as int, 4);
            assert(4 + 4 * below <= usize::MAX - n);
        }
        if depth < max_depth {
            let mut k: usize = 0;
            while k < 4
                invariant
                    0 <= k <= 4,
                    1 <= depth < max_depth,
                    levels == (max_depth - depth + 1) as nat,
                    below == descendant_count((levels - 1) as nat),
                    n + 4 + 4 * below <= usize::MAX,
                    before.len() == n,
                    index < n,
                    child_index@ == child_indices(n as int),
                    nodes@.len() == n + 4 + k * below,
                    node_views(nodes@) =~= before.update(index as int, parent) + Seq::new(
                        4,
                        |m: int|
                            NodeView {
                                bounds: bounds.spec_quadrants()[m],
                                children: if m < k {
                                    Some(child_indices(block_start(levels, n as int, m)))
                                } else {
                                    None
                                },
                            },
                    ) + blocks(bounds, levels, n as int, k as nat),
                decreases 4 - k,
            {
                let ghost prev = node_views(nodes@);
                proof {
                    lemma_blocks_len(bounds, levels, n as int, k as nat);
                    assert(k * below + below <= 4 * below) by (nonlinear_arith)
                        requires
                            k <= 3,
                            below >= 0,
                    ;
                    assert((k + 1) * below == k * below + below) by (nonlinear_arith);
                    lemma_descendants_len(
                        bounds.spec_quadrants()[k as int],
                        (levels - 1) as nat,
                        block_start(levels, n as int, k as int),
                    );
                }
                assert(child_index[k as int] == n + k);
                assert(prev[n + k] == nodes@[n + k]@);
                assert(prev[n + k].children is None);
                Self::subdivide(nodes, child_index[k], depth + 1, max_depth);
                assert(node_views(nodes@).len() == nodes@.len());
                assert(blocks(bounds, levels, n as int, (k + 1) as nat) == blocks(
                    bounds,
                    levels,
                    n as int,
                    k as nat,
                ) + descendants(
                    bounds.spec_quadrants()[k as int],
                    (levels - 1) as nat,
                    block_start(levels, n as int, k as int),
                ));
                k += 1;
            }
        } else {
            assert(node_views(nodes@) =~= before.update(index as int, parent) + descendants(
                bounds,
                levels,
                n as int,
            ));
        }
    }
}

} // verus!
