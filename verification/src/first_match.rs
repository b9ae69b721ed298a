//! The coarse query: each body is registered at its smallest node only, is
//! tested against the bodies of that same node only, and stops at its first
//! match. It costs less than the full query and can miss collisions across
//! the boundary of two nodes.

use crate::collision::{body_rects, event_of, overlap, spec_rects, Body, OnCollision};
use crate::full_scan::CollisionPass;
use crate::rect2d::Rect2D;
use crate::spatial_index::{bucket_map, index_get, index_insert, index_new, index_remove};
use crate::static_quadtree::StaticQuadTree;
use crate::tree_layout::NodeView;
use crate::tree_structure::smallest_from;
use vstd::prelude::*;

verus! {

/// The smallest node of each rectangle, in the order of the rectangles.
pub open spec fn smallest_nodes(t: Seq<NodeView>, rects: Seq<Rect2D>) -> Seq<usize> {
    Seq::new(rects.len(), |j: int| smallest_from(t, 0, rects[j]) as usize)
}

/// Those of the first `upto` bodies whose smallest node is `n`, in
/// ascending order.
pub open spec fn same_node(nodes: Seq<usize>, n: usize, upto: int) -> Seq<usize>
    decreases upto,
{
    if upto <= 0 {
        Seq::empty()
    } else if nodes[upto - 1] == n {
        same_node(nodes, n, upto - 1).push((upto - 1) as usize)
    } else {
        same_node(nodes, n, upto - 1)
    }
}

/// The first body of `list`, from position `from` on, that is another body
/// than the `i`-th and whose rectangle overlaps that of the `i`-th.
pub open spec fn first_match(bodies: Seq<Body>, i: int, list: Seq<usize>, from: int) -> Option<
    usize,
>
    decreases list.len() - from,
{
    if from < 0 || from >= list.len() {
        None
    } else if overlap(bodies[i], bodies[list[from] as int]) {
        Some(list[from])
    } else {
        first_match(bodies, i, list, from + 1)
    }
}

/// How many bodies of `list`, from position `from` on, are tested for the
/// `i`-th body: every other body up to the first match.
pub open spec fn match_checks(bodies: Seq<Body>, i: int, list: Seq<usize>, from: int) -> nat
    decreases list.len() - from,
{
    if from < 0 || from >= list.len() {
        0
    } else if bodies[i].spec_entity() == bodies[list[from] as int].spec_entity() {
        match_checks(bodies, i, list, from + 1)
    } else if overlap(bodies[i], bodies[list[from] as int]) {
        1
    } else {
        1 + match_checks(bodies, i, list, from + 1)
    }
}

/// The bodies that share the smallest node of the `i`-th body.
pub open spec fn neighbours(bodies: Seq<Body>, nodes: Seq<usize>, i: int) -> Seq<usize> {
    same_node(nodes, nodes[i], bodies.len() as int)
}

/// The events of the coarse query for the first `upto` bodies: for each
/// body that has a match among its neighbours, the first such match.
pub open spec fn first_matches(bodies: Seq<Body>, nodes: Seq<usize>, upto: int) -> Seq<
    OnCollision,
>
    decreases upto,
{
    if upto <= 0 {
        Seq::empty()
    } else {
        let before = first_matches(bodies, nodes, upto - 1);
        match first_match(bodies, upto - 1, neighbours(bodies, nodes, upto - 1), 0) {
            Some(j) => before.push(event_of(bodies[upto - 1], bodies[j as int])),
            None => before,
        }
    }
}

/// How many pairs the coarse query tests for the first `upto` bodies.
pub open spec fn first_match_checks(bodies: Seq<Body>, nodes: Seq<usize>, upto: int) -> nat
    decreases upto,
{
    if upto <= 0 {
        0
    } else {
        first_match_checks(bodies, nodes, upto - 1) + match_checks(
            bodies,
            upto - 1,
            neighbours(bodies, nodes, upto - 1),
            0,
        )
    }
}

/// The bodies of one node are bodies, and no more than there are bodies.
pub proof fn lemma_same_node(nodes: Seq<usize>, n: usize, upto: int, c: int)
    requires
        0 <= upto <= nodes.len(),
        upto <= usize::MAX,
    ensures
        same_node(nodes, n, upto).len() <= upto,
        0 <= c < same_node(nodes, n, upto).len() ==> same_node(nodes, n, upto)[c] < upto
            && nodes[same_node(nodes, n, upto)[c] as int] == n,
        0 <= c < upto && nodes[c] == n ==> same_node(nodes, n, upto).contains(c as usize),
    decreases upto,
{
    if upto > 0 {
        lemma_same_node(nodes, n, upto - 1, c);
        let rest = same_node(nodes, n, upto - 1);
        if nodes[upto - 1] == n {
            let all = rest.push((upto - 1) as usize);
            assert(all[rest.len() as int] == (upto - 1) as usize);
            if 0 <= c < upto - 1 && nodes[c] == n {
                let q = choose|q: int| 0 <= q < rest.len() && rest[q] == c as usize;
                assert(all[q] == c as usize);
            }
        }
    }
}

/// No more bodies are tested than the list holds from `from` on.
pub proof fn lemma_match_checks_bound(bodies: Seq<Body>, i: int, list: Seq<usize>, from: int)
    requires
        0 <= from <= list.len(),
    ensures
        match_checks(bodies, i, list, from) <= list.len() - from,
    decreases list.len() - from,
{
    if from < list.len() {
        lemma_match_checks_bound(bodies, i, list, from + 1);
    }
}

/// The coarse query of `upto` bodies tests no more than `upto` times the
/// number of bodies.
pub proof fn lemma_first_match_checks_bound(bodies: Seq<Body>, nodes: Seq<usize>, upto: int)
    requires
        0 <= upto,
        nodes.len() == bodies.len(),
        bodies.len() <= usize::MAX,
    ensures
        first_match_checks(bodies, nodes, upto) <= upto * bodies.len(),
    decreases upto,
{
    if upto > 0 {
        lemma_first_match_checks_bound(bodies, nodes, upto - 1);
        let list = neighbours(bodies, nodes, upto - 1);
        lemma_same_node(nodes, nodes[upto - 1], bodies.len() as int, 0);
        lemma_match_checks_bound(bodies, upto - 1, list, 0);
        assert(upto * bodies.len() == (upto - 1) * bodies.len() + bodies.len())
            by (nonlinear_arith);
    } else {
        assert(upto * bodies.len() == 0) by (nonlinear_arith)
            requires
                upto == 0,
        ;
    }
}

/// The index holds the first `upto` bodies, each in the bucket of its
/// smallest node, in ascending order.
pub open spec fn buckets_hold(m: Map<usize, Seq<usize>>, nodes: Seq<usize>, upto: int) -> bool {
    forall|n: usize|
        #![trigger m.contains_key(n)]
        #![trigger same_node(nodes, n, upto)]
        (m.contains_key(n) <==> same_node(nodes, n, upto).len() > 0) && (m.contains_key(n)
            ==> m[n] == same_node(nodes, n, upto))
}

/// Checks each body against the bodies that share its smallest node, up to
/// the first collision found.
pub fn collisions(quad_tree: &StaticQuadTree, bodies: &Vec<Body>) -> (pass: CollisionPass)
    ensures
        pass.events@ == first_matches(
            bodies@,
            smallest_nodes(quad_tree@, spec_rects(bodies@)),
            bodies@.len() as int,
        ),
        pass.checks == first_match_checks(
            bodies@,
            smallest_nodes(quad_tree@, spec_rects(bodies@)),
            bodies@.len() as int,
        ),
{
    let rects = body_rects(bodies);
    let len = bodies.len();
    let ghost nodes = smallest_nodes(quad_tree@, rects@);
    let mut spatial_index = index_new();
    let mut tree_positions: Vec<usize> = Vec::new();

    let mut j: usize = 0;
    while j < len
        invariant
            0 <= j <= len,
            len == bodies@.len(),
            rects@ == spec_rects(bodies@),
            nodes == smallest_nodes(quad_tree@, rects@),
            tree_positions@ =~= nodes.take(j as int),
            buckets_hold(bucket_map(spatial_index), nodes, j as int),
        decreases len - j,
    {
        let node = quad_tree.smallest_node(&rects[j]);
        assert(node == nodes[j as int]);
        tree_positions.push(node);
        let ghost before = bucket_map(spatial_index);
        let mut bucket = match index_remove(&mut spatial_index, node) {
            Some(bucket) => bucket,
            None => Vec::new(),
        };
        proof {
            assert(before.contains_key(node) <==> same_node(nodes, node, j as int).len() > 0);
            assert(bucket@ =~= same_node(nodes, node, j as int));
        }
        bucket.push(j);
        index_insert(&mut spatial_index, node, bucket);
        proof {
            let after = bucket_map(spatial_index);
            assert forall|n: usize|
                #![trigger after.contains_key(n)]
                #![trigger same_node(nodes, n, j + 1)]
                (after.contains_key(n) <==> same_node(nodes, n, j + 1).len() > 0) && (
                after.contains_key(n) ==> after[n] == same_node(nodes, n, j + 1)) by {
                assert(before.contains_key(n) <==> same_node(nodes, n, j as int).len() > 0);
                if n != node {
                    assert(after.contains_key(n) == before.contains_key(n));
                }
            }
        }
        j += 1;
    }

    // AABB with spatial quadrants
    let mut events: Vec<OnCollision> = Vec::new();
    let mut n: u128 = 0;

    let mut i: usize = 0;
    while i < len
        invariant
            0 <= i <= len,
            len == bodies@.len(),
            rects@ == spec_rects(bodies@),
            nodes == smallest_nodes(quad_tree@, rects@),
            tree_positions@ == nodes,
            buckets_hold(bucket_map(spatial_index), nodes, len as int),
            events@ == first_matches(bodies@, nodes, i as int),
            n == first_match_checks(bodies@, nodes, i as int),
        decreases len - i,
    {
        let node = tree_positions[i];
        let ghost list = neighbours(bodies@, nodes, i as int);
        proof {
            lemma_same_node(nodes, node, len as int, i as int);
            lemma_first_match_checks_bound(bodies@, nodes, i as int);
            assert(i * len <= (len - 1) * len) by (nonlinear_arith)
                requires
                    0 <= i <= len - 1,
            ;
            assert((len - 1) * len + len <= usize::MAX * usize::MAX) by (nonlinear_arith)
                requires
                    1 <= len <= usize::MAX,
            ;
            assert(usize::MAX * usize::MAX <= u128::MAX) by (nonlinear_arith)
                requires
                    usize::MAX <= u64::MAX,
            ;
            assert(bucket_map(spatial_index).contains_key(node));
        }
        if let Some(entities_here) = index_get(&spatial_index, node) {
            let ghost checks_start = n;
            let mut found: Option<usize> = None;
            let mut c: usize = 0;
            while c < entities_here.len()
                invariant_except_break
                    found is None,
                    n <= checks_start + c,
                    first_match(bodies@, i as int, list, 0) == first_match(
                        bodies@,
                        i as int,
                        list,
                        c as int,
                    ),
                    checks_start + match_checks(bodies@, i as int, list, 0) == n + match_checks(
                        bodies@,
                        i as int,
                        list,
                        c as int,
                    ),
                invariant
                    0 <= c <= entities_here@.len(),
                    0 <= i < len,
                    len == bodies@.len(),
                    rects@ == spec_rects(bodies@),
                    entities_here@ == list,
                    list == neighbours(bodies@, nodes, i as int),
                    nodes.len() == len,
                    list.len() <= len,
                    checks_start + len <= u128::MAX,
                ensures
                    found == first_match(bodies@, i as int, list, 0),
                    found is Some ==> found.unwrap() < len,
                    n == checks_start + match_checks(bodies@, i as int, list, 0),
                decreases entities_here@.len() - c,
            {
                let other = entities_here[c];
                proof {
                    lemma_same_node(nodes, nodes[i as int], len as int, c as int);
                }
                if bodies[other].entity() != bodies[i].entity() {
                    n += 1;
                    if rects[i].intersect(&rects[other]) {
                        found = Some(other);
                        break;
                    }
                }
                c += 1;
            }
            if let Some(other) = found {
                events.push(
                    OnCollision { entity_a: bodies[i].entity(), entity_b: bodies[other].entity() },
                );
            }
        }
        i += 1;
    }
    CollisionPass { events, checks: n }
}

/// A match that is found stands in the list.
pub proof fn lemma_first_match_found(bodies: Seq<Body>, i: int, list: Seq<usize>, from: int)
    requires
        0 <= from,
        first_match(bodies, i, list, from) is Some,
    ensures
        list.contains(first_match(bodies, i, list, from).unwrap()),
        overlap(bodies[i], bodies[first_match(bodies, i, list, from).unwrap() as int]),
    decreases list.len() - from,
{
    if from < list.len() {
        if overlap(bodies[i], bodies[list[from] as int]) {
            assert(list[from] == first_match(bodies, i, list, from).unwrap());
        } else {
            lemma_first_match_found(bodies, i, list, from + 1);
        }
    }
}

} // verus!
