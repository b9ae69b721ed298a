//! This module implements a collision detection framework on top of the
//! static quadtree.

use crate::aabb::AxisAlignedBoundingBox;
use crate::node_set::node_set_items;
use crate::rect2d::{lemma_intersect_outer, Point, Rect2D};
use crate::spatial_index::{
    bucket_map, index_get, index_insert, index_new, index_remove, SpatialIndex,
};
use crate::static_quadtree::StaticQuadTree;
use crate::tree_layout::NodeView;
use crate::tree_structure::{all_hits, lemma_all_below_root, lemma_subtree_within};
use vstd::prelude::*;

verus! {

/// A tracked body: who it is, where it is, and how large it is. The corners
/// of its rectangle can be written as coordinates.
#[derive(Clone, Copy, Debug)]
pub struct Body {
    /// Identifies the body; two bodies are the same exactly when their
    /// identifiers are equal.
    entity: u64,
    /// The current position of the body's center.
    position: Point,
    /// The extent of the body around its position.
    bounding_box: AxisAlignedBoundingBox,
}

impl Body {
    /// The identifier of the body.
    pub closed spec fn spec_entity(self) -> u64 {
        self.entity
    }

    /// The position of the body's center.
    pub closed spec fn spec_position(self) -> Point {
        self.position
    }

    /// The extent of the body around its position.
    pub closed spec fn spec_bounding_box(self) -> AxisAlignedBoundingBox {
        self.bounding_box
    }

    /// The corners of the body's rectangle can be written as coordinates.
    #[verifier::type_invariant]
    pub closed spec fn placed(self) -> bool {
        self.bounding_box.can_place(self.position)
    }

    /// The rectangle that the body covers.
    pub open spec fn spec_rect(self) -> Rect2D {
        self.spec_bounding_box().spec_as_rect(self.spec_position())
    }

    /// Makes the body with the given identifier, position and extent;
    /// `None` where a corner of its rectangle cannot be written as
    /// coordinates.
    pub fn new(entity: u64, position: Point, bounding_box: AxisAlignedBoundingBox) -> (body: Option<
        Self,
    >)
        ensures
            body is Some == bounding_box.can_place(position),
            body is Some ==> body.unwrap().spec_entity() == entity,
            body is Some ==> body.unwrap().spec_position() == position,
            body is Some ==> body.unwrap().spec_bounding_box() == bounding_box,
            body is Some ==> body.unwrap().placed(),
    {
        if bounding_box.fits_at(position) {
            Some(Self { entity, position, bounding_box })
        } else {
            None
        }
    }

    /// The identifier of the body.
    pub fn entity(&self) -> (entity: u64)
        ensures
            entity == self.spec_entity(),
    {
        self.entity
    }

    /// The position of the body's center.
    pub fn position(&self) -> (position: Point)
        ensures
            position == self.spec_position(),
    {
        self.position
    }

    /// The extent of the body around its position.
    pub fn bounding_box(&self) -> (bounding_box: AxisAlignedBoundingBox)
        ensures
            bounding_box == self.spec_bounding_box(),
    {
        self.bounding_box
    }

    /// The rectangle that the body covers.
    pub fn rect(&self) -> (rect: Rect2D)
        ensures
            rect == self.spec_rect(),
    {
        proof {
            use_type_invariant(self);
        }
        self.bounding_box.as_rect(self.position)
    }
}

/// The rectangles of the bodies, in their order.
pub open spec fn spec_rects(bodies: Seq<Body>) -> Seq<Rect2D> {
    bodies.map_values(|b: Body| b.spec_rect())
}

/// Computes the rectangle of each body.
pub fn body_rects(bodies: &Vec<Body>) -> (rects: Vec<Rect2D>)
    ensures
        rects@ == spec_rects(bodies@),
{
    let mut rects: Vec<Rect2D> = Vec::new();
    let mut i: usize = 0;
    while i < bodies.len()
        invariant
            0 <= i <= bodies@.len(),
            rects@ =~= spec_rects(bodies@).take(i as int),
        decreases bodies@.len() - i,
    {
        rects.push(bodies[i].rect());
        i += 1;
    }
    rects
}

/// The `j`-th rectangle is one of the first `upto` and overlaps the bounds
/// of the node at `n`.
pub open spec fn registered(
    t: Seq<NodeView>,
    rects: Seq<Rect2D>,
    upto: int,
    n: usize,
    j: usize,
) -> bool {
    j < upto && j < rects.len() && all_hits(t, rects[j as int]).contains(n)
}

/// The bucket of the node at `n` holds `j`.
pub open spec fn in_bucket(m: Map<usize, Seq<usize>>, n: usize, j: usize) -> bool {
    m.contains_key(n) && m[n].contains(j)
}

/// The index holds the first `upto` rectangles: each of them in the bucket
/// of every node whose bounds it overlaps, and nothing else.
pub open spec fn index_holds(
    m: Map<usize, Seq<usize>>,
    t: Seq<NodeView>,
    rects: Seq<Rect2D>,
    upto: int,
) -> bool {
    forall|n: usize, j: usize|
        #![trigger in_bucket(m, n, j)]
        #![trigger registered(t, rects, upto, n, j)]
        in_bucket(m, n, j) == registered(t, rects, upto, n, j)
}

/// `n` is one of the first `p` entries of `nodes`.
pub open spec fn listed(nodes: Seq<usize>, p: int, n: usize) -> bool {
    exists|q: int| 0 <= q < p && q < nodes.len() && #[trigger] nodes[q] == n
}

/// Registers each rectangle in the bucket of every node whose bounds it
/// overlaps.
pub fn build_index(tree: &StaticQuadTree, rects: &Vec<Rect2D>) -> (index: SpatialIndex)
    ensures
        index_holds(bucket_map(index), tree@, rects@, rects@.len() as int),
{
    let mut index = index_new();
    let mut j: usize = 0;
    while j < rects.len()
        invariant
            0 <= j <= rects@.len(),
            index_holds(bucket_map(index), tree@, rects@, j as int),
        decreases rects@.len() - j,
    {
        let hits = tree.intersecting_nodes(&rects[j]);
        let nodes = node_set_items(&hits);
        let mut p: usize = 0;
        while p < nodes.len()
            invariant
                0 <= p <= nodes@.len(),
                0 <= j < rects@.len(),
                nodes@.no_duplicates(),
                nodes@.to_set() == all_hits(tree@, rects@[j as int]),
                forall|n: usize, jj: usize|
                    #![trigger in_bucket(bucket_map(index), n, jj)]
                    #![trigger registered(tree@, rects@, j as int, n, jj)]
                    in_bucket(bucket_map(index), n, jj) == (registered(
                        tree@,
                        rects@,
                        j as int,
                        n,
                        jj,
                    ) || (jj == j && listed(nodes@, p as int, n))),
            decreases nodes@.len() - p,
        {
            let node = nodes[p];
            let ghost before = bucket_map(index);
            let mut bucket = match index_remove(&mut index, node) {
                Some(bucket) => bucket,
                None => Vec::new(),
            };
            let ghost old_bucket = bucket@;
            bucket.push(j);
            index_insert(&mut index, node, bucket);
            proof {
                let after = bucket_map(index);
                assert(after =~= before.insert(node, old_bucket.push(j)));
                assert forall|n: usize, jj: usize|
                    #![trigger in_bucket(after, n, jj)]
                    #![trigger registered(tree@, rects@, j as int, n, jj)]
                    in_bucket(after, n, jj) == (registered(tree@, rects@, j as int, n, jj) || (jj
                        == j && listed(nodes@, p + 1, n))) by {
                    assert(in_bucket(before, n, jj) == (registered(tree@, rects@, j as int, n, jj)
                        || (jj == j && listed(nodes@, p as int, n))));
                    if n == node {
                        assert(after[n] == old_bucket.push(j));
                        if old_bucket.push(j).contains(jj) {
                            let q = choose|q: int|
                                0 <= q < old_bucket.push(j).len() && old_bucket.push(j)[q] == jj;
                            if q < old_bucket.len() {
                                assert(old_bucket[q] == jj);
                                assert(old_bucket.contains(jj));
                                assert(in_bucket(before, n, jj));
                            }
                        }
                        if in_bucket(before, n, jj) {
                            let q = choose|q: int|
                                0 <= q < old_bucket.len() && old_bucket[q] == jj;
                            assert(old_bucket.push(j)[q] == jj);
                        }
                        assert(old_bucket.push(j)[old_bucket.len() as int] == j);
                        assert(nodes@[p as int] == n);
                        assert(listed(nodes@, p + 1, n));
                    } else {
                        assert(in_bucket(after, n, jj) == in_bucket(before, n, jj));
                        if listed(nodes@, p + 1, n) {
                            let q = choose|q: int|
                                0 <= q < p + 1 && q < nodes@.len() && nodes@[q] == n;
                            assert(q < p);
                            assert(listed(nodes@, p as int, n));
                        }
                        if listed(nodes@, p as int, n) {
                            let q = choose|q: int|
                                0 <= q < p && q < nodes@.len() && nodes@[q] == n;
                            assert(listed(nodes@, p + 1, n));
                        }
                    }
                }
            }
            p += 1;
        }
        proof {
            let m = bucket_map(index);
            assert forall|n: usize, jj: usize|
                #![trigger in_bucket(m, n, jj)]
                #![trigger registered(tree@, rects@, j + 1, n, jj)]
                in_bucket(m, n, jj) == registered(tree@, rects@, j + 1, n, jj) by {
                assert(in_bucket(m, n, jj) == (registered(tree@, rects@, j as int, n, jj) || (jj
                    == j && listed(nodes@, nodes@.len() as int, n))));
                if listed(nodes@, nodes@.len() as int, n) {
                    let q = choose|q: int| 0 <= q < nodes@.len() && nodes@[q] == n;
                    assert(nodes@.to_set().contains(n));
                }
                if all_hits(tree@, rects@[j as int]).contains(n) {
                    assert(nodes@.to_set().contains(n));
                    assert(nodes@.contains(n));
                }
            }
        }
        j += 1;
    }
    index
}

/// This event messages when a collision was detected
#[derive(Clone, Copy, Debug, PartialEq, Eq, Structural)]
pub struct OnCollision {
    /// First colliding entity identifier
    pub entity_a: u64,
    /// Second colliding entity identifier
    pub entity_b: u64,
}

/// The event that names `a` and `b`.
pub open spec fn event_of(a: Body, b: Body) -> OnCollision {
    OnCollision { entity_a: a.spec_entity(), entity_b: b.spec_entity() }
}

/// The two bodies are different bodies, and their rectangles overlap.
pub open spec fn overlap(a: Body, b: Body) -> bool {
    a.spec_entity() != b.spec_entity() && a.spec_rect().spec_intersect(b.spec_rect())
}

/// The two bodies are different bodies whose rectangles overlap each other
/// and the world of the tree.
pub open spec fn collide(t: Seq<NodeView>, a: Body, b: Body) -> bool {
    &&& overlap(a, b)
    &&& t[0].bounds.spec_intersect(a.spec_rect())
    &&& t[0].bounds.spec_intersect(b.spec_rect())
}

/// The event names a body of `query_a` and a body of `query_b` that
/// collide.
pub open spec fn is_report(
    t: Seq<NodeView>,
    query_a: Seq<Body>,
    query_b: Seq<Body>,
    e: OnCollision,
) -> bool {
    exists|i: int, j: int|
        0 <= i < query_a.len() && 0 <= j < query_b.len() && #[trigger] collide(
            t,
            query_a[i],
            query_b[j],
        ) && e == event_of(query_a[i], query_b[j])
}

/// Every event names a colliding pair, and every colliding pair among the
/// first `upto` bodies of `query_a` and all of `query_b` is named by an
/// event.
pub open spec fn reports_upto(
    events: Seq<OnCollision>,
    t: Seq<NodeView>,
    query_a: Seq<Body>,
    query_b: Seq<Body>,
    upto: int,
) -> bool {
    &&& forall|k: int| 0 <= k < events.len() ==> is_report(t, query_a, query_b, #[trigger] events[k])
    &&& forall|i: int, j: int|
        0 <= i < upto && i < query_a.len() && 0 <= j < query_b.len() && #[trigger] collide(
            t,
            query_a[i],
            query_b[j],
        ) ==> events.contains(event_of(query_a[i], query_b[j]))
}

/// The events name the colliding pairs of `query_a` and `query_b`, all of
/// them and nothing else.
pub open spec fn reports_exactly(
    events: Seq<OnCollision>,
    t: Seq<NodeView>,
    query_a: Seq<Body>,
    query_b: Seq<Body>,
) -> bool {
    reports_upto(events, t, query_a, query_b, query_a.len() as int)
}

/// What was in a sequence is in it after a push, and so is what was pushed.
pub proof fn lemma_push_contains<T>(s: Seq<T>, x: T, y: T)
    ensures
        s.push(x).contains(x),
        s.contains(y) ==> s.push(x).contains(y),
{
    assert(s.push(x)[s.len() as int] == x);
    if s.contains(y) {
        let q = choose|q: int| 0 <= q < s.len() && s[q] == y;
        assert(s.push(x)[q] == y);
    }
}

/// A rectangle that overlaps the bounds of a node overlaps the world.
pub proof fn lemma_hit_overlaps_world(tree: StaticQuadTree, rect: Rect2D, n: usize)
    requires
        tree.well_formed(),
        all_hits(tree@, rect).contains(n),
    ensures
        tree@[0].bounds.spec_intersect(rect),
        all_hits(tree@, rect).contains(0),
{
    tree.lemma_is_layout();
    lemma_all_below_root(tree@, n as int);
    lemma_subtree_within(tree@, 0, n as int);
    lemma_intersect_outer(tree@[n as int].bounds, tree@[0].bounds, rect);
}

/// Checks whether collisions between the bodies of `query_a` and those of
/// `query_b` occur
pub fn check_collisions(
    quad_tree: &StaticQuadTree,
    query_a: &Vec<Body>,
    query_b: &Vec<Body>,
) -> (events: Vec<OnCollision>)
    ensures
        reports_exactly(events@, quad_tree@, query_a@, query_b@),
{
    let rects_b = body_rects(query_b);
    let spatial_index = build_index(quad_tree, &rects_b);
    let ghost t = quad_tree@;
    let ghost m = bucket_map(spatial_index);
    let mut events: Vec<OnCollision> = Vec::new();
    proof {
        use_type_invariant(quad_tree);
    }

    let mut i: usize = 0;
    while i < query_a.len()
        invariant
            0 <= i <= query_a@.len(),
            quad_tree.well_formed(),
            t == quad_tree@,
            m == bucket_map(spatial_index),
            rects_b@ == spec_rects(query_b@),
            index_holds(m, t, rects_b@, rects_b@.len() as int),
            reports_upto(events@, t, query_a@, query_b@, i as int),
        decreases query_a@.len() - i,
    {
        let body_a = &query_a[i];
        let bbox_a = body_a.rect();
        let hits = quad_tree.intersecting_nodes(&bbox_a);
        let nodes = node_set_items(&hits);
        let mut p: usize = 0;
        while p < nodes.len()
            invariant
                0 <= p <= nodes@.len(),
                0 <= i < query_a@.len(),
                quad_tree.well_formed(),
                t == quad_tree@,
                m == bucket_map(spatial_index),
                *body_a == query_a@[i as int],
                bbox_a == body_a.spec_rect(),
                nodes@.to_set() == all_hits(t, bbox_a),
                rects_b@ == spec_rects(query_b@),
                index_holds(m, t, rects_b@, rects_b@.len() as int),
                reports_upto(events@, t, query_a@, query_b@, i as int),
                forall|q: int, j: usize|
                    0 <= q < p && j < query_b@.len() && #[trigger] in_bucket(m, nodes@[q], j)
                        && overlap(query_a@[i as int], query_b@[j as int]) ==> events@.contains(
                        event_of(query_a@[i as int], query_b@[j as int]),
                    ),
            decreases nodes@.len() - p,
        {
            let node = nodes[p];
            assert(nodes@.to_set().contains(node));
            if let Some(contents) = index_get(&spatial_index, node) {
                let mut c: usize = 0;
                while c < contents.len()
                    invariant
                        0 <= c <= contents@.len(),
                        0 <= p < nodes@.len(),
                        0 <= i < query_a@.len(),
                        quad_tree.well_formed(),
                        t == quad_tree@,
                        m == bucket_map(spatial_index),
                        node == nodes@[p as int],
                        all_hits(t, bbox_a).contains(node),
                        m.contains_key(node),
                        contents@ == m[node],
                        *body_a == query_a@[i as int],
                        bbox_a == body_a.spec_rect(),
                        rects_b@ == spec_rects(query_b@),
                        index_holds(m, t, rects_b@, rects_b@.len() as int),
                        reports_upto(events@, t, query_a@, query_b@, i as int),
                        forall|q: int, j: usize|
                            0 <= q < p && j < query_b@.len() && #[trigger] in_bucket(
                                m,
                                nodes@[q],
                                j,
                            ) && overlap(query_a@[i as int], query_b@[j as int])
                                ==> events@.contains(
                                event_of(query_a@[i as int], query_b@[j as int]),
                            ),
                        forall|d: int|
                            0 <= d < c && overlap(
                                query_a@[i as int],
                                query_b@[(#[trigger] contents@[d]) as int],
                            ) ==> events@.contains(
                                event_of(query_a@[i as int], query_b@[contents@[d] as int]),
                            ),
                    decreases contents@.len() - c,
                {
                    let j = contents[c];
                    proof {
                        assert(contents@.contains(j));
                        assert(in_bucket(m, node, j));
                        assert(registered(t, rects_b@, rects_b@.len() as int, node, j));
                    }
                    let body_b = &query_b[j];
                    assert(rects_b@[j as int] == body_b.spec_rect());
                    if body_a.entity() != body_b.entity() && bbox_a.intersect(&rects_b[j]) {
                        let ghost before = events@;
                        let event = OnCollision {
                            entity_a: body_a.entity(),
                            entity_b: body_b.entity(),
                        };
                        events.push(event);
                        proof {
                            lemma_hit_overlaps_world(*quad_tree, bbox_a, node);
                            lemma_hit_overlaps_world(*quad_tree, rects_b@[j as int], node);
                            assert(collide(t, query_a@[i as int], query_b@[j as int]));
                            assert(is_report(t, query_a@, query_b@, event));
                            assert forall|e: OnCollision| before.contains(e) implies events@.contains(
                                e,
                            ) by {
                                lemma_push_contains(before, event, e);
                            }
                            lemma_push_contains(before, event, event);
                            assert forall|k: int| 0 <= k < events@.len() implies is_report(
                                t,
                                query_a@,
                                query_b@,
                                #[trigger] events@[k],
                            ) by {
                                if k < before.len() {
                                    assert(events@[k] == before[k]);
                                }
                            }
                        }
                    }
                    c += 1;
                }
                proof {
                    assert forall|q: int, j: usize|
                        0 <= q < p + 1 && j < query_b@.len() && #[trigger] in_bucket(
                            m,
                            nodes@[q],
                            j,
                        ) && overlap(
                            query_a@[i as int],
                            query_b@[j as int],
                        ) implies events@.contains(
                        event_of(query_a@[i as int], query_b@[j as int]),
                    ) by {
                        if q == p {
                            let d = choose|d: int| 0 <= d < contents@.len() && contents@[d] == j;
                            assert(contents@[d] == j);
                        }
                    }
                }
            } else {
                assert forall|j: usize| !in_bucket(m, node, j) by {}
            }
            p += 1;
        }
        proof {
            assert forall|j: int|
                0 <= j < query_b@.len() && #[trigger] collide(
                    t,
                    query_a@[i as int],
                    query_b@[j],
                ) implies events@.contains(event_of(query_a@[i as int], query_b@[j])) by {
                let root: usize = 0;
                quad_tree.lemma_is_layout();
                assert(all_hits(t, bbox_a).contains(root));
                assert(nodes@.to_set().contains(root));
                assert(nodes@.contains(root));
                let q = choose|q: int| 0 <= q < nodes@.len() && nodes@[q] == root;
                assert(all_hits(t, rects_b@[j]).contains(root));
                assert(registered(t, rects_b@, rects_b@.len() as int, root, j as usize));
                assert(in_bucket(m, nodes@[q], j as usize));
            }
        }
        i += 1;
    }
    events
}

} // verus!
