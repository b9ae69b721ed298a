//! What holds of the collision queries.

use crate::collision::{
    collide, event_of, is_report, overlap, reports_exactly, Body, OnCollision,
};
use crate::first_match::{first_match, first_matches, lemma_first_match_found, neighbours};
use crate::full_scan::{lemma_scan_reports, scan_rows};
use crate::tree_layout::NodeView;
use vstd::prelude::*;

verus! {

/// Two runs of the query on the same tree and the same bodies report the
/// same set of pairs, however often each pair is reported and in whatever
/// order.
pub proof fn lemma_query_idempotent(
    first: Seq<OnCollision>,
    second: Seq<OnCollision>,
    t: Seq<NodeView>,
    query_a: Seq<Body>,
    query_b: Seq<Body>,
)
    requires
        reports_exactly(first, t, query_a, query_b),
        reports_exactly(second, t, query_a, query_b),
    ensures
        first.to_set() == second.to_set(),
{
    assert forall|e: OnCollision| first.to_set().contains(e) == second.to_set().contains(e) by {
        lemma_reported_is_report(first, t, query_a, query_b, e);
        lemma_reported_is_report(second, t, query_a, query_b, e);
    }
    assert(first.to_set() =~= second.to_set());
}

/// The query reports an event exactly when the event names a colliding
/// pair.
pub proof fn lemma_reported_is_report(
    events: Seq<OnCollision>,
    t: Seq<NodeView>,
    query_a: Seq<Body>,
    query_b: Seq<Body>,
    e: OnCollision,
)
    requires
        reports_exactly(events, t, query_a, query_b),
    ensures
        events.contains(e) == is_report(t, query_a, query_b, e),
{
    if events.contains(e) {
        let k = choose|k: int| 0 <= k < events.len() && events[k] == e;
        assert(is_report(t, query_a, query_b, events[k]));
    }
    if is_report(t, query_a, query_b, e) {
        let (i, j) = choose|i: int, j: int|
            0 <= i < query_a.len() && 0 <= j < query_b.len() && #[trigger] collide(
                t,
                query_a[i],
                query_b[j],
            ) && e == event_of(query_a[i], query_b[j]);
        assert(collide(t, query_a[i], query_b[j]));
    }
}

/// The rectangle of every body overlaps the world of the tree.
pub open spec fn all_in_world(t: Seq<NodeView>, bodies: Seq<Body>) -> bool {
    forall|i: int| 0 <= i < bodies.len() ==> t[0].bounds.spec_intersect((#[trigger] bodies[i]).spec_rect())
}

/// Where every body overlaps the world, the query of the bodies against
/// themselves reports the same set of pairs as the full scan: every pair of
/// different bodies whose rectangles overlap, and nothing else.
pub proof fn lemma_query_agrees_with_scan(
    events: Seq<OnCollision>,
    t: Seq<NodeView>,
    bodies: Seq<Body>,
)
    requires
        reports_exactly(events, t, bodies, bodies),
        all_in_world(t, bodies),
    ensures
        events.to_set() == scan_rows(bodies, bodies.len() as int).to_set(),
{
    let scan = scan_rows(bodies, bodies.len() as int);
    assert forall|e: OnCollision| events.to_set().contains(e) == scan.to_set().contains(e) by {
        lemma_reported_is_report(events, t, bodies, bodies, e);
        lemma_scan_reports(bodies, e);
        if is_report(t, bodies, bodies, e) {
            let (i, j) = choose|i: int, j: int|
                0 <= i < bodies.len() && 0 <= j < bodies.len() && #[trigger] collide(
                    t,
                    bodies[i],
                    bodies[j],
                ) && e == event_of(bodies[i], bodies[j]);
            assert(overlap(bodies[i], bodies[j]));
        }
        if scan.contains(e) {
            let (i, j) = choose|i: int, j: int|
                0 <= i < bodies.len() && 0 <= j < bodies.len() && #[trigger] overlap(
                    bodies[i],
                    bodies[j],
                ) && e == event_of(bodies[i], bodies[j]);
            assert(collide(t, bodies[i], bodies[j]));
        }
    }
    assert(events.to_set() =~= scan.to_set());
}

/// Whatever the query reports, the full scan reports too: a body outside
/// the world can only lose collisions, never add one.
pub proof fn lemma_query_within_scan(
    events: Seq<OnCollision>,
    t: Seq<NodeView>,
    bodies: Seq<Body>,
    e: OnCollision,
)
    requires
        reports_exactly(events, t, bodies, bodies),
        events.contains(e),
    ensures
        scan_rows(bodies, bodies.len() as int).contains(e),
{
    lemma_reported_is_report(events, t, bodies, bodies, e);
    lemma_scan_reports(bodies, e);
    let (i, j) = choose|i: int, j: int|
        0 <= i < bodies.len() && 0 <= j < bodies.len() && #[trigger] collide(
            t,
            bodies[i],
            bodies[j],
        ) && e == event_of(bodies[i], bodies[j]);
    assert(overlap(bodies[i], bodies[j]));
}

/// Every event of the coarse query names two different bodies whose
/// rectangles overlap, so the full scan reports it too; the coarse query
/// reports at most one event for each body.
pub proof fn lemma_first_matches_within_scan(
    bodies: Seq<Body>,
    nodes: Seq<usize>,
    upto: int,
    e: OnCollision,
)
    requires
        0 <= upto <= bodies.len(),
        nodes.len() == bodies.len(),
        bodies.len() <= usize::MAX,
    ensures
        first_matches(bodies, nodes, upto).len() <= upto,
        first_matches(bodies, nodes, upto).contains(e) ==> scan_rows(
            bodies,
            bodies.len() as int,
        ).contains(e),
    decreases upto,
{
    if upto > 0 {
        lemma_first_matches_within_scan(bodies, nodes, upto - 1, e);
        let before = first_matches(bodies, nodes, upto - 1);
        let list = neighbours(bodies, nodes, upto - 1);
        if first_matches(bodies, nodes, upto).contains(e) && !before.contains(e) {
            let found = first_match(bodies, upto - 1, list, 0);
            let j = found.unwrap();
            let all = before.push(event_of(bodies[upto - 1], bodies[j as int]));
            let q = choose|q: int| 0 <= q < all.len() && all[q] == e;
            if q < before.len() {
                assert(before[q] == e);
            }
            lemma_first_match_found(bodies, upto - 1, list, 0);
            let c = choose|c: int| 0 <= c < list.len() && list[c] == j;
            crate::first_match::lemma_same_node(nodes, nodes[upto - 1], bodies.len() as int, c);
            lemma_scan_reports(bodies, e);
            assert(overlap(bodies[upto - 1], bodies[j as int]));
        }
    }
}

} // verus!
