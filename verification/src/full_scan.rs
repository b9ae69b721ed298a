//! The full scan: every body tested against every other body, without a
//! spatial index. It is the measure for the indexed queries.

use crate::collision::{body_rects, event_of, overlap, spec_rects, Body, OnCollision};
use vstd::prelude::*;

verus! {

/// What a collision pass found, and how many pairs it had to test.
#[derive(Debug)]
pub struct CollisionPass {
    /// The collisions found, in the order in which they were found.
    pub events: Vec<OnCollision>,
    /// The number of pairs of different bodies that were tested.
    pub checks: u128,
}

/// The events of the full scan for the `i`-th body against the first `upto`
/// bodies.
pub open spec fn scan_row(bodies: Seq<Body>, i: int, upto: int) -> Seq<OnCollision>
    decreases upto,
{
    if upto <= 0 {
        Seq::empty()
    } else if overlap(bodies[i], bodies[upto - 1]) {
        scan_row(bodies, i, upto - 1).push(event_of(bodies[i], bodies[upto - 1]))
    } else {
        scan_row(bodies, i, upto - 1)
    }
}

/// The events of the full scan for the first `upto` bodies, each against
/// all bodies.
pub open spec fn scan_rows(bodies: Seq<Body>, upto: int) -> Seq<OnCollision>
    decreases upto,
{
    if upto <= 0 {
        Seq::empty()
    } else {
        scan_rows(bodies, upto - 1) + scan_row(bodies, upto - 1, bodies.len() as int)
    }
}

/// How many of the first `upto` bodies are other bodies than the `i`-th.
pub open spec fn row_checks(bodies: Seq<Body>, i: int, upto: int) -> nat
    decreases upto,
{
    if upto <= 0 {
        0
    } else if bodies[i].spec_entity() != bodies[upto - 1].spec_entity() {
        row_checks(bodies, i, upto - 1) + 1
    } else {
        row_checks(bodies, i, upto - 1)
    }
}

/// How many pairs of different bodies the full scan tests for the first
/// `upto` bodies.
pub open spec fn scan_checks(bodies: Seq<Body>, upto: int) -> nat
    decreases upto,
{
    if upto <= 0 {
        0
    } else {
        scan_checks(bodies, upto - 1) + row_checks(bodies, upto - 1, bodies.len() as int)
    }
}

/// One row tests no more pairs than there are bodies.
pub proof fn lemma_row_checks_bound(bodies: Seq<Body>, i: int, upto: int)
    requires
        0 <= upto,
    ensures
        row_checks(bodies, i, upto) <= upto,
    decreases upto,
{
    if upto > 0 {
        lemma_row_checks_bound(bodies, i, upto - 1);
    }
}

/// The scan of `upto` rows tests no more than `upto` times the number of
/// bodies.
pub proof fn lemma_scan_checks_bound(bodies: Seq<Body>, upto: int)
    requires
        0 <= upto,
    ensures
        scan_checks(bodies, upto) <= upto * bodies.len(),
    decreases upto,
{
    if upto > 0 {
        lemma_scan_checks_bound(bodies, upto - 1);
        lemma_row_checks_bound(bodies, upto - 1, bodies.len() as int);
        assert(upto * bodies.len() == (upto - 1) * bodies.len() + bodies.len())
            by (nonlinear_arith);
    } else {
        assert(upto * bodies.len() == 0) by (nonlinear_arith)
            requires
                upto == 0,
        ;
    }
}

/// Checks every body against every other body.
#[allow(non_snake_case)]
pub fn collisions_AABB(bodies: &Vec<Body>) -> (pass: CollisionPass)
    ensures
        pass.events@ == scan_rows(bodies@, bodies@.len() as int),
        pass.checks == scan_checks(bodies@, bodies@.len() as int),
{
    let rects = body_rects(bodies);
    let mut events: Vec<OnCollision> = Vec::new();
    // AABB Collision
    let mut n: u128 = 0;
    let len = bodies.len();

    let mut i: usize = 0;
    while i < len
        invariant
            0 <= i <= len,
            len == bodies@.len(),
            rects@ == spec_rects(bodies@),
            events@ == scan_rows(bodies@, i as int),
            n == scan_checks(bodies@, i as int),
        decreases len - i,
    {
        let ghost row_start = events@;
        let ghost checks_start = n;
        let mut j: usize = 0;
        proof {
            lemma_scan_checks_bound(bodies@, i as int);
            assert(i * len <= (len - 1) * len) by (nonlinear_arith)
                requires
                    0 <= i <= len - 1,
            ;
            assert((len - 1) * len + len <= usize::MAX * usize::MAX) by (nonlinear_arith)
                requires
                    1 <= len <= usize::MAX,
            ;
            assert(usize::MAX * usize::MAX <= u128::MAX) by (nonlinear_arith)
                requires
                    usize::MAX <= u64::MAX,
            ;
        }
        while j < len
            invariant
                0 <= j <= len,
                0 <= i < len,
                len == bodies@.len(),
                rects@ == spec_rects(bodies@),
                events@ == row_start + scan_row(bodies@, i as int, j as int),
                n == checks_start + row_checks(bodies@, i as int, j as int),
                checks_start + len <= u128::MAX,
            decreases len - j,
        {
            proof {
                lemma_row_checks_bound(bodies@, i as int, j as int);
            }
            if bodies[i].entity() != bodies[j].entity() {
                if rects[i].intersect(&rects[j]) {
                    events.push(
                        OnCollision { entity_a: bodies[i].entity(), entity_b: bodies[j].entity() },
                    );
                }
                n += 1;
            }
            j += 1;
            assert(events@ =~= row_start + scan_row(bodies@, i as int, j as int));
        }
        i += 1;
    }
    CollisionPass { events, checks: n }
}

/// The full scan reports exactly the pairs of different bodies whose
/// rectangles overlap: every event names such a pair, and every such pair
/// is named by an event.
pub proof fn lemma_scan_reports(bodies: Seq<Body>, e: OnCollision)
    ensures
        scan_rows(bodies, bodies.len() as int).contains(e) <==> exists|i: int, j: int|
            0 <= i < bodies.len() && 0 <= j < bodies.len() && #[trigger] overlap(
                bodies[i],
                bodies[j],
            ) && e == event_of(bodies[i], bodies[j]),
{
    lemma_rows_report(bodies, bodies.len() as int, e);
}

/// One row of the scan holds an event exactly when it names the row's body
/// and one of the first `upto` bodies that overlaps it.
pub proof fn lemma_row_reports(bodies: Seq<Body>, i: int, upto: int, e: OnCollision)
    requires
        0 <= upto <= bodies.len(),
    ensures
        scan_row(bodies, i, upto).contains(e) <==> exists|j: int|
            0 <= j < upto && #[trigger] overlap(bodies[i], bodies[j]) && e == event_of(
                bodies[i],
                bodies[j],
            ),
    decreases upto,
{
    if upto > 0 {
        lemma_row_reports(bodies, i, upto - 1, e);
        let rest = scan_row(bodies, i, upto - 1);
        if overlap(bodies[i], bodies[upto - 1]) {
            let last = event_of(bodies[i], bodies[upto - 1]);
            crate::collision::lemma_push_contains(rest, last, e);
            if rest.push(last).contains(e) && !rest.contains(e) {
                let q = choose|q: int| 0 <= q < rest.push(last).len() && rest.push(last)[q] == e;
                if q < rest.len() {
                    assert(rest[q] == e);
                }
                assert(e == last);
            }
        }
        if scan_row(bodies, i, upto).contains(e) {
            if rest.contains(e) {
                let j = choose|j: int|
                    0 <= j < upto - 1 && #[trigger] overlap(bodies[i], bodies[j]) && e == event_of(
                        bodies[i],
                        bodies[j],
                    );
                assert(overlap(bodies[i], bodies[j]));
            } else {
                assert(overlap(bodies[i], bodies[upto - 1]));
            }
        }
    } else {
        assert(scan_row(bodies, i, upto) =~= Seq::<OnCollision>::empty());
    }
}

/// The first `upto` rows of the scan hold an event exactly when it names
/// one of the first `upto` bodies and a body that overlaps it.
pub proof fn lemma_rows_report(bodies: Seq<Body>, upto: int, e: OnCollision)
    requires
        0 <= upto <= bodies.len(),
    ensures
        scan_rows(bodies, upto).contains(e) <==> exists|i: int, j: int|
            0 <= i < upto && 0 <= j < bodies.len() && #[trigger] overlap(bodies[i], bodies[j])
                && e == event_of(bodies[i], bodies[j]),
    decreases upto,
{
    if upto > 0 {
        lemma_rows_report(bodies, upto - 1, e);
        lemma_row_reports(bodies, upto - 1, bodies.len() as int, e);
        let front = scan_rows(bodies, upto - 1);
        let row = scan_row(bodies, upto - 1, bodies.len() as int);
        assert((front + row).contains(e) == (front.contains(e) || row.contains(e))) by {
            if (front + row).contains(e) {
                let q = choose|q: int| 0 <= q < (front + row).len() && (front + row)[q] == e;
                if q < front.len() {
                    assert(front[q] == e);
                } else {
                    assert(row[q - front.len()] == e);
                }
            }
            if front.contains(e) {
                let q = choose|q: int| 0 <= q < front.len() && front[q] == e;
                assert((front + row)[q] == e);
            }
            if row.contains(e) {
                let q = choose|q: int| 0 <= q < row.len() && row[q] == e;
                assert((front + row)[front.len() + q] == e);
            }
        }
        if front.contains(e) {
            let (i, j) = choose|i: int, j: int|
                0 <= i < upto - 1 && 0 <= j < bodies.len() && #[trigger] overlap(
                    bodies[i],
                    bodies[j],
                ) && e == event_of(bodies[i], bodies[j]);
            assert(overlap(bodies[i], bodies[j]));
        }
        if row.contains(e) {
            let j = choose|j: int|
                0 <= j < bodies.len() && #[trigger] overlap(bodies[upto - 1], bodies[j]) && e
                    == event_of(bodies[upto - 1], bodies[j]);
            assert(overlap(bodies[upto - 1], bodies[j]));
        }
        if exists|i: int, j: int|
            0 <= i < upto && 0 <= j < bodies.len() && #[trigger] overlap(bodies[i], bodies[j])
                && e == event_of(bodies[i], bodies[j]) {
            let (i, j) = choose|i: int, j: int|
                0 <= i < upto && 0 <= j < bodies.len() && #[trigger] overlap(bodies[i], bodies[j])
                    && e == event_of(bodies[i], bodies[j]);
            if i < upto - 1 {
                assert(overlap(bodies[i], bodies[j]));
            } else {
                assert(overlap(bodies[upto - 1], bodies[j]));
            }
        }
    } else {
        assert(scan_rows(bodies, upto) =~= Seq::<OnCollision>::empty());
    }
}

} // verus!
