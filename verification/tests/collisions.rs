use my_library::{check_collisions, AxisAlignedBoundingBox, Body, OnCollision, Point, StaticQuadTree};

fn body(entity: u64, x: i64, y: i64, width: i64, height: i64) -> Body {
    Body::new(entity, Point { x, y }, AxisAlignedBoundingBox::new(width, height)).unwrap()
}

fn world() -> StaticQuadTree {
    StaticQuadTree::new(Point { x: 1024, y: 768 }, 4)
}

fn pairs(events: &[OnCollision]) -> Vec<(u64, u64)> {
    let mut pairs: Vec<(u64, u64)> = events.iter().map(|e| (e.entity_a, e.entity_b)).collect();
    pairs.sort();
    pairs.dedup();
    pairs
}

#[test]
fn two_bodies_at_the_origin_collide() {
    let tree = world();
    assert_eq!(tree.len(), 341);
    let a = vec![body(1, 0, 0, 8, 8)];
    let b = vec![body(2, 0, 0, 8, 8)];
    let events = check_collisions(&tree, &a, &b);
    assert!(!events.is_empty());
    for e in events.iter() {
        assert_eq!(*e, OnCollision { entity_a: 1, entity_b: 2 });
    }
    assert_eq!(pairs(&events), vec![(1, 2)]);
}

#[test]
fn bodies_in_opposite_corners_do_not_collide() {
    let tree = world();
    let a = vec![body(1, -500, -380, 8, 8)];
    let b = vec![body(2, 500, 380, 8, 8)];
    assert!(check_collisions(&tree, &a, &b).is_empty());
    let both = vec![body(1, -500, -380, 8, 8), body(2, 500, 380, 8, 8)];
    assert!(check_collisions(&tree, &both, &both).is_empty());
}

#[test]
fn bodies_closer_than_their_widths_collide() {
    // Coordinates in tenths of a unit.
    let tree = StaticQuadTree::new(Point { x: 10240, y: 7680 }, 4);
    let a = vec![body(1, 0, 0, 80, 80)];
    let near = vec![body(2, 79, 0, 80, 80)];
    let far = vec![body(2, 81, 0, 80, 80)];
    assert_eq!(pairs(&check_collisions(&tree, &a, &near)), vec![(1, 2)]);
    assert!(check_collisions(&tree, &a, &far).is_empty());
}

#[test]
fn a_body_never_collides_with_itself() {
    let tree = world();
    let bodies = vec![body(7, 10, 10, 8, 8)];
    assert!(check_collisions(&tree, &bodies, &bodies).is_empty());
}

#[test]
fn identity_decides_not_shape_or_position() {
    let tree = world();
    // Two different bodies of the same shape at the same place.
    let bodies = vec![body(1, 10, 10, 8, 8), body(2, 10, 10, 8, 8)];
    let events = check_collisions(&tree, &bodies, &bodies);
    assert_eq!(pairs(&events), vec![(1, 2), (2, 1)]);
}

#[test]
fn bodies_across_a_quadrant_boundary_are_found() {
    let tree = world();
    // One body on each side of the vertical split, overlapping across it.
    let a = vec![body(1, -3, 100, 8, 8)];
    let b = vec![body(2, 3, 100, 8, 8)];
    assert_eq!(pairs(&check_collisions(&tree, &a, &b)), vec![(1, 2)]);
    assert_eq!(pairs(&check_collisions(&tree, &b, &a)), vec![(2, 1)]);
}

#[test]
fn every_overlapping_pair_is_reported() {
    let tree = world();
    let a = vec![body(1, 0, 0, 8, 8), body(2, 100, 100, 8, 8), body(3, -200, 50, 8, 8)];
    let b = vec![
        body(10, 2, 2, 8, 8),
        body(11, 104, 96, 8, 8),
        body(12, 300, 300, 8, 8),
        body(13, -2, -2, 8, 8),
    ];
    assert_eq!(pairs(&check_collisions(&tree, &a, &b)), vec![(1, 10), (1, 13), (2, 11)]);
}

#[test]
fn agrees_with_the_full_scan() {
    let tree = world();
    let mut bodies = Vec::new();
    let mut seed: i64 = 12345;
    for entity in 0..200u64 {
        seed = (seed * 1103515245 + 12345) % 2147483648;
        let x = seed % 1000 - 500;
        seed = (seed * 1103515245 + 12345) % 2147483648;
        let y = seed % 740 - 370;
        bodies.push(body(entity, x, y, 16, 16));
    }
    let mut expected = Vec::new();
    for a in bodies.iter() {
        for b in bodies.iter() {
            if a.entity() != b.entity() && a.rect().intersect(&b.rect()) {
                expected.push((a.entity(), b.entity()));
            }
        }
    }
    expected.sort();
    assert!(!expected.is_empty());
    assert_eq!(pairs(&check_collisions(&tree, &bodies, &bodies)), expected);
}

#[test]
fn the_same_query_twice_reports_the_same_pairs() {
    let tree = world();
    let a = vec![body(1, 0, 0, 8, 8), body(2, 100, 100, 8, 8), body(3, -3, 0, 8, 8)];
    let b = vec![body(10, 2, 2, 8, 8), body(11, 104, 96, 8, 8), body(3, -3, 0, 8, 8)];
    let first = check_collisions(&tree, &a, &b);
    let second = check_collisions(&tree, &a, &b);
    assert_eq!(pairs(&first), pairs(&second));
    assert_eq!(pairs(&first), vec![(1, 3), (1, 10), (2, 11), (3, 10)]);
}

#[test]
fn bodies_outside_the_world_are_not_reported() {
    let tree = world();
    let a = vec![body(1, 2000, 2000, 8, 8)];
    let b = vec![body(2, 2001, 2001, 8, 8)];
    assert!(check_collisions(&tree, &a, &b).is_empty());
}

#[test]
fn no_bodies_no_events() {
    let tree = world();
    let none: Vec<Body> = Vec::new();
    let some = vec![body(1, 0, 0, 8, 8)];
    assert!(check_collisions(&tree, &none, &some).is_empty());
    assert!(check_collisions(&tree, &some, &none).is_empty());
    assert!(check_collisions(&tree, &none, &none).is_empty());
}

#[test]
fn a_body_keeps_what_it_was_made_of() {
    let b = body(9, 100, -50, 8, 6);
    assert_eq!(b.entity(), 9);
    assert_eq!(b.position(), Point { x: 100, y: -50 });
    assert_eq!(b.bounding_box().half_size(), Point { x: 4, y: 3 });
    assert_eq!(b.rect().min, Point { x: 96, y: -53 });
    assert_eq!(b.rect().max, Point { x: 104, y: -47 });
}

#[test]
fn a_body_that_cannot_be_placed_is_refused() {
    let aabb = AxisAlignedBoundingBox::new(8, 8);
    assert!(Body::new(1, Point { x: i64::MAX - 4, y: 0 }, aabb).is_some());
    assert!(Body::new(1, Point { x: i64::MAX - 3, y: 0 }, aabb).is_none());
    assert!(Body::new(1, Point { x: 0, y: i64::MIN + 3 }, aabb).is_none());
}
