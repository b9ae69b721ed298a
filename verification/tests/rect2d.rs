use my_library::rect2d::midpoint;
use my_library::{Point, Rect2D};

fn rect(x0: i64, y0: i64, x1: i64, y1: i64) -> Rect2D {
    Rect2D::new(Point { x: x0, y: y0 }, Point { x: x1, y: y1 })
}

#[test]
fn new_keeps_corners() {
    let r = rect(-3, -4, 5, 6);
    assert_eq!(r.min, Point { x: -3, y: -4 });
    assert_eq!(r.max, Point { x: 5, y: 6 });
}

#[test]
fn overlapping_rectangles_intersect() {
    let a = rect(0, 0, 10, 10);
    let b = rect(5, 5, 15, 15);
    assert!(a.intersect(&b));
    assert!(b.intersect(&a));
}

#[test]
fn separate_rectangles_do_not_intersect() {
    let a = rect(0, 0, 10, 10);
    assert!(!a.intersect(&rect(11, 0, 20, 10)));
    assert!(!a.intersect(&rect(0, 11, 10, 20)));
    assert!(!a.intersect(&rect(-20, 0, -1, 10)));
    assert!(!a.intersect(&rect(0, -20, 10, -1)));
    assert!(!rect(11, 0, 20, 10).intersect(&a));
}

#[test]
fn touching_edges_count_as_intersecting() {
    let a = rect(0, 0, 10, 10);
    assert!(a.intersect(&rect(10, 0, 20, 10)));
    assert!(a.intersect(&rect(0, 10, 10, 20)));
    assert!(a.intersect(&rect(10, 10, 20, 20)));
    assert!(a.intersect(&rect(-5, -5, 0, 0)));
}

#[test]
fn intersect_is_symmetric_on_samples() {
    let samples = [
        rect(0, 0, 10, 10),
        rect(5, 5, 15, 15),
        rect(10, 10, 20, 20),
        rect(-8, -8, -1, -1),
        rect(3, -20, 4, 20),
        rect(0, 0, 0, 0),
    ];
    for a in samples.iter() {
        for b in samples.iter() {
            assert_eq!(a.intersect(b), b.intersect(a));
        }
    }
}

#[test]
fn a_rectangle_intersects_itself() {
    for r in [rect(0, 0, 10, 10), rect(-7, 2, -7, 2), rect(i64::MIN, i64::MIN, i64::MAX, i64::MAX)] {
        assert!(r.intersect(&r));
    }
}

#[test]
fn one_rectangle_inside_another_intersects() {
    assert!(rect(0, 0, 100, 100).intersect(&rect(40, 40, 60, 60)));
    assert!(rect(40, 40, 60, 60).intersect(&rect(0, 0, 100, 100)));
}

#[test]
fn midpoint_rounds_down() {
    assert_eq!(midpoint(0, 10), 5);
    assert_eq!(midpoint(0, 11), 5);
    assert_eq!(midpoint(-11, 0), -6);
    assert_eq!(midpoint(-10, 0), -5);
    assert_eq!(midpoint(-3, 4), 0);
    assert_eq!(midpoint(-4, 3), -1);
    assert_eq!(midpoint(7, 7), 7);
}

#[test]
fn midpoint_does_not_overflow() {
    assert_eq!(midpoint(i64::MAX, i64::MAX), i64::MAX);
    assert_eq!(midpoint(i64::MIN, i64::MIN), i64::MIN);
    assert_eq!(midpoint(i64::MIN, i64::MAX), -1);
    assert_eq!(midpoint(i64::MAX - 1, i64::MAX), i64::MAX - 1);
}

#[test]
fn center_is_the_midpoint_of_the_corners() {
    assert_eq!(rect(-512, -384, 512, 384).center(), Point { x: 0, y: 0 });
    assert_eq!(rect(0, 0, 10, 20).center(), Point { x: 5, y: 10 });
    assert_eq!(rect(2, 4, 9, 5).center(), Point { x: 5, y: 4 });
}

#[test]
fn quadrants_come_in_fixed_order() {
    let q = rect(-512, -384, 512, 384).quadrants();
    assert_eq!(q.len(), 4);
    assert_eq!(q[0], rect(-512, -384, 0, 0));
    assert_eq!(q[1], rect(0, -384, 512, 0));
    assert_eq!(q[2], rect(-512, 0, 0, 384));
    assert_eq!(q[3], rect(0, 0, 512, 384));
}

#[test]
fn quadrants_of_an_odd_sized_rectangle() {
    let q = rect(0, 0, 5, 3).quadrants();
    assert_eq!(q[0], rect(0, 0, 2, 1));
    assert_eq!(q[1], rect(2, 0, 5, 1));
    assert_eq!(q[2], rect(0, 1, 2, 3));
    assert_eq!(q[3], rect(2, 1, 5, 3));
}

#[test]
fn quadrants_cover_the_rectangle_and_nothing_else() {
    let a = rect(-3, -2, 4, 5);
    let q = a.quadrants();
    for x in -6..=7 {
        for y in -5..=8 {
            let p = rect(x, y, x, y);
            let inside = a.min.x <= x && x <= a.max.x && a.min.y <= y && y <= a.max.y;
            let in_some = q.iter().any(|r| r.min.x <= x && x <= r.max.x && r.min.y <= y && y <= r.max.y);
            assert_eq!(inside, in_some);
            assert_eq!(inside, a.intersect(&p));
        }
    }
}

#[test]
fn quadrants_share_edges_only() {
    let a = rect(-3, -2, 4, 5);
    let c = a.center();
    let q = a.quadrants();
    for i in 0..4 {
        for j in 0..4 {
            if i == j {
                continue;
            }
            for x in -3..=4 {
                for y in -2..=5 {
                    let in_i = q[i].min.x <= x && x <= q[i].max.x && q[i].min.y <= y && y <= q[i].max.y;
                    let in_j = q[j].min.x <= x && x <= q[j].max.x && q[j].min.y <= y && y <= q[j].max.y;
                    if in_i && in_j {
                        assert!(x == c.x || y == c.y);
                    }
                }
            }
        }
    }
}

#[test]
fn a_malformed_rectangle_is_not_checked() {
    // The corners are taken as they come; with the minimum beyond the
    // maximum the answers are wrong, not refused.
    let r = rect(10, 10, 0, 0);
    assert_eq!(r.min, Point { x: 10, y: 10 });
    assert_eq!(r.max, Point { x: 0, y: 0 });
    assert!(!r.intersect(&r));
}

#[test]
fn quadrants_of_an_even_sized_rectangle_are_equal() {
    let q = rect(-8, -6, 8, 6).quadrants();
    for r in q.iter() {
        assert_eq!(r.max.x - r.min.x, 8);
        assert_eq!(r.max.y - r.min.y, 6);
    }
}
