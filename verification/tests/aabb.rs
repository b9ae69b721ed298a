use my_library::{AxisAlignedBoundingBox, Point, Rect2D};

#[test]
fn new_halves_the_size() {
    let aabb = AxisAlignedBoundingBox::new(8, 8);
    assert_eq!(aabb.half_size(), Point { x: 4, y: 4 });
    let aabb = AxisAlignedBoundingBox::new(24, 48);
    assert_eq!(aabb.half_size(), Point { x: 12, y: 24 });
    let aabb = AxisAlignedBoundingBox::new(7, 1);
    assert_eq!(aabb.half_size(), Point { x: 3, y: 0 });
}

#[test]
fn as_rect_is_centered_on_the_position() {
    let aabb = AxisAlignedBoundingBox::new(8, 6);
    let r = aabb.as_rect(Point { x: 100, y: -50 });
    assert_eq!(r, Rect2D::new(Point { x: 96, y: -53 }, Point { x: 104, y: -47 }));
}

#[test]
fn the_same_box_serves_many_positions() {
    let aabb = AxisAlignedBoundingBox::new(8, 8);
    let first = aabb.as_rect(Point { x: 0, y: 0 });
    let second = aabb.as_rect(Point { x: 10, y: 10 });
    assert_eq!(first, Rect2D::new(Point { x: -4, y: -4 }, Point { x: 4, y: 4 }));
    assert_eq!(second, Rect2D::new(Point { x: 6, y: 6 }, Point { x: 14, y: 14 }));
}

#[test]
fn fits_at_tells_when_the_corners_overflow() {
    let aabb = AxisAlignedBoundingBox::new(8, 8);
    assert!(aabb.fits_at(Point { x: 0, y: 0 }));
    assert!(aabb.fits_at(Point { x: i64::MAX - 4, y: i64::MIN + 4 }));
    assert!(!aabb.fits_at(Point { x: i64::MAX - 3, y: 0 }));
    assert!(!aabb.fits_at(Point { x: 0, y: i64::MIN + 3 }));
}

#[test]
fn boxes_closer_than_their_half_widths_overlap() {
    // Coordinates in tenths: half extents 4.0, centers 7.9 apart.
    let aabb = AxisAlignedBoundingBox::new(80, 80);
    let a = aabb.as_rect(Point { x: 0, y: 0 });
    let b = aabb.as_rect(Point { x: 79, y: 0 });
    assert!(a.intersect(&b));
    assert!(b.intersect(&a));
}

#[test]
fn boxes_farther_than_their_half_widths_do_not_overlap() {
    // Coordinates in tenths: half extents 4.0, centers 8.1 apart.
    let aabb = AxisAlignedBoundingBox::new(80, 80);
    let a = aabb.as_rect(Point { x: 0, y: 0 });
    let b = aabb.as_rect(Point { x: 81, y: 0 });
    assert!(!a.intersect(&b));
    assert!(!b.intersect(&a));
}

#[test]
fn boxes_exactly_their_half_widths_apart_touch() {
    let aabb = AxisAlignedBoundingBox::new(80, 80);
    let a = aabb.as_rect(Point { x: 0, y: 0 });
    let b = aabb.as_rect(Point { x: 80, y: 0 });
    assert!(a.intersect(&b));
}
