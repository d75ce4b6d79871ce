use soft_renderer::rect::{Point, Rect};

fn rect(left: i32, top: i32, right: i32, bottom: i32) -> Rect {
    Rect::new(Point::new(left, top), Point::new(right, bottom))
}

#[test]
fn new_keeps_the_corners() {
    let r = Rect::new(Point::new(1, 2), Point::new(3, 4));
    assert_eq!(r.left, 1);
    assert_eq!(r.top, 2);
    assert_eq!(r.right, 3);
    assert_eq!(r.bottom, 4);
    assert!(r.is_valid());
}

#[test]
fn a_single_point_is_a_valid_rectangle() {
    let r = Rect::new(Point::new(7, -3), Point::new(7, -3));
    assert!(r.is_valid());
    assert_eq!((r.left, r.right, r.top, r.bottom), (7, 7, -3, -3));
}

#[test]
fn is_valid_rejects_swapped_edges() {
    let r = Rect { left: 5, top: 0, bottom: 1, right: 4 };
    assert!(!r.is_valid());
    let r = Rect { left: 0, top: 3, bottom: 2, right: 4 };
    assert!(!r.is_valid());
}

#[test]
fn from_bounding_of_three_points() {
    let pts = [Point::new(10, 70), Point::new(50, 160), Point::new(70, 80)];
    let r = Rect::from_bounding(&pts);
    assert_eq!(r.left, 10);
    assert_eq!(r.top, 70);
    assert_eq!(r.right, 70);
    assert_eq!(r.bottom, 160);
}

#[test]
fn from_bounding_of_one_point() {
    let r = Rect::from_bounding(&[Point::new(-4, 9)]);
    assert_eq!(r, Rect { left: -4, top: 9, bottom: 9, right: -4 });
    assert!(r.is_valid());
}

#[test]
fn from_bounding_reaches_the_extremes() {
    let pts = [Point::new(i32::MAX, i32::MIN), Point::new(i32::MIN, i32::MAX), Point::new(0, 0)];
    let r = Rect::from_bounding(&pts);
    assert_eq!(r, Rect { left: i32::MIN, top: i32::MIN, bottom: i32::MAX, right: i32::MAX });
}

#[test]
fn from_bounding_ignores_the_order_of_points() {
    let a = Rect::from_bounding(&[Point::new(3, 1), Point::new(-2, 8), Point::new(5, 5)]);
    let b = Rect::from_bounding(&[Point::new(5, 5), Point::new(3, 1), Point::new(-2, 8)]);
    assert_eq!(a, b);
    assert_eq!(a, Rect { left: -2, top: 1, bottom: 8, right: 5 });
}

#[test]
fn disjoint_rectangles_do_not_intersect() {
    let a = rect(0, 0, 10, 10);
    let b = rect(20, 20, 30, 30);
    assert_eq!(a.intersect(b), None);
    assert_eq!(b.intersect(a), None);
}

#[test]
fn disjoint_on_one_axis_only() {
    let a = rect(0, 0, 10, 10);
    assert_eq!(a.intersect(rect(11, 0, 20, 10)), None);
    assert_eq!(a.intersect(rect(0, 11, 10, 20)), None);
    assert_eq!(a.intersect(rect(-20, 0, -1, 10)), None);
    assert_eq!(a.intersect(rect(0, -20, 10, -1)), None);
}

#[test]
fn overlap_is_the_coordinate_wise_clamp() {
    let a = rect(0, 0, 10, 10);
    let b = rect(5, -5, 15, 7);
    assert_eq!(a.intersect(b), Some(Rect { left: 5, top: 0, bottom: 7, right: 10 }));
}

#[test]
fn intersection_is_commutative() {
    let samples = [
        rect(0, 0, 10, 10),
        rect(5, -5, 15, 7),
        rect(10, 10, 12, 12),
        rect(-3, 2, 4, 3),
        rect(20, 20, 30, 30),
        rect(2, 2, 2, 2),
    ];
    for a in samples.iter() {
        for b in samples.iter() {
            assert_eq!(a.intersect(*b), b.intersect(*a));
        }
    }
}

#[test]
fn touching_rectangles_share_an_edge() {
    let a = rect(0, 0, 10, 10);
    let b = rect(10, 3, 20, 5);
    assert_eq!(a.intersect(b), Some(Rect { left: 10, top: 3, bottom: 5, right: 10 }));
}

#[test]
fn a_rectangle_inside_another_is_the_intersection() {
    let outer = rect(-100, -100, 100, 100);
    let inner = rect(-1, 2, 3, 4);
    assert_eq!(outer.intersect(inner), Some(inner));
    assert_eq!(inner.intersect(inner), Some(inner));
}
