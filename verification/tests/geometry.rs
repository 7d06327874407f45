use quadraster::geometry::rect::Rect;

#[test]
fn rect_from_ordered_edges() {
    let r = Rect::from_ltrb(-5, 2, 7, 30).unwrap();
    assert_eq!(r.to_ltrb(), [-5, 2, 7, 30]);
    assert_eq!((r.left(), r.top(), r.right(), r.bottom()), (-5, 2, 7, 30));
    assert_eq!((r.x(), r.y()), (-5, 2));
    assert_eq!((r.width(), r.height()), (12, 28));
}

#[test]
fn rect_rejects_inverted_edges() {
    assert_eq!(Rect::from_ltrb(1, 0, 0, 5), None);
    assert_eq!(Rect::from_ltrb(0, 6, 9, 5), None);
    assert_eq!(Rect::from_ltrb(3, 3, 2, 2), None);
}

#[test]
fn rect_without_area_is_valid() {
    let r = Rect::from_ltrb(4, 4, 4, 4).unwrap();
    assert_eq!((r.width(), r.height()), (0, 0));
    assert_eq!(r.mid_point(), [4, 4]);
}

#[test]
fn rect_extent_may_exceed_32_bits() {
    let r = Rect::from_ltrb(i32::MIN, i32::MIN, i32::MAX, i32::MAX).unwrap();
    assert_eq!(r.width(), 4294967295);
    assert_eq!(r.height(), 4294967295);
    assert_eq!(r.mid_point(), [-1, -1]);
}

#[test]
fn rect_mid_point_rounds_toward_left_and_top() {
    assert_eq!(Rect::from_ltrb(0, 0, 100, 100).unwrap().mid_point(), [50, 50]);
    assert_eq!(Rect::from_ltrb(0, 0, 5, 7).unwrap().mid_point(), [2, 3]);
    assert_eq!(Rect::from_ltrb(-5, -7, 0, 0).unwrap().mid_point(), [-3, -4]);
    assert_eq!(Rect::from_ltrb(10, 20, 11, 21).unwrap().mid_point(), [10, 20]);
}

#[test]
fn rect_intersect_overlapping() {
    let a = Rect::from_ltrb(0, 0, 10, 10).unwrap();
    let b = Rect::from_ltrb(5, -3, 20, 7).unwrap();
    assert_eq!(a.intersect(&b), Rect::from_ltrb(5, 0, 10, 7));
    assert_eq!(b.intersect(&a), Rect::from_ltrb(5, 0, 10, 7));
}

#[test]
fn rect_intersect_touching_and_disjoint() {
    let a = Rect::from_ltrb(0, 0, 10, 10).unwrap();
    let touching = Rect::from_ltrb(10, 2, 20, 8).unwrap();
    assert_eq!(a.intersect(&touching), Rect::from_ltrb(10, 2, 10, 8));
    let apart = Rect::from_ltrb(11, 0, 20, 10).unwrap();
    assert_eq!(a.intersect(&apart), None);
}
