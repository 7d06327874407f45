use quadraster::abstract_segment::{AbstractLineSegment, Direction, ImplicitLine, SegType};
use quadraster::geometry::point::Point;
use quadraster::geometry::rect::Rect;

const PATH_ID: usize = 0;

#[test]
fn direction_sw() {
    let a = Point { x: 1, y: 0 };
    let b = Point { x: 0, y: 1 };
    let abs_seg = AbstractLineSegment::new(a, b, SegType::Linear, PATH_ID);
    assert_eq!(abs_seg.direction, Direction::SW);
}

#[test]
fn direction_se() {
    let a = Point { x: 0, y: 0 };
    let b = Point { x: 1, y: 1 };
    let abs_seg = AbstractLineSegment::new(a, b, SegType::Linear, PATH_ID);
    assert_eq!(abs_seg.direction, Direction::SE);
}

#[test]
fn direction_nw() {
    let a = Point { x: 1, y: 1 };
    let b = Point { x: 0, y: 0 };
    let abs_seg = AbstractLineSegment::new(a, b, SegType::Linear, PATH_ID);
    assert_eq!(abs_seg.direction, Direction::NW);
}

#[test]
fn direction_ne() {
    let a = Point { x: 0, y: 1 };
    let b = Point { x: 1, y: 0 };
    let abs_seg = AbstractLineSegment::new(a, b, SegType::Linear, PATH_ID);
    assert_eq!(abs_seg.direction, Direction::NE);
}

#[test]
fn bounding_box() {
    let a = Point { x: 2, y: 0 };
    let b = Point { x: 0, y: 3 };
    let abs_seg = AbstractLineSegment::new(a, b, SegType::Linear, PATH_ID);
    let expected = Rect::from_ltrb(0, 0, 2, 3).unwrap();
    assert_eq!(abs_seg.bounding_box, expected);
}

#[test]
fn is_left_pt1() {
    let a = Point { x: 2, y: 0 };
    let b = Point { x: 0, y: 3 };
    let abs_seg = AbstractLineSegment::new(a, b, SegType::Linear, PATH_ID);
    println!("{:?}", &abs_seg);
    let sample = Point { x: 1, y: 1 };
    assert!(abs_seg.is_left(sample.x, sample.y));
}

#[test]
fn is_left_pt2() {
    let a = Point { x: 0, y: 3 };
    let b = Point { x: 2, y: 0 };
    let abs_seg = AbstractLineSegment::new(a, b, SegType::Linear, PATH_ID);
    println!("{:?}", &abs_seg);
    let sample = Point { x: 1, y: 1 };
    assert!(abs_seg.is_left(sample.x, sample.y));
}

#[test]
fn is_left_pt3() {
    let a = Point { x: 20, y: 80 };
    let b = Point { x: 50, y: 20 };
    let abs_seg = AbstractLineSegment::new(a, b, SegType::Linear, PATH_ID);
    println!("{:?}", abs_seg);
    let sample = Point { x: 50, y: 50 };
    assert!(!abs_seg.is_left(sample.x, sample.y));
}

// The sample lies 0.01 right of the segment's middle; the grid is a
// hundredth of the segment's unit.
#[test]
fn is_right() {
    let a = Point { x: 0, y: 0 };
    let b = Point { x: 300, y: 200 };
    let abs_seg = AbstractLineSegment::new(a, b, SegType::Linear, PATH_ID);
    let sample = Point { x: 151, y: 100 };
    assert!(!abs_seg.is_left(sample.x, sample.y));
}

#[test]
fn is_in_bb() {
    let a = Point { x: 20, y: 20 };
    let b = Point { x: 50, y: 80 };
    let abs_seg = AbstractLineSegment::new(a, b, SegType::Linear, PATH_ID);
    let bb = Rect::from_ltrb(0, 0, 100, 100).unwrap();
    assert!(abs_seg.is_inside_bb(&bb));
}

#[test]
fn intersect_with_bb() {
    let a = Point { x: 20, y: 20 };
    let b = Point { x: 40, y: 90 };
    let abs_seg = AbstractLineSegment::new(a, b, SegType::Linear, PATH_ID);
    let bb = Rect::from_ltrb(50, 50, 100, 100).unwrap();
    assert!(!abs_seg.intersect_with_bb(&bb));
}

#[test]
fn not_intersect_with_bb_pt1() {
    let a = Point { x: 20, y: 20 };
    let b = Point { x: 50, y: 80 };
    let abs_seg = AbstractLineSegment::new(a, b, SegType::Linear, PATH_ID);
    let bb = Rect::from_ltrb(0, 0, 100, 100).unwrap();
    assert!(!abs_seg.intersect_with_bb(&bb));
}

#[test]
fn not_intersect_with_bb_pt2() {
    let a = Point { x: 20, y: 20 };
    let b = Point { x: 30, y: 30 };
    let abs_seg = AbstractLineSegment::new(a, b, SegType::Linear, PATH_ID);
    let bb = Rect::from_ltrb(50, 50, 100, 100).unwrap();
    assert!(!abs_seg.intersect_with_bb(&bb));
}

#[test]
fn crossing_segment_intersects_bb() {
    let abs_seg = AbstractLineSegment::new(
        Point { x: 20, y: 20 },
        Point { x: 80, y: 60 },
        SegType::Linear,
        PATH_ID,
    );
    let bb = Rect::from_ltrb(50, 0, 100, 100).unwrap();
    assert!(abs_seg.intersect_with_bb(&bb));
}

#[test]
fn implicit_line_is_canonical() {
    let forward = ImplicitLine::new(&Point { x: 2, y: 0 }, &Point { x: 0, y: 3 });
    assert_eq!((forward.a, forward.b, forward.c), (3, 2, -6));
    let backward = ImplicitLine::new(&Point { x: 0, y: 3 }, &Point { x: 2, y: 0 });
    assert_eq!(forward, backward);
    let level = ImplicitLine::new(&Point { x: 9, y: 5 }, &Point { x: 1, y: 5 });
    assert_eq!((level.a, level.b, level.c), (0, 8, -40));
    let dot = ImplicitLine::new(&Point { x: 7, y: 7 }, &Point { x: 7, y: 7 });
    assert_eq!((dot.a, dot.b, dot.c), (0, 0, 0));
}

#[test]
fn implicit_line_of_extreme_points() {
    let line = ImplicitLine::new(
        &Point { x: i32::MIN, y: i32::MIN },
        &Point { x: i32::MAX, y: i32::MAX },
    );
    assert_eq!((line.a, line.b, line.c), (4294967295, -4294967295, 0));
    let seg = AbstractLineSegment::new(
        Point { x: i32::MIN, y: i32::MAX },
        Point { x: i32::MAX, y: i32::MIN },
        SegType::Linear,
        PATH_ID,
    );
    assert_eq!(seg.eval(i32::MAX, i32::MAX), 4294967295i128 * 4294967295i128);
    assert_eq!(seg.eval(i32::MIN, i32::MIN), -4294967295i128 * 4294967295i128);
}

#[test]
fn reversal_keeps_the_line_and_negates_the_winding() {
    let cases = [
        ((0, 0), (5, 9)),
        ((5, 9), (-3, 2)),
        ((4, 4), (4, -8)),
        ((-6, 1), (7, 1)),
        ((3, 3), (3, 3)),
    ];
    for ((x0, y0), (x1, y1)) in cases {
        let p0 = Point { x: x0, y: y0 };
        let p1 = Point { x: x1, y: y1 };
        let s = AbstractLineSegment::new(p0, p1, SegType::Linear, PATH_ID);
        let r = AbstractLineSegment::new(p1, p0, SegType::Linear, PATH_ID);
        assert_eq!(s.implicit_line, r.implicit_line);
        assert_eq!(s.bounding_box, r.bounding_box);
        assert_eq!(s.direction.to_winding_inc(), -r.direction.to_winding_inc());
        for x in -10..10 {
            for y in -10..10 {
                assert_eq!(s.eval(x, y), r.eval(x, y));
            }
        }
    }
}

#[test]
fn winding_increment_of_each_direction() {
    assert_eq!(Direction::NE.to_winding_inc(), 1);
    assert_eq!(Direction::NW.to_winding_inc(), 1);
    assert_eq!(Direction::SE.to_winding_inc(), -1);
    assert_eq!(Direction::SW.to_winding_inc(), -1);
    assert_eq!(Direction::Horizontal.to_winding_inc(), 0);
}

#[test]
fn zero_length_segment_is_horizontal() {
    let p = Point { x: 4, y: 9 };
    let seg = AbstractLineSegment::new(p, p, SegType::Point, 3);
    assert_eq!(seg.direction, Direction::Horizontal);
    assert_eq!(seg.path_idx, 3);
    assert_eq!(seg.seg_type, SegType::Point);
    assert_eq!(seg.bounding_box, Rect::from_ltrb(4, 9, 4, 9).unwrap());
    assert!(seg.going_right());
    assert!(!seg.going_up());
}

#[test]
fn going_right_and_up_follow_the_direction() {
    let mk = |x1: i32, y1: i32| {
        AbstractLineSegment::new(Point { x: 0, y: 0 }, Point { x: x1, y: y1 }, SegType::Linear, 0)
    };
    assert_eq!((mk(1, -1).going_right(), mk(1, -1).going_up()), (true, true));
    assert_eq!((mk(-1, -1).going_right(), mk(-1, -1).going_up()), (false, true));
    assert_eq!((mk(1, 1).going_right(), mk(1, 1).going_up()), (true, false));
    assert_eq!((mk(-1, 1).going_right(), mk(-1, 1).going_up()), (false, false));
    assert_eq!((mk(-1, 0).going_right(), mk(-1, 0).going_up()), (true, false));
    // A vertical displacement counts as rightward.
    assert_eq!(mk(0, 5).direction, Direction::SE);
    assert_eq!(mk(0, -5).direction, Direction::NE);
}

#[test]
fn hit_chull_is_unknown() {
    let seg = AbstractLineSegment::new(
        Point { x: 0, y: 0 },
        Point { x: 5, y: 5 },
        SegType::Linear,
        PATH_ID,
    );
    assert_eq!(seg.hit_chull(&Point { x: 2, y: 2 }), -1);
    assert_eq!(seg.hit_chull(&Point { x: 100, y: -7 }), -1);
}

#[test]
fn shortcut_base_is_the_right_end() {
    let a = Point { x: 9, y: 1 };
    let b = Point { x: 2, y: 7 };
    assert_eq!(*AbstractLineSegment::new(a, b, SegType::Linear, 0).get_shortcut_base(), a);
    assert_eq!(*AbstractLineSegment::new(b, a, SegType::Linear, 0).get_shortcut_base(), a);
    // On a tie the end point is the base.
    let c = Point { x: 9, y: 30 };
    assert_eq!(*AbstractLineSegment::new(a, c, SegType::Linear, 0).get_shortcut_base(), c);
    assert_eq!(*AbstractLineSegment::new(c, a, SegType::Linear, 0).get_shortcut_base(), a);
}

#[test]
fn hit_shortcut_needs_slope_and_a_sample_above_the_base() {
    let cell = Rect::from_ltrb(0, 0, 50, 50).unwrap();
    let seg = AbstractLineSegment::new(
        Point { x: 40, y: 10 },
        Point { x: 70, y: 30 },
        SegType::Linear,
        PATH_ID,
    );
    assert!(seg.hit_shortcut(&cell, 10, 29));
    assert!(!seg.hit_shortcut(&cell, 10, 30));
    assert!(!seg.hit_shortcut(&cell, 50, 10));
    assert!(seg.hit_shortcut(&cell, 49, 10));
    let vertical = AbstractLineSegment::new(
        Point { x: 60, y: 10 },
        Point { x: 60, y: 40 },
        SegType::Linear,
        PATH_ID,
    );
    assert!(!vertical.hit_shortcut(&cell, 10, 5));
}

#[test]
fn is_left_is_strict() {
    let seg = AbstractLineSegment::new(
        Point { x: 20, y: 20 },
        Point { x: 80, y: 80 },
        SegType::Linear,
        PATH_ID,
    );
    assert_eq!(seg.eval(50, 50), 0);
    assert!(!seg.is_left(50, 50));
    assert!(seg.is_left(49, 50));
    assert!(!seg.is_left(51, 50));
    assert_eq!(seg.eval(49, 50), -60);
}
