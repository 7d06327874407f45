//! Half-open classification of a sample against a segment, and the sign
//! probes that tell which edges of a cell's 3x3 grid a segment crosses.
use crate::abstract_segment::AbstractLineSegment;
use crate::geometry::point::Point;
use crate::geometry::rect::{Rect, RectView};
use vstd::prelude::*;

verus! {

/// The side of `seg` that the sample `(x, y)` is on, as `-1`, `0` or `+1`.
///
/// With `(L, T, R, B)` the segment's bounding box:
/// - outside the vertical band `T < y <= B`, the sign is `0` unless
///   `L <= x < R`, where it is a constant that depends only on the segment's
///   direction and on whether the sample is above or below the band;
/// - inside the band, it is `-1` left of the box, `+1` at or right of `R`, and
///   otherwise the sign of the implicit function, with zero counted as `+1`.
pub open spec fn half_open_sign(seg: AbstractLineSegment, x: int, y: int) -> int {
    let bb = seg.bounding_box@;
    if y > bb.bottom || y <= bb.top {
        if !(bb.left <= x < bb.right) {
            0
        } else {
            let same_dir = seg.direction.spec_going_right() == seg.direction.spec_going_up();
            if y <= bb.top {
                if same_dir {
                    -1
                } else {
                    1
                }
            } else {
                if same_dir {
                    1
                } else {
                    -1
                }
            }
        }
    } else if x >= bb.right {
        1
    } else if x < bb.left {
        -1
    } else if seg.spec_eval(x, y) < 0 {
        -1
    } else {
        1
    }
}

/// Classifies the sample `(x, y)` against `seg`.
pub fn half_open_eval(seg: &AbstractLineSegment, x: i64, y: i64) -> (r: i32)
    ensures
        r == half_open_sign(*seg, x as int, y as int),
{
    let left: i64 = seg.bounding_box.left() as i64;
    let top: i64 = seg.bounding_box.top() as i64;
    let right: i64 = seg.bounding_box.right() as i64;
    let bottom: i64 = seg.bounding_box.bottom() as i64;

    // Outside the segment's vertical bbox: use a clipped constant sign.
    if y > bottom || y <= top {
        if !(left <= x && x < right) {
            return 0;
        }
        let same_dir = seg.going_right() == seg.going_up();

        // Above or below decides which sign to return.
        return if y <= top {
            if same_dir {
                -1
            } else {
                1
            }
        } else {
            if same_dir {
                1
            } else {
                -1
            }
        };
    }
    // Within vertical range: classify by x position relative to bbox.

    if x >= right {
        return 1;
    }
    if x < left {
        return -1;
    }
    // Inside bbox: try convex hull, then fall back to implicit evaluation.

    let sample = Point { x: x as i32, y: y as i32 };
    let check = seg.hit_chull(&sample);
    if check != -1 {
        return if check == 1 {
            -1
        } else {
            1
        };
    }
    // Fallback to implicit evaluation sign.

    if seg.eval(sample.x, sample.y) < 0 {
        -1
    } else {
        1
    }
}

/// Two signs differ strictly: one is negative and the other positive.
pub open spec fn flips(u: int, v: int) -> bool {
    u * v < 0
}

/// Which of the 18 probe edges around a parent cell a segment crosses.
///
/// ```text
///  TL --10-- T --11-- TR --14-- TI
///   |        |        |
///   7        8        9
///   |        |        |
///   L  --5-- C  --6-- R  --13-- I
///   |        |        |
///   2        3        4
///   |        |        |
///  BL --0--  B --1--  BR --12-- BI
/// ```
///
/// `cross15`, `cross16` and `cross17` compare the middle column with the far
/// column on the top, middle and bottom row.
#[derive(Debug, Clone, Copy, PartialEq, Eq, Structural)]
pub struct EdgeIntersectionInfo {
    pub cross0: bool,
    pub cross1: bool,
    pub cross2: bool,
    pub cross3: bool,
    pub cross4: bool,
    pub cross5: bool,
    pub cross6: bool,
    pub cross7: bool,
    pub cross8: bool,
    pub cross9: bool,
    pub cross10: bool,
    pub cross11: bool,
    pub cross12: bool,
    pub cross13: bool,
    pub cross14: bool,
    pub cross15: bool,
    pub cross16: bool,
    pub cross17: bool,
}

/// The `x` of the far probe column: `1024` widths and `1024` units beyond the
/// right edge.
pub open spec fn far_x(bound: RectView) -> int {
    bound.right + (bound.right - bound.left + 1) * 1024
}

impl EdgeIntersectionInfo {
    /// The crossings of `seg` around the cell `bound` with middle `mid`: an
    /// edge is crossed when the half-open signs at its two probes flip.
    #[verifier::opaque]
    pub open spec fn of(seg: AbstractLineSegment, bound: RectView, mid: Point) -> Self {
        let far = far_x(bound);
        let sign_l = half_open_sign(seg, bound.left, mid.y as int);
        let sign_c = half_open_sign(seg, mid.x as int, mid.y as int);
        let sign_r = half_open_sign(seg, bound.right, mid.y as int);
        let sign_i = half_open_sign(seg, far, mid.y as int);
        let sign_bl = half_open_sign(seg, bound.left, bound.bottom);
        let sign_b = half_open_sign(seg, mid.x as int, bound.bottom);
        let sign_br = half_open_sign(seg, bound.right, bound.bottom);
        let sign_bi = half_open_sign(seg, far, bound.bottom);
        let sign_tl = half_open_sign(seg, bound.left, bound.top);
        let sign_t = half_open_sign(seg, mid.x as int, bound.top);
        let sign_tr = half_open_sign(seg, bound.right, bound.top);
        let sign_ti = half_open_sign(seg, far, bound.top);
        EdgeIntersectionInfo {
            cross0: flips(sign_bl, sign_b),
            cross1: flips(sign_b, sign_br),
            cross2: flips(sign_bl, sign_l),
            cross3: flips(sign_b, sign_c),
            cross4: flips(sign_br, sign_r),
            cross5: flips(sign_l, sign_c),
            cross6: flips(sign_c, sign_r),
            cross7: flips(sign_tl, sign_l),
            cross8: flips(sign_t, sign_c),
            cross9: flips(sign_tr, sign_r),
            cross10: flips(sign_tl, sign_t),
            cross11: flips(sign_t, sign_tr),
            cross12: flips(sign_br, sign_bi),
            cross13: flips(sign_r, sign_i),
            cross14: flips(sign_tr, sign_ti),
            cross15: flips(sign_t, sign_ti),
            cross16: flips(sign_c, sign_i),
            cross17: flips(sign_b, sign_bi),
        }
    }

    /// Probes the twelve points around the cell and tells which edges between
    /// them the segment crosses.
    pub fn new(seg: &AbstractLineSegment, parent_bound: &Rect, mid_point: &Point) -> (r: Self)
        ensures
            r == Self::of(*seg, parent_bound@, *mid_point),
    {
        reveal(EdgeIntersectionInfo::of);
        let left: i64 = parent_bound.left() as i64;
        let top: i64 = parent_bound.top() as i64;
        let right: i64 = parent_bound.right() as i64;
        let bottom: i64 = parent_bound.bottom() as i64;
        let mid_x: i64 = mid_point.x as i64;
        let mid_y: i64 = mid_point.y as i64;
        // Extend a ray far beyond the right boundary for winding number evaluation.
        let far_x: i64 = right + (parent_bound.width() + 1) * 1024;
        let sign_l = half_open_eval(seg, left, mid_y);
        let sign_c = half_open_eval(seg, mid_x, mid_y);
        let sign_r = half_open_eval(seg, right, mid_y);
        let sign_i = half_open_eval(seg, far_x, mid_y);
        let sign_bl = half_open_eval(seg, left, bottom);
        let sign_b = half_open_eval(seg, mid_x, bottom);
        let sign_br = half_open_eval(seg, right, bottom);
        let sign_bi = half_open_eval(seg, far_x, bottom);
        let sign_tl = half_open_eval(seg, left, top);
        let sign_t = half_open_eval(seg, mid_x, top);
        let sign_tr = half_open_eval(seg, right, top);
        let sign_ti = half_open_eval(seg, far_x, top);
        Self {
            cross0: sign_flip(sign_bl, sign_b),
            cross1: sign_flip(sign_b, sign_br),
            cross2: sign_flip(sign_bl, sign_l),
            cross3: sign_flip(sign_b, sign_c),
            cross4: sign_flip(sign_br, sign_r),
            cross5: sign_flip(sign_l, sign_c),
            cross6: sign_flip(sign_c, sign_r),
            cross7: sign_flip(sign_tl, sign_l),
            cross8: sign_flip(sign_t, sign_c),
            cross9: sign_flip(sign_tr, sign_r),
            cross10: sign_flip(sign_tl, sign_t),
            cross11: sign_flip(sign_t, sign_tr),
            cross12: sign_flip(sign_br, sign_bi),
            cross13: sign_flip(sign_r, sign_i),
            cross14: sign_flip(sign_tr, sign_ti),
            cross15: sign_flip(sign_t, sign_ti),
            cross16: sign_flip(sign_c, sign_i),
            cross17: sign_flip(sign_b, sign_bi),
        }
    }
}

/// Whether the product of two signs is negative.
fn sign_flip(u: i32, v: i32) -> (r: bool)
    requires
        -1 <= u <= 1,
        -1 <= v <= 1,
    ensures
        r == flips(u as int, v as int),
{
    assert(-1 <= u * v <= 1) by (nonlinear_arith)
        requires
            -1 <= u <= 1,
            -1 <= v <= 1,
    ;
    u * v < 0
}

/// The number of adjacent pairs of a sampling `xs` of the row `y` at which
/// the half-open sign of `seg` flips.
pub open spec fn flip_count(seg: AbstractLineSegment, xs: Seq<int>, y: int) -> nat
    decreases xs.len(),
{
    if xs.len() < 2 {
        0
    } else {
        let rest = flip_count(seg, xs.drop_last(), y);
        if flips(
            half_open_sign(seg, xs[xs.len() - 2], y),
            half_open_sign(seg, xs[xs.len() - 1], y),
        ) {
            rest + 1
        } else {
            rest
        }
    }
}

/// `xs` increases from left to right.
pub open spec fn increasing(xs: Seq<int>) -> bool {
    forall|i: int, j: int| 0 <= i < j < xs.len() ==> xs[i] <= xs[j]
}

/// Along a row, the half-open sign is a step.
///
/// Inside the band `T < y <= B` it is `-1` or `+1`, never decreases from left
/// to right, is `-1` left of the bounding box and `+1` from its right edge on.
/// Outside the band it is `0` away from the columns `L <= x < R` and one
/// constant within them, so no two samples of the row differ strictly.
pub proof fn lemma_half_open_step(seg: AbstractLineSegment, x1: int, x2: int, y: int)
    requires
        seg.wf(),
        x1 <= x2,
    ensures
        -1 <= half_open_sign(seg, x1, y) <= 1,
        seg.bounding_box@.top < y <= seg.bounding_box@.bottom ==> {
            &&& half_open_sign(seg, x1, y) != 0
            &&& half_open_sign(seg, x1, y) <= half_open_sign(seg, x2, y)
            &&& (x1 < seg.bounding_box@.left ==> half_open_sign(seg, x1, y) == -1)
            &&& (x1 >= seg.bounding_box@.right ==> half_open_sign(seg, x1, y) == 1)
        },
        !(seg.bounding_box@.top < y <= seg.bounding_box@.bottom) ==> {
            &&& (half_open_sign(seg, x1, y) == 0 <==> !(seg.bounding_box@.left <= x1
                < seg.bounding_box@.right))
            &&& !flips(half_open_sign(seg, x1, y), half_open_sign(seg, x2, y))
        },
{
    let a = seg.implicit_line.a as int;
    assert(a >= 0);
    assert(a * x1 <= a * x2) by (nonlinear_arith)
        requires
            a >= 0,
            x1 <= x2,
    ;
    let u = half_open_sign(seg, x1, y);
    let v = half_open_sign(seg, x2, y);
    assert(-1 <= u <= 1 && -1 <= v <= 1);
    crate::abstract_segment::lemma_negative_product(u, v);
}

/// Half-open coverage: a sampling of a row, taken from left to right, sees
/// the sign of a segment flip at most once. It flips exactly once when the
/// row is inside the segment's band `T < y <= B` and the sampling starts on
/// the segment's negative side and ends on its positive side, as it does
/// when it starts left of the bounding box and ends at or beyond its right
/// edge. It never flips on a row outside the band.
pub proof fn lemma_half_open_coverage(seg: AbstractLineSegment, xs: Seq<int>, y: int)
    requires
        seg.wf(),
        increasing(xs),
        xs.len() >= 1,
    ensures
        flip_count(seg, xs, y) == if seg.bounding_box@.top < y <= seg.bounding_box@.bottom
            && half_open_sign(seg, xs[0], y) < 0 && half_open_sign(seg, xs[xs.len() - 1], y) > 0 {
            1nat
        } else {
            0nat
        },
    decreases xs.len(),
{
    if xs.len() >= 2 {
        let n = xs.len() as int;
        let init = xs.drop_last();
        assert(increasing(init));
        lemma_half_open_coverage(seg, init, y);
        lemma_half_open_step(seg, xs[0], xs[n - 2], y);
        lemma_half_open_step(seg, xs[n - 2], xs[n - 1], y);
        lemma_half_open_step(seg, xs[0], xs[n - 1], y);
        let u = half_open_sign(seg, xs[n - 2], y);
        let v = half_open_sign(seg, xs[n - 1], y);
        crate::abstract_segment::lemma_negative_product(u, v);
        assert(init[0] == xs[0]);
        assert(init[init.len() - 1] == xs[n - 2]);
    }
}

} // verus!
