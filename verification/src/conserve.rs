//! Why a subdivision keeps the parity of every count, segment by segment.
use crate::abstract_segment::AbstractLineSegment;
use crate::cell_entry::{BOTTOM_LEFT, TOP_LEFT, TOP_RIGHT};
use crate::classify::{far_x, flips, half_open_sign, lemma_half_open_step, EdgeIntersectionInfo};
use crate::geometry::point::Point;
use crate::geometry::rect::RectView;
use crate::split::{
    carried, endpoint_in, horizontal_step, split_down, split_fill, split_up, split_winding,
    vertical_step,
};
use crate::subdivide::{child_rect, split_error};
use vstd::prelude::*;

verus! {

/// Whether the ray from `(x, y)` to the right crosses the segment, as the
/// rasterizer counts it: the sample is on the negative side of the segment
/// and within its rows `top <= y < bottom`.
pub open spec fn ray_crosses(s: AbstractLineSegment, x: int, y: int) -> bool {
    s.spec_is_left(x, y) && s.bounding_box@.top <= y < s.bounding_box@.bottom
}

/// Whether the point `p` lies right of the column `right`, below the row `y`
/// and above the row `bottom`.
pub open spec fn beyond(p: Point, right: int, y: int, bottom: int) -> bool {
    p.x > right && y < p.y < bottom
}

/// `1` where `b` holds, else `0`.
pub open spec fn one_if(b: bool) -> int {
    if b {
        1
    } else {
        0
    }
}

/// `k` times `u`, kept apart from linear reasoning.
#[verifier::opaque]
spec fn scaled(k: int, u: int) -> int {
    k * u
}

/// A product grows with its second factor where the first is positive, and
/// falls where it is negative.
proof fn lemma_scaled(k: int)
    ensures
        forall|u: int, v: int|
            u <= v ==> (k >= 0 ==> #[trigger] scaled(k, u) <= #[trigger] scaled(k, v)) && (k <= 0
                ==> scaled(k, u) >= scaled(k, v)),
        forall|u: int, v: int|
            u < v ==> (k > 0 ==> #[trigger] scaled(k, u) < #[trigger] scaled(k, v)) && (k < 0
                ==> scaled(k, u) > scaled(k, v)),
{
    reveal(scaled);
    assert forall|u: int, v: int| u <= v implies (k >= 0 ==> #[trigger] scaled(k, u)
        <= #[trigger] scaled(k, v)) && (k <= 0 ==> scaled(k, u) >= scaled(k, v)) by {
        assert((k >= 0 ==> k * u <= k * v) && (k <= 0 ==> k * u >= k * v)) by (nonlinear_arith)
            requires
                u <= v,
        ;
    }
    assert forall|u: int, v: int| u < v implies (k > 0 ==> #[trigger] scaled(k, u)
        < #[trigger] scaled(k, v)) && (k < 0 ==> scaled(k, u) > scaled(k, v)) by {
        assert((k > 0 ==> k * u < k * v) && (k < 0 ==> k * u > k * v)) by (nonlinear_arith)
            requires
                u < v,
        ;
    }
}

/// The implicit function is a sum of a part that depends on `x` alone and a
/// part that depends on `y` alone.
proof fn lemma_eval_split(s: AbstractLineSegment, x: int, y: int)
    ensures
        s.spec_eval(x, y) == scaled(s.implicit_line.a as int, x) + scaled(
            s.implicit_line.b as int,
            y,
        ) + s.implicit_line.c,
{
    reveal(scaled);
}

/// The terms that the crossings of a segment around a box are made of.
pub struct BoxSigns {
    pub up: bool,
    pub down: bool,
    pub right: bool,
    pub top: bool,
    pub bottom: bool,
    pub left: bool,
}

/// The crossings of `s` around the box `(cl, ct, cr, cb)`: of the ray from
/// its top right corner to the column `far`, of the ray from its bottom
/// right corner, and of its four edges.
#[verifier::opaque]
pub open spec fn box_signs(
    s: AbstractLineSegment,
    cl: int,
    ct: int,
    cr: int,
    cb: int,
    far: int,
) -> BoxSigns {
    BoxSigns {
        up: flips(half_open_sign(s, cr, ct), half_open_sign(s, far, ct)),
        down: flips(half_open_sign(s, cr, cb), half_open_sign(s, far, cb)),
        right: flips(half_open_sign(s, cr, ct), half_open_sign(s, cr, cb)),
        top: flips(half_open_sign(s, cl, ct), half_open_sign(s, cr, ct)),
        bottom: flips(half_open_sign(s, cl, cb), half_open_sign(s, cr, cb)),
        left: flips(half_open_sign(s, cl, ct), half_open_sign(s, cl, cb)),
    }
}

/// The crossings around a box, without products: two signs flip when one
/// is negative and the other positive.
proof fn lemma_box_flips(s: AbstractLineSegment, cl: int, ct: int, cr: int, cb: int, far: int)
    ensures
        ({
            let g = box_signs(s, cl, ct, cr, cb, far);
            let tl = half_open_sign(s, cl, ct);
            let tr = half_open_sign(s, cr, ct);
            let ti = half_open_sign(s, far, ct);
            let bl = half_open_sign(s, cl, cb);
            let br = half_open_sign(s, cr, cb);
            let bi = half_open_sign(s, far, cb);
            &&& g.up == ((tr < 0 && ti > 0) || (tr > 0 && ti < 0))
            &&& g.down == ((br < 0 && bi > 0) || (br > 0 && bi < 0))
            &&& g.right == ((tr < 0 && br > 0) || (tr > 0 && br < 0))
            &&& g.top == ((tl < 0 && tr > 0) || (tl > 0 && tr < 0))
            &&& g.bottom == ((bl < 0 && br > 0) || (bl > 0 && br < 0))
            &&& g.left == ((tl < 0 && bl > 0) || (tl > 0 && bl < 0))
        }),
{
    reveal(box_signs);
    let tl = half_open_sign(s, cl, ct);
    let tr = half_open_sign(s, cr, ct);
    let ti = half_open_sign(s, far, ct);
    let bl = half_open_sign(s, cl, cb);
    let br = half_open_sign(s, cr, cb);
    let bi = half_open_sign(s, far, cb);
    crate::abstract_segment::lemma_negative_product(tr, ti);
    crate::abstract_segment::lemma_negative_product(br, bi);
    crate::abstract_segment::lemma_negative_product(tr, br);
    crate::abstract_segment::lemma_negative_product(tl, tr);
    crate::abstract_segment::lemma_negative_product(bl, br);
    crate::abstract_segment::lemma_negative_product(tl, bl);
}

/// What the segment adds to the count at the pixel `(x, y)` of the box,
/// when it is kept in the box (`kept`) with the marker that its crossings
/// give it, plus the winding that its crossings give the box.
pub open spec fn box_count(
    s: AbstractLineSegment,
    g: BoxSigns,
    kept: bool,
    cr: int,
    x: int,
    y: int,
) -> int {
    (if kept {
        one_if(ray_crosses(s, x, y)) + one_if(
            g.right && !g.up && !g.down && s.spec_hit_shortcut(cr, x, y),
        )
    } else {
        0
    }) + one_if(g.right && !g.up && g.down) + one_if(g.down)
}

/// The conservation law of one box, for a segment that is not level.
#[verifier::spinoff_prover]
proof fn lemma_box_slanted(
    s: AbstractLineSegment,
    cl: int,
    ct: int,
    cr: int,
    cb: int,
    far: int,
    x: int,
    y: int,
    endpoint_here: bool,
)
    requires
        s.wf(),
        s.bounding_box@.top < s.bounding_box@.bottom,
        cl <= x < cr,
        ct <= y < cb,
        cr <= far,
        s.bounding_box@.right <= far,
        endpoint_here ==> (cl <= s.p0.x <= cr && ct <= s.p0.y <= cb) || (cl <= s.p1.x <= cr && ct
            <= s.p1.y <= cb),
        (cl < s.p0.x <= cr && ct < s.p0.y <= cb) || (cl < s.p1.x <= cr && ct < s.p1.y <= cb)
            ==> endpoint_here,
    ensures
        ({
            let g = box_signs(s, cl, ct, cr, cb, far);
            let kept = endpoint_here || g.top || g.bottom || g.left || g.right;
            (box_count(s, g, kept, cr, x, y) - one_if(ray_crosses(s, x, y)) - one_if(
                beyond(s.p0, cr, y, cb),
            ) - one_if(beyond(s.p1, cr, y, cb))) % 2 == 0
        }),
{
    lemma_box_flips(s, cl, ct, cr, cb, far);
    let a = s.implicit_line.a as int;
    let b = s.implicit_line.b as int;
    lemma_scaled(a);
    lemma_scaled(b);
    lemma_eval_split(s, cl, ct);
    lemma_eval_split(s, cr, ct);
    lemma_eval_split(s, far, ct);
    lemma_eval_split(s, cl, cb);
    lemma_eval_split(s, cr, cb);
    lemma_eval_split(s, far, cb);
    lemma_eval_split(s, x, y);
    lemma_eval_split(s, cr, y);
    lemma_eval_split(s, cl, y);
    lemma_eval_split(s, x, ct);
    lemma_eval_split(s, x, cb);
    lemma_eval_split(s, s.p0.x as int, s.p0.y as int);
    lemma_eval_split(s, s.p1.x as int, s.p1.y as int);
    lemma_endpoints_on_line(s);
}

/// The conservation law of one box, for a level segment.
#[verifier::spinoff_prover]
proof fn lemma_box_level(
    s: AbstractLineSegment,
    cl: int,
    ct: int,
    cr: int,
    cb: int,
    far: int,
    x: int,
    y: int,
    endpoint_here: bool,
)
    requires
        s.wf(),
        s.bounding_box@.top == s.bounding_box@.bottom,
        cl <= x < cr,
        ct <= y < cb,
        cr <= far,
        s.bounding_box@.right <= far,
    ensures
        ({
            let g = box_signs(s, cl, ct, cr, cb, far);
            let kept = endpoint_here || g.top || g.bottom || g.left || g.right;
            (box_count(s, g, kept, cr, x, y) - one_if(ray_crosses(s, x, y)) - one_if(
                beyond(s.p0, cr, y, cb),
            ) - one_if(beyond(s.p1, cr, y, cb))) % 2 == 0
        }),
{
    lemma_box_flips(s, cl, ct, cr, cb, far);
    lemma_endpoints_on_line(s);
}

/// The conservation law of one box. Take a segment, a box, and a column
/// `far` at or beyond the right end of both. Keep the segment in the box
/// when one of its endpoints lies there or it crosses an edge of the box,
/// with a shortcut marker when it crosses the right edge and neither ray
/// from the right corners to `far`; give the box a winding of one when the
/// ray from the bottom right corner is crossed, and one more when the right
/// edge and only that ray are crossed. Then at every pixel of the box, what
/// the segment adds to the count differs from the crossing of the pixel's
/// own ray by an even number, but for one for each endpoint that lies right
/// of the box, below the pixel's row and above the bottom of the box.
pub proof fn lemma_box(
    s: AbstractLineSegment,
    cl: int,
    ct: int,
    cr: int,
    cb: int,
    far: int,
    x: int,
    y: int,
    endpoint_here: bool,
)
    requires
        s.wf(),
        cl <= x < cr,
        ct <= y < cb,
        cr <= far,
        s.bounding_box@.right <= far,
        endpoint_here ==> (cl <= s.p0.x <= cr && ct <= s.p0.y <= cb) || (cl <= s.p1.x <= cr && ct
            <= s.p1.y <= cb),
        (cl < s.p0.x <= cr && ct < s.p0.y <= cb) || (cl < s.p1.x <= cr && ct < s.p1.y <= cb)
            ==> endpoint_here,
    ensures
        ({
            let g = box_signs(s, cl, ct, cr, cb, far);
            let kept = endpoint_here || g.top || g.bottom || g.left || g.right;
            (box_count(s, g, kept, cr, x, y) - one_if(ray_crosses(s, x, y)) - one_if(
                beyond(s.p0, cr, y, cb),
            ) - one_if(beyond(s.p1, cr, y, cb))) % 2 == 0
        }),
{
    if s.bounding_box@.top < s.bounding_box@.bottom {
        lemma_box_slanted(s, cl, ct, cr, cb, far, x, y, endpoint_here);
    } else {
        lemma_box_level(s, cl, ct, cr, cb, far, x, y, endpoint_here);
    }
}

/// The endpoint of the segment that is not its shortcut base.
pub open spec fn other_end(s: AbstractLineSegment) -> Point {
    if s.p0.x > s.p1.x {
        s.p1
    } else {
        s.p0
    }
}

/// Whether `p` lies right of the column `right` and strictly between the
/// rows `top` and `bottom`.
pub open spec fn right_of_rows(p: Point, right: int, top: int, bottom: int) -> bool {
    p.x > right && top < p.y < bottom
}

/// The marker `d` of a segment kept in a cell with right edge `cr` between
/// the rows `ct` and `cb` fits the segment.
///
/// The segment does not begin right of the cell. Only its shortcut base may
/// lie right of the cell and within its rows, and then the segment has a
/// marker. A segment with a marker is not vertical, and its base lies right
/// of the cell or not below the cell's top.
pub open spec fn marker_fits(s: AbstractLineSegment, d: int, ct: int, cr: int, cb: int) -> bool {
    &&& -1 <= d <= 1
    &&& s.bounding_box@.left <= cr
    &&& !right_of_rows(other_end(s), cr, ct, cb)
    &&& (d == 0 ==> !right_of_rows(s.shortcut_base(), cr, ct, cb))
    &&& (d != 0 ==> s.implicit_line.b != 0 && (s.shortcut_base().x > cr || s.shortcut_base().y
        <= ct))
}

/// Whether the crossings `g` give the segment a shortcut marker.
pub open spec fn box_marked(g: BoxSigns) -> bool {
    g.right && !g.up && !g.down
}

/// What `lemma_box_marker` shows.
spec fn marker_goal(
    s: AbstractLineSegment,
    cl: int,
    ct: int,
    cr: int,
    cb: int,
    far: int,
    endpoint_here: bool,
) -> bool {
    let g = box_signs(s, cl, ct, cr, cb, far);
    let kept = endpoint_here || g.top || g.bottom || g.left || g.right;
    kept ==> marker_fits(s, one_if(box_marked(g)), ct, cr, cb)
}

/// A slanted segment kept in a box fits the box.
#[verifier::spinoff_prover]
proof fn lemma_box_marker_slanted(
    s: AbstractLineSegment,
    cl: int,
    ct: int,
    cr: int,
    cb: int,
    far: int,
    endpoint_here: bool,
    rising: bool,
)
    requires
        s.wf(),
        s.bounding_box@.top < s.bounding_box@.bottom,
        rising == (s.implicit_line.b > 0),
        s.implicit_line.b != 0,
        cl < cr,
        ct < cb,
        cr <= far,
        s.bounding_box@.right <= far,
        endpoint_here ==> (cl <= s.p0.x <= cr && ct <= s.p0.y <= cb) || (cl <= s.p1.x <= cr && ct
            <= s.p1.y <= cb),
    ensures
        marker_goal(s, cl, ct, cr, cb, far, endpoint_here),
{
    lemma_box_flips(s, cl, ct, cr, cb, far);
    let a = s.implicit_line.a as int;
    let b = s.implicit_line.b as int;
    lemma_scaled(a);
    lemma_scaled(b);
    lemma_eval_split(s, cl, ct);
    lemma_eval_split(s, cr, ct);
    lemma_eval_split(s, far, ct);
    lemma_eval_split(s, cl, cb);
    lemma_eval_split(s, cr, cb);
    lemma_eval_split(s, far, cb);
    lemma_eval_split(s, s.p0.x as int, s.p0.y as int);
    lemma_eval_split(s, s.p1.x as int, s.p1.y as int);
    lemma_endpoints_on_line(s);
    let g = box_signs(s, cl, ct, cr, cb, far);
    let kept = endpoint_here || g.top || g.bottom || g.left || g.right;
    if kept {
        assert(s.bounding_box@.left <= cr);
        assert(!right_of_rows(other_end(s), cr, ct, cb));
        if !box_marked(g) {
            assert(!right_of_rows(s.shortcut_base(), cr, ct, cb));
        } else {
            assert(s.shortcut_base().x > cr || s.shortcut_base().y <= ct);
        }
    }
}

/// A level or upright segment kept in a box fits the box.
#[verifier::spinoff_prover]
proof fn lemma_box_marker_upright(
    s: AbstractLineSegment,
    cl: int,
    ct: int,
    cr: int,
    cb: int,
    far: int,
    endpoint_here: bool,
)
    requires
        s.wf(),
        s.implicit_line.b == 0 || s.bounding_box@.top == s.bounding_box@.bottom,
        cl < cr,
        ct < cb,
        cr <= far,
        s.bounding_box@.right <= far,
        endpoint_here ==> (cl <= s.p0.x <= cr && ct <= s.p0.y <= cb) || (cl <= s.p1.x <= cr && ct
            <= s.p1.y <= cb),
    ensures
        marker_goal(s, cl, ct, cr, cb, far, endpoint_here),
{
    lemma_box_flips(s, cl, ct, cr, cb, far);
    lemma_endpoints_on_line(s);
    let a = s.implicit_line.a as int;
    lemma_scaled(a);
    lemma_eval_split(s, cl, ct);
    lemma_eval_split(s, cr, ct);
    lemma_eval_split(s, cl, cb);
    lemma_eval_split(s, cr, cb);
    lemma_eval_split(s, s.p0.x as int, s.p0.y as int);
    lemma_eval_split(s, s.p1.x as int, s.p1.y as int);
}

/// A segment kept in a box, with the marker that its crossings give it,
/// fits the box.
pub proof fn lemma_box_marker(
    s: AbstractLineSegment,
    cl: int,
    ct: int,
    cr: int,
    cb: int,
    far: int,
    endpoint_here: bool,
)
    requires
        s.wf(),
        cl < cr,
        ct < cb,
        cr <= far,
        s.bounding_box@.right <= far,
        endpoint_here ==> (cl <= s.p0.x <= cr && ct <= s.p0.y <= cb) || (cl <= s.p1.x <= cr && ct
            <= s.p1.y <= cb),
    ensures
        ({
            let g = box_signs(s, cl, ct, cr, cb, far);
            let kept = endpoint_here || g.top || g.bottom || g.left || g.right;
            kept ==> marker_fits(s, one_if(box_marked(g)), ct, cr, cb)
        }),
{
    if s.implicit_line.b == 0 || s.bounding_box@.top == s.bounding_box@.bottom {
        lemma_box_marker_upright(s, cl, ct, cr, cb, far, endpoint_here);
    } else {
        lemma_box_marker_slanted(s, cl, ct, cr, cb, far, endpoint_here, s.implicit_line.b > 0);
    }
}

/// The implicit function vanishes at both endpoints.
proof fn lemma_endpoints_on_line(s: AbstractLineSegment)
    requires
        s.wf(),
    ensures
        s.spec_eval(s.p0.x as int, s.p0.y as int) == 0,
        s.spec_eval(s.p1.x as int, s.p1.y as int) == 0,
        s.implicit_line.a == s.bounding_box@.bottom - s.bounding_box@.top,
        s.implicit_line.a >= 0,
        s.implicit_line.a == 0 ==> s.implicit_line.b == s.bounding_box@.right
            - s.bounding_box@.left,
{
    let x0 = s.p0.x as int;
    let y0 = s.p0.y as int;
    let x1 = s.p1.x as int;
    let y1 = s.p1.y as int;
    assert((y0 - y1) * x0 + (x1 - x0) * y0 + (x0 * y1 - x1 * y0) == 0) by (nonlinear_arith);
    assert((y0 - y1) * x1 + (x1 - x0) * y1 + (x0 * y1 - x1 * y0) == 0) by (nonlinear_arith);
    assert(-(y0 - y1) * x0 + (-(x1 - x0)) * y0 + (-(x0 * y1 - x1 * y0)) == 0) by (nonlinear_arith);
    assert(-(y0 - y1) * x1 + (-(x1 - x0)) * y1 + (-(x0 * y1 - x1 * y0)) == 0) by (nonlinear_arith);
}

/// What a segment entry with marker `d` adds to the count at the pixel
/// `(x, y)` of a cell whose right edge is at `cell_right`.
pub open spec fn segment_count(
    s: AbstractLineSegment,
    d: int,
    cell_right: int,
    x: int,
    y: int,
) -> int {
    one_if(ray_crosses(s, x, y)) + if d != 0 && s.spec_hit_shortcut(cell_right, x, y) {
        d
    } else {
        0
    }
}

/// The marker that the split of a segment gives child `c`.
pub open spec fn split_marker(s: AbstractLineSegment, e: EdgeIntersectionInfo, c: u32) -> int {
    if split_up(s, e, c) {
        1
    } else if split_down(s, e, c) {
        -1
    } else {
        0
    }
}

/// What the split of a segment entry with marker `d` adds to the count at
/// the pixel `(x, y)` of child `c`: the count of the segment entry that the
/// child gets, if it gets one, and the winding.
pub open spec fn child_segment_count(
    s: AbstractLineSegment,
    d: int,
    bound: RectView,
    mid: Point,
    c: u32,
    x: int,
    y: int,
) -> int {
    let e = EdgeIntersectionInfo::of(s, bound, mid);
    (if split_fill(s, e, bound, mid, c) {
        segment_count(s, split_marker(s, e, c), child_rect(bound, mid, c as int).right, x, y)
    } else {
        0
    }) + split_winding(s, d, e, bound, mid, c)
}

/// The crossings that decide the split for child `c` are the crossings
/// around the child's box, and the crossings of the row below the child, up
/// to the far column, are as many as the ray from its bottom right corner
/// has, but for an even number.
#[verifier::spinoff_prover]
proof fn lemma_child_box(s: AbstractLineSegment, bound: RectView, mid: Point, c: u32)
    requires
        s.wf(),
        split_error(bound, mid).is_none(),
        c < 4,
    ensures
        ({
            let e = EdgeIntersectionInfo::of(s, bound, mid);
            let r = child_rect(bound, mid, c as int);
            let g = box_signs(s, r.left, r.top, r.right, r.bottom, far_x(bound));
            &&& e.leaves(c) == g.right
            &&& e.upper_ray(c) == g.up
            &&& e.lower_ray(c) == g.down
            &&& e.touches(c) == (g.top || g.bottom || g.left || g.right)
            &&& (e.row_crossings(c) - one_if(g.down)) % 2 == 0
            &&& r.left < r.right <= bound.right
            &&& r.top < r.bottom
            &&& r.right <= far_x(bound)
        }),
{
    let far = far_x(bound);
    assert(far >= bound.right) by (nonlinear_arith)
        requires
            far == bound.right + (bound.right - bound.left + 1) * 1024,
            bound.left <= bound.right,
    ;
    reveal(box_signs);
    reveal(EdgeIntersectionInfo::of);
    let e = EdgeIntersectionInfo::of(s, bound, mid);
    let r = child_rect(bound, mid, c as int);
    let g = box_signs(s, r.left, r.top, r.right, r.bottom, far);
    if c == TOP_LEFT || c == TOP_RIGHT {
        lemma_row_flips(s, mid.x as int, bound.right, far, mid.y as int);
    } else {
        lemma_row_flips(s, mid.x as int, bound.right, far, bound.bottom);
    }
    if c == TOP_LEFT {
        assert(e.leaves(c) == e.cross8);
        assert(e.row_crossings(c) == one_if(e.cross6) + one_if(e.cross13));
        assert(g.down == e.cross16);
    } else if c == TOP_RIGHT {
        assert(e.leaves(c) == e.cross9);
        assert(e.row_crossings(c) == one_if(e.cross13));
        assert(g.down == e.cross13);
    } else if c == BOTTOM_LEFT {
        assert(e.leaves(c) == e.cross3);
        assert(e.row_crossings(c) == one_if(e.cross1) + one_if(e.cross12));
        assert(g.down == e.cross17);
    } else {
        assert(e.leaves(c) == e.cross4);
        assert(e.row_crossings(c) == one_if(e.cross12));
        assert(g.down == e.cross12);
    }
    let tl = half_open_sign(s, r.left, r.top);
    let tr = half_open_sign(s, r.right, r.top);
    let bl = half_open_sign(s, r.left, r.bottom);
    let br = half_open_sign(s, r.right, r.bottom);
    lemma_flips_symmetric(tl, tr);
    lemma_flips_symmetric(bl, br);
    lemma_flips_symmetric(tl, bl);
    lemma_flips_symmetric(tr, br);
}

/// Two signs flip in either order.
proof fn lemma_flips_symmetric(u: int, v: int)
    ensures
        flips(u, v) == flips(v, u),
{
    crate::abstract_segment::lemma_negative_product(u, v);
    crate::abstract_segment::lemma_negative_product(v, u);
}

/// Along a row, the flips from a first column to a second and from the
/// second to a third are as many as the flips from the first to the third,
/// but for an even number.
proof fn lemma_row_flips(s: AbstractLineSegment, x1: int, x2: int, x3: int, y: int)
    requires
        s.wf(),
        x1 <= x2 <= x3,
    ensures
        (one_if(flips(half_open_sign(s, x1, y), half_open_sign(s, x2, y))) + one_if(
            flips(half_open_sign(s, x2, y), half_open_sign(s, x3, y)),
        ) - one_if(flips(half_open_sign(s, x1, y), half_open_sign(s, x3, y)))) % 2 == 0,
{
    lemma_half_open_step(s, x1, x2, y);
    lemma_half_open_step(s, x2, x3, y);
    lemma_half_open_step(s, x1, x3, y);
    let u = half_open_sign(s, x1, y);
    let v = half_open_sign(s, x2, y);
    let w = half_open_sign(s, x3, y);
    crate::abstract_segment::lemma_negative_product(u, v);
    crate::abstract_segment::lemma_negative_product(v, w);
    crate::abstract_segment::lemma_negative_product(u, w);
}

/// Whether the point `p` counts against the conservation of a split into a
/// child with right edge `right` and bottom `bottom`, at a pixel of row `y`:
/// it lies beyond the child, and in the parent `bound` unless the parent is
/// the root.
pub open spec fn unsettled(
    p: Point,
    bound: RectView,
    at_root: bool,
    right: int,
    y: int,
    bottom: int,
) -> bool {
    beyond(p, right, y, bottom) && (at_root || bound.contains(p.x as int, p.y as int))
}

/// Segment conservation. When a cell is split, what a segment entry adds to
/// the count at a pixel of a child, through the child's segment entry and
/// the winding, differs from what it added to the count in the parent by an
/// even number, but for one for each endpoint that is unsettled.
///
/// The segment must not reach beyond the far column of the parent, and its
/// marker must fit the parent; in the root, it has no marker.
pub proof fn lemma_segment_conserved(
    s: AbstractLineSegment,
    d: int,
    bound: RectView,
    mid: Point,
    c: u32,
    x: int,
    y: int,
    at_root: bool,
)
    requires
        s.wf(),
        split_error(bound, mid).is_none(),
        s.bounding_box@.right <= far_x(bound),
        c < 4,
        child_rect(bound, mid, c as int).covers_pixel(x, y),
        at_root ==> d == 0,
        !at_root ==> marker_fits(s, d, bound.top, bound.right, bound.bottom),
    ensures
        ({
            let r = child_rect(bound, mid, c as int);
            (child_segment_count(s, d, bound, mid, c, x, y) - segment_count(
                s,
                d,
                bound.right,
                x,
                y,
            ) - one_if(unsettled(s.p0, bound, at_root, r.right, y, r.bottom)) - one_if(
                unsettled(s.p1, bound, at_root, r.right, y, r.bottom),
            )) % 2 == 0
        }),
{
    let e = EdgeIntersectionInfo::of(s, bound, mid);
    let r = child_rect(bound, mid, c as int);
    let far = far_x(bound);
    let g = box_signs(s, r.left, r.top, r.right, r.bottom, far);
    let here = endpoint_in(s, bound, mid, c);
    let kept = split_fill(s, e, bound, mid, c);
    let marker = split_marker(s, e, c);
    let plain = split_winding(s, 0, e, bound, mid, c);
    let extra = carried(s, d, bound, mid, c);
    lemma_split_as_box(s, bound, mid, c);
    lemma_box(s, r.left, r.top, r.right, r.bottom, far, x, y, here);
    lemma_carried_settles(s, d, bound, mid, c, y, at_root);
    assert(split_winding(s, d, e, bound, mid, c) == plain + extra);
    assert(s.spec_hit_shortcut(bound.right, x, y) == (s.implicit_line.b != 0 && y
        < s.shortcut_base().y));
    let count_box = box_count(s, g, kept, r.right, x, y);
    assert(count_box == (if kept {
        one_if(ray_crosses(s, x, y)) + one_if(marker != 0 && s.spec_hit_shortcut(r.right, x, y))
    } else {
        0
    }) + one_if(g.right && !g.up && g.down) + one_if(g.down));
    lemma_conserved_sum(
        kept,
        marker,
        ray_crosses(s, x, y),
        s.spec_hit_shortcut(r.right, x, y),
        s.spec_hit_shortcut(bound.right, x, y),
        g.down,
        g.right && !g.up && g.down,
        plain,
        extra,
        d,
        beyond(s.p0, r.right, y, r.bottom),
        beyond(s.p1, r.right, y, r.bottom),
        unsettled(s.p0, bound, at_root, r.right, y, r.bottom),
        unsettled(s.p1, bound, at_root, r.right, y, r.bottom),
    );
}

/// The split of a segment for child `c`, in the terms of the child's box.
#[verifier::spinoff_prover]
proof fn lemma_split_as_box(s: AbstractLineSegment, bound: RectView, mid: Point, c: u32)
    requires
        s.wf(),
        split_error(bound, mid).is_none(),
        c < 4,
    ensures
        ({
            let e = EdgeIntersectionInfo::of(s, bound, mid);
            let r = child_rect(bound, mid, c as int);
            let g = box_signs(s, r.left, r.top, r.right, r.bottom, far_x(bound));
            let here = endpoint_in(s, bound, mid, c);
            &&& split_fill(s, e, bound, mid, c) == (here || g.top || g.bottom || g.left || g.right)
            &&& (split_marker(s, e, c) != 0) == box_marked(g)
            &&& -1 <= split_marker(s, e, c) <= 1
            &&& (split_winding(s, 0, e, bound, mid, c) - one_if(g.right && !g.up && g.down)
                - one_if(g.down)) % 2 == 0
            &&& r.left < r.right <= bound.right
            &&& r.top < r.bottom
            &&& r.right <= far_x(bound)
            &&& (here ==> (r.left <= s.p0.x <= r.right && r.top <= s.p0.y <= r.bottom) || (r.left
                <= s.p1.x <= r.right && r.top <= s.p1.y <= r.bottom))
            &&& ((r.left < s.p0.x <= r.right && r.top < s.p0.y <= r.bottom) || (r.left < s.p1.x
                <= r.right && r.top < s.p1.y <= r.bottom) ==> here)
        }),
{
    let e = EdgeIntersectionInfo::of(s, bound, mid);
    let r = child_rect(bound, mid, c as int);
    let g = box_signs(s, r.left, r.top, r.right, r.bottom, far_x(bound));
    lemma_child_box(s, bound, mid, c);
    let hs = horizontal_step(s);
    let vs = vertical_step(s);
    let rows = e.row_crossings(c);
    let turn = g.right && !g.up && g.down;
    assert(e.turns(c) == turn);
    assert(e.marks(c) == box_marked(g));
    assert(carried(s, 0, bound, mid, c) == 0);
    assert(split_winding(s, 0, e, bound, mid, c) == (if turn {
        hs
    } else {
        0
    }) + vs * rows);
    lemma_plain_parity(turn, hs, vs, rows, g.down);
}

/// The winding of a split, but for what the marker carries, is one for a
/// turn and one for a crossed ray below, but for an even number.
proof fn lemma_plain_parity(turn: bool, hs: int, vs: int, rows: int, down: bool)
    requires
        hs == 1 || hs == -1,
        vs == 1 || vs == -1,
        0 <= rows <= 2,
        (rows - one_if(down)) % 2 == 0,
    ensures
        ((if turn {
            hs
        } else {
            0
        }) + vs * rows - one_if(turn) - one_if(down)) % 2 == 0,
{
    if vs == 1 {
        assert(vs * rows == rows);
    } else {
        assert(vs * rows == -rows);
    }
}

/// The sums of the conservation law, once the geometry is settled.
proof fn lemma_conserved_sum(
    kept: bool,
    marker: int,
    crosses: bool,
    hits_child: bool,
    hits_parent: bool,
    down: bool,
    turn: bool,
    plain: int,
    extra: int,
    d: int,
    beyond0: bool,
    beyond1: bool,
    open0: bool,
    open1: bool,
)
    requires
        -1 <= marker <= 1,
        -1 <= d <= 1,
        ((if kept {
            one_if(crosses) + one_if(marker != 0 && hits_child)
        } else {
            0
        }) + one_if(turn) + one_if(down) - one_if(crosses) - one_if(beyond0) - one_if(beyond1))
            % 2 == 0,
        (plain - one_if(turn) - one_if(down)) % 2 == 0,
        (extra + (if d != 0 && hits_parent {
            d
        } else {
            0
        }) - one_if(beyond0) - one_if(beyond1) + one_if(open0) + one_if(open1)) % 2 == 0,
    ensures
        ((if kept {
            one_if(crosses) + (if marker != 0 && hits_child {
                marker
            } else {
                0
            })
        } else {
            0
        }) + (plain + extra) - (one_if(crosses) + (if d != 0 && hits_parent {
            d
        } else {
            0
        })) - one_if(open0) - one_if(open1)) % 2 == 0,
{
}

/// What the marker of a segment entry carries into the winding of a child,
/// with what the marker added to the count in the parent, is one for each
/// endpoint that lies beyond the child and is settled, but for an even
/// number.
proof fn lemma_carried_settles(
    s: AbstractLineSegment,
    d: int,
    bound: RectView,
    mid: Point,
    c: u32,
    y: int,
    at_root: bool,
)
    requires
        s.wf(),
        split_error(bound, mid).is_none(),
        c < 4,
        child_rect(bound, mid, c as int).top <= y < child_rect(bound, mid, c as int).bottom,
        at_root ==> d == 0,
        !at_root ==> marker_fits(s, d, bound.top, bound.right, bound.bottom),
    ensures
        ({
            let r = child_rect(bound, mid, c as int);
            (carried(s, d, bound, mid, c) + (if d != 0 && s.implicit_line.b != 0 && y
                < s.shortcut_base().y {
                d
            } else {
                0
            }) - one_if(beyond(s.p0, r.right, y, r.bottom)) - one_if(
                beyond(s.p1, r.right, y, r.bottom),
            ) + one_if(unsettled(s.p0, bound, at_root, r.right, y, r.bottom)) + one_if(
                unsettled(s.p1, bound, at_root, r.right, y, r.bottom),
            )) % 2 == 0
        }),
{
}

/// A segment that the split keeps in a child fits the child with the marker
/// that the split gives it.
pub proof fn lemma_split_marker_fits(
    s: AbstractLineSegment,
    bound: RectView,
    mid: Point,
    c: u32,
)
    requires
        s.wf(),
        split_error(bound, mid).is_none(),
        s.bounding_box@.right <= far_x(bound),
        c < 4,
        split_fill(s, EdgeIntersectionInfo::of(s, bound, mid), bound, mid, c),
    ensures
        ({
            let r = child_rect(bound, mid, c as int);
            marker_fits(
                s,
                split_marker(s, EdgeIntersectionInfo::of(s, bound, mid), c),
                r.top,
                r.right,
                r.bottom,
            )
        }),
{
    let r = child_rect(bound, mid, c as int);
    lemma_child_box(s, bound, mid, c);
    lemma_box_marker(
        s,
        r.left,
        r.top,
        r.right,
        r.bottom,
        far_x(bound),
        endpoint_in(s, bound, mid, c),
    );
}

} // verus!
