//! Directed line segments in canonical implicit form.
use crate::geometry::point::Point;
use crate::geometry::rect::{Rect, RectView};
use vstd::prelude::*;

verus! {

/// The quadrant a segment points into, with `y` growing downward, or
/// `Horizontal` when its endpoints share their `y`.
#[derive(Debug, PartialEq, Eq, Clone, Copy, Structural)]
pub enum Direction {
    NW,
    NE,
    SW,
    SE,
    Horizontal,
}

/// The kind of a path element. Only `Point` and `Linear` elements are
/// rasterized; the other kinds are reserved.
#[derive(Debug, PartialEq, Eq, Clone, Copy, Structural)]
pub enum SegType {
    Point,
    Linear,
    Quadratic,
    Cubic,
    Arc,
    Path,
    LastGeom,
    FirstStack,
    Push,
    PopFill,
    PopClip,
    Commit,
    LastStack,
}

impl Direction {
    /// The signed crossing a segment of this direction adds to a ray cast to
    /// the right: `+1` upward, `-1` downward, `0` horizontal.
    pub open spec fn winding_inc(self) -> int {
        match self {
            Direction::NE | Direction::NW => 1,
            Direction::SE | Direction::SW => -1,
            Direction::Horizontal => 0,
        }
    }

    /// The direction of the displacement `(dx, dy)`.
    pub open spec fn of(dx: int, dy: int) -> Direction {
        if dy == 0 {
            Direction::Horizontal
        } else if dx >= 0 {
            if dy >= 0 {
                Direction::SE
            } else {
                Direction::NE
            }
        } else {
            if dy >= 0 {
                Direction::SW
            } else {
                Direction::NW
            }
        }
    }

    /// Whether the direction has no leftward component.
    pub open spec fn spec_going_right(self) -> bool {
        self == Direction::NE || self == Direction::SE || self == Direction::Horizontal
    }

    /// Whether the direction has an upward component.
    pub open spec fn spec_going_up(self) -> bool {
        self == Direction::NE || self == Direction::NW
    }

    /// The signed crossing that a segment of this direction adds.
    pub fn to_winding_inc(&self) -> (r: i32)
        ensures
            r == self.winding_inc(),
    {
        match self {
            Direction::NE | Direction::NW => 1,
            Direction::SE | Direction::SW => -1,
            _ => 0,
        }
    }
}

/// The coefficients of `ax + by + c`, which vanishes on the line through two
/// points, kept in canonical form: `a > 0`, or `a == 0` and `b >= 0`.
#[derive(Debug, Clone, Copy, PartialEq, Eq, Structural)]
pub struct ImplicitLine {
    pub a: i64,
    pub b: i64,
    pub c: i64,
}

impl ImplicitLine {
    /// The sign rule of the canonical form.
    pub open spec fn canonical(self) -> bool {
        self.a > 0 || (self.a == 0 && self.b >= 0)
    }

    /// The canonical coefficients `(a, b, c)` of the line from `p0` to `p1`:
    /// `(p0.y - p1.y, p1.x - p0.x, p0.x * p1.y - p1.x * p0.y)`, all three
    /// negated when that breaks the sign rule.
    pub open spec fn coefficients(p0: Point, p1: Point) -> (int, int, int) {
        let a = p0.y - p1.y;
        let b = p1.x - p0.x;
        let c = p0.x * p1.y - p1.x * p0.y;
        if a < 0 || (a == 0 && b < 0) {
            (-a, -b, -c)
        } else {
            (a, b, c)
        }
    }

    /// The line's coefficients are those of the line from `p0` to `p1`.
    pub open spec fn joins(self, p0: Point, p1: Point) -> bool {
        (self.a as int, self.b as int, self.c as int) == Self::coefficients(p0, p1)
    }

    /// The value of the implicit function at `(x, y)`.
    pub open spec fn spec_eval(self, x: int, y: int) -> int {
        self.a * x + self.b * y + self.c
    }

    /// The canonical implicit line through `p0` and `p1`.
    pub fn new(p0: &Point, p1: &Point) -> (r: Self)
        ensures
            r.joins(*p0, *p1),
            r.canonical(),
    {
        let x0: i64 = p0.x as i64;
        let y0: i64 = p0.y as i64;
        let x1: i64 = p1.x as i64;
        let y1: i64 = p1.y as i64;
        proof {
            lemma_product_bound(x0 as int, y1 as int);
            lemma_product_bound(x1 as int, y0 as int);
        }
        let mut a: i64 = y0 - y1;
        let mut b: i64 = x1 - x0;
        let mut c: i64 = x0 * y1 - x1 * y0;

        if a < 0 || (a == 0 && b < 0) {
            a = -a;
            b = -b;
            c = -c;
        }
        Self { a, b, c }
    }

    /// The value of the implicit function at `(x, y)`.
    pub(crate) fn eval(&self, x: i32, y: i32) -> (r: i128)
        ensures
            r == self.spec_eval(x as int, y as int),
    {
        proof {
            lemma_wide_product_bound(self.a as int, x as int);
            lemma_wide_product_bound(self.b as int, y as int);
        }
        (self.a as i128) * (x as i128) + (self.b as i128) * (y as i128) + (self.c as i128)
    }
}

/// The product of two 32-bit coordinates stays within 62 bits.
proof fn lemma_product_bound(x: int, y: int)
    requires
        -0x8000_0000 <= x <= 0x7fff_ffff,
        -0x8000_0000 <= y <= 0x7fff_ffff,
    ensures
        -0x3fff_ffff_8000_0000 <= x * y <= 0x4000_0000_0000_0000,
{
    assert(-0x3fff_ffff_8000_0000 <= x * y <= 0x4000_0000_0000_0000) by (nonlinear_arith)
        requires
            -0x8000_0000 <= x <= 0x7fff_ffff,
            -0x8000_0000 <= y <= 0x7fff_ffff,
    ;
}

/// The product of a 64-bit coefficient and a 32-bit coordinate stays within
/// 94 bits.
proof fn lemma_wide_product_bound(x: int, y: int)
    requires
        -0x8000_0000_0000_0000 <= x <= 0x7fff_ffff_ffff_ffff,
        -0x8000_0000 <= y <= 0x7fff_ffff,
    ensures
        -0x4000_0000_0000_0000_0000_0000 <= x * y <= 0x4000_0000_0000_0000_0000_0000,
{
    assert(-0x4000_0000_0000_0000_0000_0000 <= x * y <= 0x4000_0000_0000_0000_0000_0000)
        by (nonlinear_arith)
        requires
            -0x8000_0000_0000_0000 <= x <= 0x7fff_ffff_ffff_ffff,
            -0x8000_0000 <= y <= 0x7fff_ffff,
    ;
}

/// A product is negative exactly when its factors lie strictly on opposite
/// sides of zero.
pub(crate) proof fn lemma_negative_product(u: int, v: int)
    ensures
        u * v < 0 <==> (u < 0 && v > 0) || (u > 0 && v < 0),
{
    assert(u * v < 0 <==> (u < 0 && v > 0) || (u > 0 && v < 0)) by (nonlinear_arith);
}

/// The axis-aligned hull of two points.
pub open spec fn hull(p0: Point, p1: Point) -> RectView {
    RectView {
        left: if p0.x <= p1.x { p0.x as int } else { p1.x as int },
        top: if p0.y <= p1.y { p0.y as int } else { p1.y as int },
        right: if p0.x <= p1.x { p1.x as int } else { p0.x as int },
        bottom: if p0.y <= p1.y { p1.y as int } else { p0.y as int },
    }
}

/// A directed segment from `p0` to `p1` with what the rasterizer derives from
/// its endpoints: bounding box, direction and canonical implicit line.
#[derive(Debug, Clone, Copy)]
pub struct AbstractLineSegment {
    pub seg_type: SegType,
    pub path_idx: usize,
    pub bounding_box: Rect,
    pub direction: Direction,
    pub implicit_line: ImplicitLine,
    pub p0: Point,  // start point
    pub p1: Point,  // end point
}

impl AbstractLineSegment {
    /// The derived fields agree with the endpoints.
    pub open spec fn wf(self) -> bool {
        &&& self.bounding_box@ == hull(self.p0, self.p1)
        &&& self.direction == Direction::of(self.p1.x - self.p0.x, self.p1.y - self.p0.y)
        &&& self.implicit_line.joins(self.p0, self.p1)
    }

    /// The value of the segment's implicit function at `(x, y)`.
    pub open spec fn spec_eval(self, x: int, y: int) -> int {
        self.implicit_line.spec_eval(x, y)
    }

    /// Whether `(x, y)` lies strictly on the negative side of the line.
    pub open spec fn spec_is_left(self, x: int, y: int) -> bool {
        self.spec_eval(x, y) < 0
    }

    /// The endpoint with the greater `x`; `p1` when they tie.
    pub open spec fn shortcut_base(self) -> Point {
        if self.p0.x > self.p1.x {
            self.p0
        } else {
            self.p1
        }
    }

    /// Whether the sample `(x, y)` of a cell whose right edge is at
    /// `cell_right` sees this segment's shortcut: the segment is not
    /// vertical, the sample is above the shortcut base and left of the edge.
    pub open spec fn spec_hit_shortcut(self, cell_right: int, x: int, y: int) -> bool {
        self.implicit_line.b != 0 && y < self.shortcut_base().y && x < cell_right
    }

    /// Whether `bb` holds the segment's bounding box strictly inside.
    pub open spec fn spec_is_inside_bb(self, bb: RectView) -> bool {
        let s = self.bounding_box@;
        bb.top < s.top && bb.right > s.right && bb.bottom > s.bottom && bb.left < s.left
    }

    /// Whether the implicit function changes sign strictly between two points.
    pub open spec fn separates(self, x0: int, y0: int, x1: int, y1: int) -> bool {
        self.spec_eval(x0, y0) * self.spec_eval(x1, y1) < 0
    }

    /// Whether the segment crosses the boundary of `bb`: its bounding box is
    /// not strictly inside `bb`, meets `bb`, and the implicit function changes
    /// sign along one of the four edges.
    pub open spec fn spec_intersect_with_bb(self, bb: RectView) -> bool {
        &&& !self.spec_is_inside_bb(bb)
        &&& self.bounding_box@.meet(bb).ordered()
        &&& (self.separates(bb.left, bb.top, bb.right, bb.top)
            || self.separates(bb.right, bb.top, bb.right, bb.bottom)
            || self.separates(bb.left, bb.bottom, bb.right, bb.bottom)
            || self.separates(bb.left, bb.top, bb.left, bb.bottom))
    }

    /// Builds the segment from `p0` to `p1`. A segment of no length is
    /// accepted and is `Horizontal`.
    pub fn new(p0: Point, p1: Point, seg_type: SegType, path_id: usize) -> (r: Self)
        ensures
            r.wf(),
            r.p0 == p0,
            r.p1 == p1,
            r.seg_type == seg_type,
            r.path_idx == path_id,
    {
        let direction = Self::direction_svg(p1.x as i64 - p0.x as i64, p1.y as i64 - p0.y as i64);
        let bounding_box = Self::line_bbox(&p0, &p1);
        AbstractLineSegment {
            seg_type,
            direction,
            bounding_box,
            implicit_line: ImplicitLine::new(&p0, &p1),
            path_idx: path_id,
            p0,
            p1,
        }
    }

    /// The value of the segment's implicit function at `(x, y)`.
    pub fn eval(&self, x: i32, y: i32) -> (r: i128)
        ensures
            r == self.spec_eval(x as int, y as int),
    {
        self.implicit_line.eval(x, y)
    }

    /// Whether `(x, y)` lies strictly on the negative side of the line.
    pub fn is_left(&self, x: i32, y: i32) -> (r: bool)
        ensures
            r == self.spec_is_left(x as int, y as int),
    {
        self.eval(x, y) < 0
    }

    /// Whether the segment has no leftward component.
    pub fn going_right(&self) -> (r: bool)
        ensures
            r == self.direction.spec_going_right(),
    {
        match self.direction {
            Direction::NW => false,
            Direction::NE => true,
            Direction::SW => false,
            Direction::SE => true,
            Direction::Horizontal => true,
        }
    }

    /// Whether the segment has an upward component.
    pub fn going_up(&self) -> (r: bool)
        ensures
            r == self.direction.spec_going_up(),
    {
        match self.direction {
            Direction::NW => true,
            Direction::NE => true,
            Direction::SW => false,
            Direction::SE => false,
            Direction::Horizontal => false,
        }
    }

    /// The convex-hull test, which a line segment does not have: the answer
    /// is always `-1`, "unknown", and callers fall back to the implicit line.
    pub fn hit_chull(&self, pt: &Point) -> (r: i32)
        ensures
            r == -1,
    {
        -1
    }

    /// Check if the segment intersects with one of the boundaries of the given bounding box.
    pub fn intersect_with_bb(&self, bb: &Rect) -> (r: bool)
        ensures
            r == self.spec_intersect_with_bb(bb@),
    {
        if self.is_inside_bb(bb) || self.bounding_box.intersect(bb).is_none() {
            return false;
        }
        let l: i32 = bb.left();
        let t: i32 = bb.top();
        let r: i32 = bb.right();
        let b: i32 = bb.bottom();
        let tl = self.eval(l, t);
        let tr = self.eval(r, t);
        let bl = self.eval(l, b);
        let br = self.eval(r, b);
        proof {
            lemma_negative_product(tl as int, tr as int);
            lemma_negative_product(tr as int, br as int);
            lemma_negative_product(bl as int, br as int);
            lemma_negative_product(tl as int, bl as int);
        }
        if (tl < 0 && tr > 0) || (tl > 0 && tr < 0) {
            return true;  // top
        }
        if (tr < 0 && br > 0) || (tr > 0 && br < 0) {
            return true;  // right
        }
        if (bl < 0 && br > 0) || (bl > 0 && br < 0) {
            return true;  // bottom
        }
        if (tl < 0 && bl > 0) || (tl > 0 && bl < 0) {
            return true;  // left
        }
        false
    }

    /// Whether `bb` holds the segment's bounding box strictly inside.
    pub fn is_inside_bb(&self, bb: &Rect) -> (r: bool)
        ensures
            r == self.spec_is_inside_bb(bb@),
    {
        let seg_bb = &self.bounding_box;
        bb.top() < seg_bb.top() && bb.right() > seg_bb.right() && bb.bottom() > seg_bb.bottom()
            && bb.left() < seg_bb.left()
    }

    /// The direction of the displacement `(dx, dy)`, with `y` growing downward.
    fn direction_svg(dx: i64, dy: i64) -> (r: Direction)
        ensures
            r == Direction::of(dx as int, dy as int),
    {
        if dy == 0 {
            return Direction::Horizontal;
        }
        match (dx >= 0, dy >= 0) {
            (true, false) => Direction::NE,  // +x, -y
            (false, false) => Direction::NW,  // -x, -y
            (true, true) => Direction::SE,  // +x, +y
            (false, true) => Direction::SW,  // -x, +y
        }
    }

    /// The axis-aligned hull of two points.
    fn line_bbox(a: &Point, b: &Point) -> (r: Rect)
        ensures
            r@ == hull(*a, *b),
    {
        let left = if a.x <= b.x { a.x } else { b.x };
        let right = if a.x <= b.x { b.x } else { a.x };
        let top = if a.y <= b.y { a.y } else { b.y };
        let bottom = if a.y <= b.y { b.y } else { a.y };
        Rect::from_ltrb(left, top, right, bottom).unwrap()
    }

    /// Whether the sample `(sample_x, sample_y)` of `cell` sees the segment's
    /// shortcut.
    pub fn hit_shortcut(&self, cell: &Rect, sample_x: i32, sample_y: i32) -> (r: bool)
        ensures
            r == self.spec_hit_shortcut(cell@.right, sample_x as int, sample_y as int),
    {
        if self.implicit_line.b == 0 {
            // Ignore if no slope
            return false;
        }
        let x0 = cell.right();
        // Use y position of the right end of the segment
        let y0 = if self.p0.x > self.p1.x { self.p0.y } else { self.p1.y };

        if sample_y >= y0 {
            return false;
        }
        sample_x < x0
    }

    /// The endpoint with the greater `x`; the end point when they tie.
    pub fn get_shortcut_base(&self) -> (r: &Point)
        ensures
            *r == self.shortcut_base(),
    {
        if self.p0.x > self.p1.x {
            &self.p0
        } else {
            &self.p1
        }
    }
}

/// Reversing a segment changes neither its implicit line nor any value of
/// its implicit function, and negates its winding increment.
pub proof fn lemma_reversal_keeps_line(s: AbstractLineSegment, r: AbstractLineSegment)
    requires
        s.wf(),
        r.wf(),
        r.p0 == s.p1,
        r.p1 == s.p0,
    ensures
        r.implicit_line == s.implicit_line,
        forall|x: int, y: int| r.spec_eval(x, y) == s.spec_eval(x, y),
        r.direction.winding_inc() == -s.direction.winding_inc(),
        r.bounding_box == s.bounding_box,
{
    lemma_coefficients_symmetric(s.p0, s.p1);
    s.bounding_box.lemma_view_injective(r.bounding_box);
}

/// The canonical coefficients do not depend on the order of the endpoints.
pub proof fn lemma_coefficients_symmetric(p0: Point, p1: Point)
    ensures
        ImplicitLine::coefficients(p0, p1) == ImplicitLine::coefficients(p1, p0),
{
    let x0 = p0.x as int;
    let y0 = p0.y as int;
    let x1 = p1.x as int;
    let y1 = p1.y as int;
    if x0 == x1 && y0 == y1 {
        assert(x0 * y1 - x1 * y0 == 0);
    }
}

} // verus!
