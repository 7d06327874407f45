use vstd::prelude::*;

verus! {

/// An axis-aligned rectangle `(left, top, right, bottom)` with
/// `left <= right` and `top <= bottom`.
///
/// The edges are private: the only way to obtain a `Rect` is a constructor that
/// checks the ordering, so every `Rect` that executable code holds is ordered.
#[derive(Debug, Copy, Clone, PartialEq, Eq, Structural)]
pub struct Rect {
    left: i32,
    top: i32,
    right: i32,
    bottom: i32,
}

/// The edges of a rectangle as mathematical integers.
pub struct RectView {
    pub left: int,
    pub top: int,
    pub right: int,
    pub bottom: int,
}

impl RectView {
    /// The edges are ordered.
    pub open spec fn ordered(self) -> bool {
        self.left <= self.right && self.top <= self.bottom
    }

    /// The closed box contains `(x, y)`.
    pub open spec fn contains(self, x: int, y: int) -> bool {
        self.left <= x <= self.right && self.top <= y <= self.bottom
    }

    /// The pixel `(x, y)` belongs to the box: the half-open ranges
    /// `[left, right)` and `[top, bottom)` hold it.
    pub open spec fn covers_pixel(self, x: int, y: int) -> bool {
        self.left <= x < self.right && self.top <= y < self.bottom
    }

    /// The horizontal midpoint coordinate, rounded toward `left`.
    pub open spec fn mid_x(self) -> int {
        self.left + (self.right - self.left) / 2
    }

    /// The vertical midpoint coordinate, rounded toward `top`.
    pub open spec fn mid_y(self) -> int {
        self.top + (self.bottom - self.top) / 2
    }

    /// The box shared by `self` and `other`; unordered when they are disjoint.
    pub open spec fn meet(self, other: RectView) -> RectView {
        RectView {
            left: if self.left >= other.left { self.left } else { other.left },
            top: if self.top >= other.top { self.top } else { other.top },
            right: if self.right <= other.right { self.right } else { other.right },
            bottom: if self.bottom <= other.bottom { self.bottom } else { other.bottom },
        }
    }
}

impl View for Rect {
    type V = RectView;

    closed spec fn view(&self) -> RectView {
        RectView {
            left: self.left as int,
            top: self.top as int,
            right: self.right as int,
            bottom: self.bottom as int,
        }
    }
}

impl Rect {
    /// The invariant of the type: ordered edges, each within `i32`.
    #[verifier::type_invariant]
    pub closed spec fn wf(self) -> bool {
        self.left <= self.right && self.top <= self.bottom
    }

    /// What `wf` says, over the view.
    pub proof fn lemma_wf(self)
        ensures
            self.wf() <==> self@.ordered(),
            i32::MIN <= self@.left <= i32::MAX,
            i32::MIN <= self@.top <= i32::MAX,
            i32::MIN <= self@.right <= i32::MAX,
            i32::MIN <= self@.bottom <= i32::MAX,
    {
    }

    /// Two rectangles with the same edges are the same rectangle.
    pub proof fn lemma_view_injective(self, other: Rect)
        requires
            self@ == other@,
        ensures
            self == other,
    {
    }

    /// Builds the rectangle with the edges `[left, top, right, bottom]`.
    pub fn from_ltrb_slice(s: &[i32; 4]) -> (r: Option<Self>)
        ensures
            (s[0] <= s[2] && s[1] <= s[3]) <==> r.is_some(),
            r.is_some() ==> r.unwrap().wf() && r.unwrap()@ == (RectView {
                left: s[0] as int,
                top: s[1] as int,
                right: s[2] as int,
                bottom: s[3] as int,
            }),
    {
        Rect::from_ltrb(s[0], s[1], s[2], s[3])
    }

    /// Builds the rectangle with the given edges. It exists exactly when the
    /// edges are ordered.
    pub fn from_ltrb(left: i32, top: i32, right: i32, bottom: i32) -> (r: Option<Self>)
        ensures
            (left <= right && top <= bottom) <==> r.is_some(),
            r.is_some() ==> r.unwrap().wf() && r.unwrap()@ == (RectView {
                left: left as int,
                top: top as int,
                right: right as int,
                bottom: bottom as int,
            }),
    {
        if left <= right && top <= bottom {
            Some(Rect { left, top, right, bottom })
        } else {
            None
        }
    }

    /// The edges: left, top, right, bottom.
    pub fn to_ltrb(&self) -> (r: [i32; 4])
        ensures
            r[0] == self@.left,
            r[1] == self@.top,
            r[2] == self@.right,
            r[3] == self@.bottom,
    {
        [self.left, self.top, self.right, self.bottom]
    }

    /// Returns the left edge.
    pub fn left(&self) -> (r: i32)
        ensures
            r == self@.left,
            self@.ordered(),
    {
        proof {
            use_type_invariant(self);
        }
        self.left
    }

    /// Returns the top edge.
    pub fn top(&self) -> (r: i32)
        ensures
            r == self@.top,
            self@.ordered(),
    {
        proof {
            use_type_invariant(self);
        }
        self.top
    }

    /// Returns the right edge.
    pub fn right(&self) -> (r: i32)
        ensures
            r == self@.right,
            self@.ordered(),
    {
        proof {
            use_type_invariant(self);
        }
        self.right
    }

    /// Returns the bottom edge.
    pub fn bottom(&self) -> (r: i32)
        ensures
            r == self@.bottom,
            self@.ordered(),
    {
        proof {
            use_type_invariant(self);
        }
        self.bottom
    }

    /// Returns rect's X position.
    pub fn x(&self) -> (r: i32)
        ensures
            r == self@.left,
    {
        self.left
    }

    /// Returns rect's Y position.
    pub fn y(&self) -> (r: i32)
        ensures
            r == self@.top,
    {
        self.top
    }

    /// The horizontal extent. It may exceed `i32`, so it is returned wider.
    pub fn width(&self) -> (r: i64)
        ensures
            r == self@.right - self@.left,
            r >= 0,
    {
        proof {
            use_type_invariant(self);
        }
        self.right as i64 - self.left as i64
    }

    /// The vertical extent. It may exceed `i32`, so it is returned wider.
    pub fn height(&self) -> (r: i64)
        ensures
            r == self@.bottom - self@.top,
            r >= 0,
    {
        proof {
            use_type_invariant(self);
        }
        self.bottom as i64 - self.top as i64
    }

    /// The grid point at the middle of the rectangle, `[x, y]`, each coordinate
    /// rounded toward the left and top edge.
    pub fn mid_point(&self) -> (r: [i32; 2])
        ensures
            r[0] == self@.mid_x(),
            r[1] == self@.mid_y(),
            self@.left <= r[0] <= self@.right,
            self@.top <= r[1] <= self@.bottom,
    {
        let half_w: i64 = self.width() / 2;
        let half_h: i64 = self.height() / 2;
        [(self.left as i64 + half_w) as i32, (self.top as i64 + half_h) as i32]
    }

    /// The rectangle shared with `other`, edges included: two rectangles that
    /// only touch share a rectangle of no area.
    pub fn intersect(&self, other: &Self) -> (r: Option<Self>)
        ensures
            r.is_some() <==> self@.meet(other@).ordered(),
            r.is_some() ==> r.unwrap().wf() && r.unwrap()@ == self@.meet(other@),
    {
        let left = if self.x() >= other.x() { self.x() } else { other.x() };
        let top = if self.y() >= other.y() { self.y() } else { other.y() };
        let right = if self.right() <= other.right() { self.right() } else { other.right() };
        let bottom = if self.bottom() <= other.bottom() { self.bottom() } else { other.bottom() };
        Rect::from_ltrb(left, top, right, bottom)
    }
}

} // verus!
