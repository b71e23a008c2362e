use vstd::prelude::*;

verus! {

/// An axis-aligned placement rectangle covering the half-open column range
/// `[x, x + w)` and row range `[y, y + h)`.
#[derive(Clone, Copy, Debug, PartialEq, Eq, Structural)]
pub struct Rect {
    pub x: u32,
    pub y: u32,
    pub w: u32,
    pub h: u32,
}

/// The exclusive right edge of a rectangle, `x + w`.
pub open spec fn spec_right(r: Rect) -> int {
    r.x + r.w
}

/// The exclusive bottom edge of a rectangle, `y + h`.
pub open spec fn spec_bottom(r: Rect) -> int {
    r.y + r.h
}

/// Whether the point `(px, py)` lies inside the rectangle.
pub open spec fn spec_contains_point(r: Rect, px: u32, py: u32) -> bool {
    &&& r.x <= px < spec_right(r)
    &&& r.y <= py < spec_bottom(r)
}

/// Whether two half-open intervals `[a1, a2)` and `[b1, b2)` share a point.
pub open spec fn ranges_overlap(a1: int, a2: int, b1: int, b2: int) -> bool {
    (if a1 > b1 {
        a1
    } else {
        b1
    }) < (if a2 < b2 {
        a2
    } else {
        b2
    })
}

/// Whether two rectangles share a point: their column ranges overlap and
/// their row ranges overlap.
pub open spec fn rects_intersect(a: Rect, b: Rect) -> bool {
    &&& ranges_overlap(a.x as int, spec_right(a), b.x as int, spec_right(b))
    &&& ranges_overlap(a.y as int, spec_bottom(a), b.y as int, spec_bottom(b))
}

impl Rect {
    pub fn new(x: u32, y: u32, w: u32, h: u32) -> (r: Rect)
        ensures
            r == (Rect { x, y, w, h }),
    {
        Rect { x, y, w, h }
    }

    /// The exclusive right edge, `x + w`.
    pub fn right(&self) -> (r: u32)
        requires
            spec_right(*self) <= u32::MAX,
        ensures
            r == spec_right(*self),
    {
        self.x + self.w
    }

    /// The exclusive bottom edge, `y + h`.
    pub fn bottom(&self) -> (r: u32)
        requires
            spec_bottom(*self) <= u32::MAX,
        ensures
            r == spec_bottom(*self),
    {
        self.y + self.h
    }

    /// Whether the point `(px, py)` lies inside this rectangle.
    pub fn contains_point(&self, px: u32, py: u32) -> (b: bool)
        ensures
            b == spec_contains_point(*self, px, py),
    {
        px >= self.x && px - self.x < self.w && py >= self.y && py - self.y < self.h
    }

    /// Whether this rectangle shares a point with `other`.
    pub fn intersects(&self, other: &Rect) -> (b: bool)
        requires
            spec_right(*self) <= u32::MAX,
            spec_bottom(*self) <= u32::MAX,
            spec_right(*other) <= u32::MAX,
            spec_bottom(*other) <= u32::MAX,
        ensures
            b == rects_intersect(*self, *other),
    {
        self.w > 0 && self.h > 0 && other.w > 0 && other.h > 0 && self.x < other.x + other.w
            && other.x < self.x + self.w && self.y < other.y + other.h && other.y < self.y + self.h
    }
}

} // verus!
