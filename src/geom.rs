//! Points and axis-aligned rectangles with integer coordinates.
use vstd::prelude::*;

verus! {

/// A point in the plane.
#[derive(Clone, Copy, Debug, PartialEq, Eq, Structural)]
pub struct Point {
    pub x: i32,
    pub y: i32,
}

/// An axis-aligned rectangle from `min` to `max`.
///
/// A rectangle whose `min` is not strictly below and left of its `max` covers
/// no cell: it is never visible and never hides anything.
#[derive(Clone, Copy, Debug, PartialEq, Eq, Structural)]
pub struct Rect {
    pub min: Point,
    pub max: Point,
}

/// Builds a point.
pub fn point2(x: i32, y: i32) -> (p: Point)
    ensures
        p.x == x,
        p.y == y,
{
    Point { x, y }
}

impl Rect {
    /// The rectangle covers the unit cell `(x, y)`.
    pub open spec fn covers(self, x: int, y: int) -> bool {
        self.min.x <= x < self.max.x && self.min.y <= y < self.max.y
    }

    /// The rectangle covers at least one cell.
    pub open spec fn has_area(self) -> bool {
        self.min.x < self.max.x && self.min.y < self.max.y
    }

    /// Every cell of `self` is a cell of `outer`.
    pub open spec fn inside(self, outer: Rect) -> bool {
        outer.min.x <= self.min.x && self.max.x <= outer.max.x && outer.min.y <= self.min.y
            && self.max.y <= outer.max.y
    }

    /// The two rectangles share a cell.
    pub open spec fn overlaps(self, other: Rect) -> bool {
        exists|x: int, y: int| self.covers(x, y) && other.covers(x, y)
    }

    /// The test on the coordinates alone: the open boxes cross each other.
    pub open spec fn crosses(self, other: Rect) -> bool {
        self.min.x < other.max.x && self.max.x > other.min.x && self.min.y < other.max.y
            && self.max.y > other.min.y
    }

    /// Builds a rectangle from its two corners.
    pub fn new(min: Point, max: Point) -> (r: Rect)
        ensures
            r.min == min,
            r.max == max,
    {
        Rect { min, max }
    }

    /// Whether the open boxes of the two rectangles cross; touching edges do not.
    pub fn intersects(&self, other: &Rect) -> (r: bool)
        ensures
            r == self.crosses(*other),
    {
        self.min.x < other.max.x && self.max.x > other.min.x && self.min.y < other.max.y
            && self.max.y > other.min.y
    }

    /// Whether the rectangle covers no cell.
    pub fn is_empty(&self) -> (r: bool)
        ensures
            r == !self.has_area(),
    {
        !(self.min.x < self.max.x && self.min.y < self.max.y)
    }
}

/// Two rectangles with area share a cell exactly when they cross.
pub proof fn lemma_overlaps_iff_crosses(a: Rect, b: Rect)
    requires
        a.has_area(),
        b.has_area(),
    ensures
        a.overlaps(b) == a.crosses(b),
{
    if a.crosses(b) {
        let x: int = if a.min.x < b.min.x { b.min.x as int } else { a.min.x as int };
        let y: int = if a.min.y < b.min.y { b.min.y as int } else { a.min.y as int };
        assert(a.covers(x, y) && b.covers(x, y));
    }
}

/// A rectangle with area covers its lower-left cell.
pub proof fn lemma_has_area_covers(a: Rect)
    requires
        a.has_area(),
    ensures
        a.covers(a.min.x as int, a.min.y as int),
{
}

/// Some rectangle of `s` covers the cell `(x, y)`.
pub open spec fn covered(s: Seq<Rect>, x: int, y: int) -> bool {
    exists|j: int| 0 <= j < s.len() && s[j].covers(x, y)
}

/// No two rectangles of `s` at different positions cross each other.
pub open spec fn pairwise_apart(s: Seq<Rect>) -> bool {
    forall|j: int, k: int|
        0 <= j < s.len() && 0 <= k < s.len() && j != k ==> !(#[trigger] s[j]).crosses(
            #[trigger] s[k],
        )
}

/// Every rectangle of `s` has area and lies inside `b`.
pub open spec fn all_inside(s: Seq<Rect>, b: Rect) -> bool {
    forall|j: int| 0 <= j < s.len() ==> (#[trigger] s[j]).has_area() && s[j].inside(b)
}

} // verus!
