use crate::{Point, Positioned};
use vstd::prelude::*;

verus! {

/// An axis-aligned rectangle given by its center and its half extents.
/// It covers the closed box `[center - half_dim, center + half_dim]` on each axis.
#[derive(Clone, Copy, Debug, PartialEq, Eq, Structural)]
pub struct Rectangle {
    pub center: Point,
    pub half_dim: Point,
}

impl Rectangle {
    pub open spec fn min_x(self) -> int {
        self.center.x - self.half_dim.x
    }

    pub open spec fn max_x(self) -> int {
        self.center.x + self.half_dim.x
    }

    pub open spec fn min_y(self) -> int {
        self.center.y - self.half_dim.y
    }

    pub open spec fn max_y(self) -> int {
        self.center.y + self.half_dim.y
    }

    /// The point lies in the closed box, edges included.
    pub open spec fn spec_contains(self, p: Point) -> bool {
        self.min_x() <= p.x <= self.max_x() && self.min_y() <= p.y <= self.max_y()
    }

    /// The closed boxes share at least one point: their projections overlap on both axes.
    pub open spec fn spec_intersects(self, other: Rectangle) -> bool {
        other.min_x() <= self.max_x() && self.min_x() <= other.max_x()
            && other.min_y() <= self.max_y() && self.min_y() <= other.max_y()
    }

    /// Half extents are not negative and every edge is a representable coordinate.
    pub open spec fn wf(self) -> bool {
        &&& self.half_dim.x >= 0
        &&& self.half_dim.y >= 0
        &&& i32::MIN <= self.min_x() && self.max_x() <= i32::MAX
        &&& i32::MIN <= self.min_y() && self.max_y() <= i32::MAX
    }

    /// The quadrant of index `i`, in the order north-west, north-east, south-west,
    /// south-east (west and north are the lower coordinates). Its half extent is half
    /// of this one's, rounded up, and its center lies half of this one's half extent,
    /// rounded down, from this center: the four quadrants lie inside this rectangle,
    /// share its center lines and together cover it.
    pub open spec fn spec_quadrant(self, i: int) -> Rectangle {
        let fx = self.half_dim.x / 2;
        let fy = self.half_dim.y / 2;
        Rectangle {
            center: Point {
                x: (if i % 2 == 0 { self.center.x - fx } else { self.center.x + fx }) as i32,
                y: (if i < 2 { self.center.y - fy } else { self.center.y + fy }) as i32,
            },
            half_dim: Point { x: (self.half_dim.x - fx) as i32, y: (self.half_dim.y - fy) as i32 },
        }
    }

    /// The index of the first quadrant, in order, that contains `p`.
    pub open spec fn first_quadrant_of(self, p: Point) -> int {
        if self.spec_quadrant(0).spec_contains(p) {
            0
        } else if self.spec_quadrant(1).spec_contains(p) {
            1
        } else if self.spec_quadrant(2).spec_contains(p) {
            2
        } else {
            3
        }
    }

    pub open spec fn new_spec(center_x: i32, center_y: i32, half_dim_x: i32, half_dim_y: i32) -> Rectangle {
        Rectangle {
            center: Point { x: center_x, y: center_y },
            half_dim: Point { x: half_dim_x, y: half_dim_y },
        }
    }

    pub fn new(center_x: i32, center_y: i32, half_dim_x: i32, half_dim_y: i32) -> (r: Rectangle)
        ensures
            r == Rectangle::new_spec(center_x, center_y, half_dim_x, half_dim_y),
    {
        Rectangle {
            center: Point::new(center_x, center_y),
            half_dim: Point::new(half_dim_x, half_dim_y),
        }
    }

    pub fn contains<P: Positioned>(&self, point: &P) -> (r: bool)
        ensures
            r == self.spec_contains(point.spec_position()),
    {
        let p = point.position();
        let (cx, cy) = (self.center.x as i64, self.center.y as i64);
        let (hx, hy) = (self.half_dim.x as i64, self.half_dim.y as i64);
        !((p.x as i64) < cx - hx || (p.x as i64) > cx + hx || (p.y as i64) < cy - hy || (p.y as i64)
            > cy + hy)
    }

    /// Computes `spec_quadrant(i)`.
    pub fn quadrant(&self, i: usize) -> (r: Rectangle)
        requires
            self.wf(),
            i < 4,
        ensures
            r == self.spec_quadrant(i as int),
    {
        let fx = self.half_dim.x / 2;
        let fy = self.half_dim.y / 2;
        let x = if i % 2 == 0 { self.center.x - fx } else { self.center.x + fx };
        let y = if i < 2 { self.center.y - fy } else { self.center.y + fy };
        Rectangle::new(x, y, self.half_dim.x - fx, self.half_dim.y - fy)
    }

    pub fn intersects(&self, other: &Rectangle) -> (r: bool)
        ensures
            r == self.spec_intersects(*other),
    {
        let (cx, cy) = (self.center.x as i64, self.center.y as i64);
        let (hx, hy) = (self.half_dim.x as i64, self.half_dim.y as i64);
        let (ox, oy) = (other.center.x as i64, other.center.y as i64);
        let (ohx, ohy) = (other.half_dim.x as i64, other.half_dim.y as i64);
        !(ox - ohx > cx + hx || ox + ohx < cx - hx || oy - ohy > cy + hy || oy + ohy < cy - hy)
    }
}

/// Containment is exactly membership in the closed box on both axes.
pub proof fn lemma_contains_closed_box(r: Rectangle, p: Point)
    ensures
        r.spec_contains(p) <==> (r.center.x - r.half_dim.x <= p.x <= r.center.x + r.half_dim.x
            && r.center.y - r.half_dim.y <= p.y <= r.center.y + r.half_dim.y),
{
}

/// Intersection is symmetric, and a rectangle with non-negative half extents meets itself.
pub proof fn lemma_intersects_symmetric(a: Rectangle, b: Rectangle)
    ensures
        a.spec_intersects(b) == b.spec_intersects(a),
        a.half_dim.x >= 0 && a.half_dim.y >= 0 ==> a.spec_intersects(a),
{
}

/// Each quadrant of a well-formed rectangle is well formed and lies inside it.
pub proof fn lemma_quadrant_inside(b: Rectangle, i: int, p: Point)
    requires
        b.wf(),
        0 <= i < 4,
    ensures
        b.spec_quadrant(i).wf(),
        b.spec_quadrant(i).spec_contains(p) ==> b.spec_contains(p),
{
}

/// The four quadrants of a well-formed rectangle cover it.
pub proof fn lemma_quadrants_cover(b: Rectangle, p: Point)
    requires
        b.wf(),
        b.spec_contains(p),
    ensures
        b.spec_quadrant(0).spec_contains(p) || b.spec_quadrant(1).spec_contains(p)
            || b.spec_quadrant(2).spec_contains(p) || b.spec_quadrant(3).spec_contains(p),
{
}

} // verus!
