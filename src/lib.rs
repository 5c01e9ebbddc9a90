//! A planar spatial index: a quadtree over integer coordinates that answers
//! axis-aligned rectangular range queries.
mod rectangle;
mod tree;

pub use rectangle::Rectangle;
pub use tree::{Quadtree, QuadtreeError, NODE_CAPACITY};

use vstd::prelude::*;

verus! {

/// A position in the plane.
#[derive(Clone, Copy, Debug, PartialEq, Eq, Structural)]
pub struct Point {
    pub x: i32,
    pub y: i32,
}

impl Point {
    pub fn new(x: i32, y: i32) -> (p: Point)
        ensures
            p.x == x,
            p.y == y,
    {
        Point { x, y }
    }
}

/// The capability of having a position in the plane.
pub trait Positioned {
    spec fn spec_position(&self) -> Point;

    fn position(&self) -> (p: Point)
        ensures
            p == self.spec_position(),
    ;
}

impl Positioned for Point {
    open spec fn spec_position(&self) -> Point {
        *self
    }

    fn position(&self) -> (p: Point) {
        *self
    }
}

} // verus!
