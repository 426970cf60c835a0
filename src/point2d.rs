//! A generic pair of coordinates.
use vstd::prelude::*;

verus! {

/// A point whose two coordinates have any type `T`.
pub struct Point2D<T> {
    pub x: T,
    pub y: T,
}

impl<T> Point2D<T> {
    /// Make a point from its two coordinates.
    pub fn new(x: T, y: T) -> (r: Point2D<T>)
        ensures
            r.x == x && r.y == y,
    {
        Point2D { x, y }
    }
}

} // verus!
