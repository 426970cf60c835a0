//! How paths are placed between two points.
use vstd::prelude::*;

verus! {

/// How paths are placed
#[derive(Clone, Copy, Debug, PartialEq, Eq, Structural)]
pub enum RouteMethod {
    /// Manhattan routing; horizontal direction first.
    HorizontalFirst,
    /// Manhattan routing; vertical direction first.
    VerticalFirst,
    /// Horizontal or vertical first, picked at random for each path.
    Manhattan,
}

} // verus!
