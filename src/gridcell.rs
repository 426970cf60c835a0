//! A single unit of a grid map, with its area classification.
use vstd::prelude::*;

verus! {

/// The kind of area that a cell holds.
#[derive(Clone, Copy, Debug, PartialEq, Eq, Structural)]
pub enum AreaType {
    /// Unallocated, void space.
    Nothing,
    /// The marked entrance of a dungeon; traversable like a room.
    Entrance,
    /// Part of a traversable space.
    Room,
}

/// Walls on the side of a cell; only `Nothing` exists so far.
#[derive(Clone, Copy, Debug, PartialEq, Eq, Structural)]
pub enum WallType {
    Nothing,
}

/// Decorations at the corner of a cell; only `Nothing` exists so far.
#[derive(Clone, Copy, Debug, PartialEq, Eq, Structural)]
pub enum PointType {
    Nothing,
}

/// Whether an area counts as part of a room (a room or an entrance).
pub open spec fn is_room_area(a: AreaType) -> bool {
    a != AreaType::Nothing
}

/// Representation of a GridCell, which is a single unit in a grid.
#[derive(Clone, Copy, Debug)]
pub struct GridCell {
    /// The type of area contained within this cell
    pub area: AreaType,
    pub vert_wall: WallType,
    pub horiz_wall: WallType,
    pub point: PointType,
}

impl GridCell {
    /// Construct a new, empty GridCell
    pub fn new() -> (r: GridCell)
        ensures
            r.area == AreaType::Nothing,
    {
        GridCell {
            area: AreaType::Nothing,
            vert_wall: WallType::Nothing,
            horiz_wall: WallType::Nothing,
            point: PointType::Nothing,
        }
    }

    /// Check if a GridCell is 'empty', meaning that all drawing-related
    /// fields have a value of 'Nothing'.
    pub fn is_empty(&self) -> (r: bool)
        ensures
            r == (self.area == AreaType::Nothing),
    {
        match self.area {
            AreaType::Nothing => match (self.vert_wall, self.horiz_wall, self.point) {
                (WallType::Nothing, WallType::Nothing, PointType::Nothing) => true,
            },
            _ => false,
        }
    }

    /// Check whether the GridCell is part of a dungeon room (a room or an entrance)
    pub fn is_room(&self) -> (r: bool)
        ensures
            r == is_room_area(self.area),
    {
        match self.area {
            AreaType::Nothing => false,
            _ => true,
        }
    }

    /// Get the type of area that this cell represents
    pub fn area(&self) -> (r: &AreaType)
        ensures
            *r == self.area,
    {
        &self.area
    }
}

impl Default for GridCell {
    fn default() -> (r: Self)
        ensures
            r.area == AreaType::Nothing,
    {
        Self::new()
    }
}

} // verus!
