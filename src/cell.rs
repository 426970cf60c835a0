//! A single unit of a grid map, as the map itself holds it.
use vstd::prelude::*;
pub use crate::gridcell::AreaType as Area;
use crate::gridcell::is_room_area;

verus! {

/// Walls on the side of a cell; only `Nothing` exists so far.
#[derive(Clone, Copy, Debug, PartialEq, Eq, Structural)]
pub enum Wall {
    Nothing,
}

/// Decorations at the corner of a cell; only `Nothing` exists so far.
#[derive(Clone, Copy, Debug, PartialEq, Eq, Structural)]
pub enum Point {
    Nothing,
}

/// Representation of a Cell, which is a single unit in a grid.
#[derive(Clone, Copy, Debug)]
pub struct Cell {
    /// The type of area contained within this cell
    pub area: Area,
    pub vert_wall: Wall,
    pub horiz_wall: Wall,
    pub point: Point,
}

impl Cell {
    /// Construct a new, empty Cell
    pub fn new() -> (r: Cell)
        ensures
            r.area == Area::Nothing,
    {
        Cell { area: Area::Nothing, vert_wall: Wall::Nothing, horiz_wall: Wall::Nothing, point: Point::Nothing }
    }

    /// Check if a Cell is 'empty', meaning that all drawing-related
    /// fields have a value of 'Nothing'.
    pub fn is_empty(&self) -> (r: bool)
        ensures
            r == (self.area == Area::Nothing),
    {
        match self.area {
            Area::Nothing => match (self.vert_wall, self.horiz_wall, self.point) {
                (Wall::Nothing, Wall::Nothing, Point::Nothing) => true,
            },
            _ => false,
        }
    }

    /// Check whether the Cell is part of a dungeon room (a room or an entrance)
    pub fn is_room(&self) -> (r: bool)
        ensures
            r == is_room_area(self.area),
    {
        match self.area {
            Area::Nothing => false,
            _ => true,
        }
    }

    /// Get the type of area that this cell represents
    pub fn area(&self) -> (r: &Area)
        ensures
            *r == self.area,
    {
        &self.area
    }

    /// Set the type of area that this cell represents
    pub fn set_area(&mut self, area: Area)
        ensures
            final(self).area == area,
    {
        self.area = area;
    }
}

impl Default for Cell {
    fn default() -> (r: Self)
        ensures
            r.area == Area::Nothing,
    {
        Self::new()
    }
}

} // verus!
