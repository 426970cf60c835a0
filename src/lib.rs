//! Procedural generation of grid-based dungeon and cave maps.
pub mod cell;
mod combine;
pub mod connect;
pub mod error;
pub mod gridcell;
pub mod gridmap;
pub mod gridroom;
pub mod point;
pub mod point2d;
mod rng;
pub mod room;
pub mod route;

pub use cell::{Area, Cell};
pub use error::RpgError;
pub use gridcell::{AreaType, GridCell};
pub use gridmap::GridMap;
pub use gridroom::GridRoom;
pub use point::Point;
pub use point2d::Point2D;
pub use room::Room;
pub use route::RouteMethod;
