//! Points and vectors of the plane.

pub mod arg_cmp;
pub mod point2d;
pub mod vector2d;

pub use point2d::{p2, Point2D};
pub use vector2d::{v2, Vector2D};
