//! Rasterization of line segments and polygon boundaries onto an abstract
//! drawing surface, with integer-only arithmetic.

pub mod geometry;
pub mod line;
pub mod polygon;
pub mod render;

pub use geometry::{Color, Point};
pub use line::{draw_outcome, LineDrawError, LineSegment, OneColorLine};
pub use polygon::{NotEnoughPointsError, Polygon, PolygonFromLinesError};
pub use render::{Renderable, Renderer};
