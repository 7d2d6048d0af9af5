//! Occlusion culling for axis-aligned rectangles.
//!
//! Rectangles are submitted front to back (or back to front through
//! [`BackToFrontBuilder`]); each one is cut against the opaque rectangles that
//! came before it, and only its visible parts are kept.
//!
//! Coordinates are integers. The area of a rectangle is modelled as the set of
//! unit cells it covers: the cell `(x, y)` is the square between `x` and `x + 1`
//! horizontally and `y` and `y + 1` vertically. Touching edges share no cell.
pub mod builder;
pub mod diagram;
pub mod fragments;
pub mod geom;
pub mod laws;

pub use builder::{BackToFrontBuilder, Command, FrontToBackBuilder, Item};
pub use geom::{point2, Point, Rect};
