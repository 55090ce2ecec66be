//! A two-dimensional flow field: point-like poles that each push on a query
//! point, their contributions summed, normalised and rotated on demand.
//!
//! Every number in the field is a single-precision value held by its bit
//! pattern, and every arithmetic step is the correctly rounded one: the
//! exact result, rounded to the nearest representable value, ties to the
//! even pattern. That is what a machine's single-precision arithmetic
//! computes too, so the library agrees with it bit for bit wherever the
//! result is a number, and a field's output is a function of its poles and
//! coefficient alone.
//!
//! - `single`, `grid`, `rounding`, `arith`, `root`: the numbers, what it
//!   means to round, and the five operations.
//! - `vector`, `pole`, `field`: pairs of numbers, the force of one pole, the
//!   summed force of many.
//! - `axis`, `tolerance`, `unit`: what normalisation leaves of a vector's
//!   length.
pub mod arith;
pub mod axis;
pub mod field;
pub mod grid;
pub mod pole;
pub mod root;
pub mod rounding;
pub mod single;
pub mod tolerance;
pub mod unit;
pub mod vector;

pub use field::{BoundedFlowfield2D, Flowfield2D};
pub use pole::Pole2D;
pub use single::Single;
pub use vector::{normalize, Vector2, Vector3};
