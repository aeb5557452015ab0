//! Poisson-disk sampling on a bounded integer rectangle.
//!
//! Points are thrown one step at a time around points that were accepted
//! earlier, and a candidate is kept only if it lies farther than a fixed radius
//! from every point kept so far. A background grid of cells of side
//! `radius / sqrt(2)` makes that test a scan of a constant number of cells.
//!
//! The sampler draws no random numbers itself: every operation that needs
//! chance takes the draws as arguments, so that each result is a function of
//! the state and of the draws, and is specified as such.

pub mod disk;
pub mod draw;
pub mod error;
pub mod geometry;
pub mod lattice;
pub mod laws;
pub mod model;

pub use disk::PoissonDisk;
pub use draw::scale;
pub use error::{ConfigError, OutOfRange};
pub use geometry::{distance_squared, shift, Cell, Offset, Point};
pub use lattice::{cell_of, isqrt};
pub use model::{DiskView, MAX_AREA};
