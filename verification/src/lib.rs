//! A 2D spatial-indexing kernel: dense grids over lattice points, sparse
//! regions that stitch lazily-created grids into an unbounded plane, and a
//! shortest-path search generic over movement topology and passability.

pub mod coord;
pub mod grid;
pub mod pmap;
pub mod raster;

pub use coord::R2i;
pub use coord::R2iIter;
pub use coord::V2i;
