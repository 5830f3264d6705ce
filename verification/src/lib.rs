//! Gaussian and Laplacian image pyramids.

mod border;
mod exact;
mod kernel;
mod ops;
mod plane;
mod pyramid;
mod reference;
mod rows;
mod strips;

pub use border::Border;
pub use kernel::Taps;
pub use ops::{expand, reduce, resample_rows};
pub use plane::Plane;
pub use pyramid::{GaussianPyramid, LaplacianPyramid};
pub use rows::interior;
pub use strips::{pool_rows_per_strip, rows_per_strip, rows_per_strip_across, strip_spans};
