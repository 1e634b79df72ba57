//! Exact sampling from piecewise-constant distributions given by integer weights.
//!
//! A uniform sample in `[0, 1)` is a `u32` read as the fixed-point fraction `u / 2^32`.
//! Weights are unsigned integers, so cumulative tables and densities are exact.
pub mod distribution;
pub mod inversion;
pub mod adapter2d;

pub use adapter2d::Adapter2D;
pub use distribution::{Distribution1D, Distribution2D, DistributionError};
pub use inversion::Inversion1D;
