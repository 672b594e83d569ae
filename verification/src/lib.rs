//! Per-frame orientational order parameters for molecular-dynamics
//! trajectories in a line-oriented, fixed-column text format.
//!
//! The library consumes a trajectory one line at a time, segments the lines
//! into frames at `t=` boundary markers, buffers the atom records of each
//! frame in file order, and at every frame boundary reports the average and
//! median bond-orientation order parameter of a chosen central species,
//! where each central atom's bond vector is spanned by its file-order
//! neighbours and compared against the z axis.
//!
//! All quantities are held as exact fixed-point integers: coordinates and
//! times in thousandths of their file units (the precision of the input
//! format), order parameters in millionths.  This keeps every computation
//! exact and lets each step carry a full functional contract.

pub mod analyzer;
pub mod fixed;
pub mod geometry;
pub mod record;
pub mod stats;
pub mod text;

pub use analyzer::{Analyzer, BondPolicy, Config, ConfigError, FrameResult, Warning};
pub use geometry::Vec3;
pub use record::Atom;
pub use stats::Ratio;
