//! Haar-like rectangular features over integral images.
//!
//! A Haar filter is a sparse set of weighted sample points on an integral
//! image; its value is the weighted sum of the image's cumulative values at
//! those points.  The filter is built by decomposing each rectangle of a
//! shape template into inclusion-exclusion corner terms, combining the
//! rectangles with alternating sign, and canonicalizing the result.

pub mod canonical;
pub mod corner;
pub mod filter;
pub mod integral;
pub mod model;
pub mod shapes;

pub use canonical::combine_alternating;
pub use corner::{eval_points, EvalPoints};
pub use filter::{multiplier, HaarFilter, Sign};
pub use integral::IntegralImage;
