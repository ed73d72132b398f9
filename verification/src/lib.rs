//! Canny edge detection on grids of 8-bit intensities, in fixed-point
//! arithmetic.
//!
//! The detector runs in three stages. The gradient field holds, for every
//! sample, the direction and the magnitude of the change in brightness; it is
//! computed by convolving the grid with a derivative kernel. Ridge thinning
//! keeps of every ridge of the field only the apex. Edge linking follows
//! chains of edges from every strong edge through its neighbours for as long
//! as these are at least weak, and discards the rest.
//!
//! All quantities are integers. Magnitudes, direction components, thresholds
//! and positions between cells are counted in units of `1 / ONE`, the weights
//! of a kernel in units of `1 / TAP_ONE`.
pub mod budget;
pub mod detection;
pub mod edge;
pub mod fixed;
pub mod gaussian;
pub mod gradient;
pub mod linking;
pub mod pipeline;
pub mod thinning;

pub use crate::detection::Detection;
pub use crate::edge::Edge;
pub use crate::gradient::{Kernel, PixelGrid};
pub use crate::gaussian::filter_kernel;
pub use crate::pipeline::{canny, canny_with_kernel, detect};
