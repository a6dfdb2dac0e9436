//! Colour ramps: map a scalar value onto an ordered list of RGBA colour
//! stops by linear interpolation between the two nearest stops.
//!
//! Scalars are exact fixed-point numbers (`Fixed`), so every lookup is
//! computed exactly and its result is stated in `gradient::colour_at`.

pub mod blend;
pub mod fixed;
pub mod gradient;

pub use fixed::Fixed;
pub use gradient::{ColourGradient, RGBAColour};
