//! Conversion between horizontal and vertical field-of-view angles.
//!
//! Angles and aspect-ratio components are held in nanodegree-scaled
//! integers, so every computation here is exact integer arithmetic with
//! a precisely stated result.

mod convert;
mod errors;
mod fov;
mod num;
mod ratio;
mod trig;

pub use convert::Config;
pub use convert::FovType;
pub use convert::build_config;
pub use convert::convert;
pub use convert::horizontal_from_vertical;
pub use convert::lemma_reciprocal_symmetry;
pub use convert::select_direction;
pub use convert::vertical_from_horizontal;
pub use errors::FovError;
pub use fov::Fov;
pub use num::NumToken;
pub use num::parse_number;
pub use ratio::AspectRatio;
