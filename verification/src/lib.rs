//! Ordered (Bayer) dithering of grayscale images, in exact integer arithmetic.
//!
//! A threshold is held as a rank over the number of cells of its matrix, a
//! luminance as a sample over the scale of its grid, and the two are compared
//! as fractions, without rounding.

pub mod bayer;
pub mod error;
pub mod luma_grid;
pub mod ordered_dither;
pub mod threshold_map;

pub use error::DitherError;
pub use luma_grid::LumaGrid;
pub use ordered_dither::{test_pixel, OrderedDither};
pub use threshold_map::{ThresholdMap, MAX_LEVEL};
