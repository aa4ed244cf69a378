//! Greatest common divisors, pair parsing, and the integer side of a banded
//! fractal rasterizer: how a pixel buffer is cut into row bands and how each
//! band is filled with grayscale intensities.

pub mod bands;
pub mod divisors;
pub mod pairs;
pub mod render;

pub use bands::{band_layout, rows_per_band, Band, PixelBounds};
pub use divisors::{checked_gcd, gcd, gcd_all};
pub use pairs::{parse_pair, split_pair, PairComponent};
pub use render::{intensity, render};
