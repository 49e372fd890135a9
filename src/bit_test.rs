//! The randomness checks under their other module path.

pub use crate::tests::{long_series_test, series_test, single_bit_test, Result};
