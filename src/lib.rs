//! Design of non-uniform scalar quantizers: the empirical distributions that the
//! warping models are fitted to, and the division of a bit budget among channels.
//!
//! Samples are integers (raw sensor readings) and distributions keep exact rational
//! coordinates; error curves hold integer costs in a fixed-point unit of the caller's
//! choice.
pub mod distribution;
pub mod packing;

pub use distribution::{
    build_distribution, channel_samples, create_distribution, drop_duplicates,
    every_nth_sample, integrate_distribution, normalize_distribution, Distribution,
    DistributionError,
};
pub use packing::{costs_fit, merge_error_functions, ErrorFunction, PackingError};
