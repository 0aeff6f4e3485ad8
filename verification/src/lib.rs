//! A verified core for a crypto-asset price gauge.
//!
//! The library reduces a time-ordered series of price samples to
//! high/low/current statistics and renders the result as a fixed-width
//! text bar. Prices are modelled as fixed-point decimal values so that
//! every step of the reduction and of the rendering is exact.

mod aggregator;
mod price;
mod renderer;

pub use aggregator::{compute_statistics, AggregationError, PriceSample, Statistics};
pub use price::Price;
pub use renderer::{render, RenderOutcome};
