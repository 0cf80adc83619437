//! A deterministic, tick-driven market simulator for backtesting.
//!
//! Prices, quantities and sizes are fixed-point integers (ticks and lots), so
//! that matching is exact and every rule of the engines can be stated and
//! proved. Timestamps are seconds.

pub mod clock;
pub mod exchange;
pub mod input;
pub mod orderbook;
pub mod source;
