//! Sources of top-of-book quotes.

pub mod penelope;
