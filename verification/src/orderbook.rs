//! The top-of-book engine.

pub mod diana;
