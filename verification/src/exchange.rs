//! The matching engines over depth snapshots and taker prints.

pub mod book;
pub mod fill;
pub mod laws;
pub mod types;
pub mod uist;
pub mod uist_v2;
