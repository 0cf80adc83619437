//! Market data as the engines read it.

pub mod hyperliquid;
