//! Valuation and caching core of a wallet-portfolio tracker.
//!
//! Amounts are held as integer micro-units (six decimal places) and
//! instants as milliseconds since the Unix epoch.

pub mod config;
pub mod error;
pub mod portfolio;
pub mod address;
pub mod cache;
pub mod history;
