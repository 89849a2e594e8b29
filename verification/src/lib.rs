//! A deterministic, in-memory limit order matching engine with price-time
//! priority: one order book and one trade sequence per market.

pub mod api;
pub mod engine;
pub mod metrics;
pub mod models;
pub mod persistence;
