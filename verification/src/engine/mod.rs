//! The per-market order book, the matching engine and the market registry.

pub mod events;
pub mod ladder;
pub mod laws;
pub mod market;
pub mod matching;
pub mod orderbook;
pub mod risk;
