//! Value types shared by the order book and the matching engine.

pub mod order;
pub mod price;
pub mod side;
pub mod trade;
