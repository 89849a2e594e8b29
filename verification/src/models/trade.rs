use vstd::prelude::*;
use super::order::OrderId;
use super::price::Price;

verus! {

/// The record of one fill between an incoming order and a resting order.
#[derive(Clone, Debug)]
pub struct Trade {
    pub market: String,
    pub buy_order: OrderId,
    pub sell_order: OrderId,
    /// The resting order's price.
    pub price: Price,
    pub quantity: u64,
    /// Position of this trade in its market's trade sequence, from 1.
    pub sequence: u64,
}

/// The mathematical value of a [`Trade`].
pub struct TradeView {
    pub market: Seq<char>,
    pub buy_order: u128,
    pub sell_order: u128,
    pub price: u64,
    pub quantity: u64,
    pub sequence: nat,
}

impl View for Trade {
    type V = TradeView;

    open spec fn view(&self) -> TradeView {
        TradeView {
            market: self.market@,
            buy_order: self.buy_order.0,
            sell_order: self.sell_order.0,
            price: self.price.0,
            quantity: self.quantity,
            sequence: self.sequence as nat,
        }
    }
}

/// The values of a list of trades, in order.
pub open spec fn trade_views(trades: Seq<Trade>) -> Seq<TradeView> {
    trades.map_values(|t: Trade| t@)
}

} // verus!
