//! Events that tell clients what an engine did.

use vstd::prelude::*;
use crate::models::order::OrderId;
use crate::models::trade::Trade;

verus! {

/// Something an engine did, and when, in milliseconds since the Unix epoch.
#[derive(Clone, Debug)]
pub enum EngineEvent {
    TradeExecuted { trade: Trade, timestamp: u64 },
    OrderAdded { order_id: OrderId, market: String, timestamp: u64 },
    OrderCancelled { order_id: OrderId, market: String, timestamp: u64 },
    OrderReplaced { old_order_id: OrderId, new_order_id: OrderId, market: String, timestamp: u64 },
}

/// `chrono::Utc::now` and `DateTime::timestamp_millis`: the current time in
/// milliseconds since the Unix epoch. Nothing is claimed of the value.
/// `Utc::now` panics where the system clock stands before the epoch.
#[verifier::external_body]
pub(crate) fn now_millis() -> u64 {
    chrono::Utc::now().timestamp_millis() as u64
}

impl EngineEvent {
    /// The time of the event.
    pub open spec fn spec_timestamp(&self) -> u64 {
        match self {
            EngineEvent::TradeExecuted { timestamp, .. } => *timestamp,
            EngineEvent::OrderAdded { timestamp, .. } => *timestamp,
            EngineEvent::OrderCancelled { timestamp, .. } => *timestamp,
            EngineEvent::OrderReplaced { timestamp, .. } => *timestamp,
        }
    }

    /// The time of the event.
    #[verifier::when_used_as_spec(spec_timestamp)]
    pub fn timestamp(&self) -> (r: u64)
        ensures
            r == self.spec_timestamp(),
    {
        match self {
            EngineEvent::TradeExecuted { timestamp, .. } => *timestamp,
            EngineEvent::OrderAdded { timestamp, .. } => *timestamp,
            EngineEvent::OrderCancelled { timestamp, .. } => *timestamp,
            EngineEvent::OrderReplaced { timestamp, .. } => *timestamp,
        }
    }

    /// A trade was made at `timestamp`.
    pub fn trade_executed_at(trade: Trade, timestamp: u64) -> (event: Self)
        ensures
            event == (EngineEvent::TradeExecuted { trade, timestamp }),
    {
        EngineEvent::TradeExecuted { trade, timestamp }
    }

    /// An order came to rest at `timestamp`.
    pub fn order_added_at(order_id: OrderId, market: String, timestamp: u64) -> (event: Self)
        ensures
            event == (EngineEvent::OrderAdded { order_id, market, timestamp }),
    {
        EngineEvent::OrderAdded { order_id, market, timestamp }
    }

    /// An order was cancelled at `timestamp`.
    pub fn order_cancelled_at(order_id: OrderId, market: String, timestamp: u64) -> (event: Self)
        ensures
            event == (EngineEvent::OrderCancelled { order_id, market, timestamp }),
    {
        EngineEvent::OrderCancelled { order_id, market, timestamp }
    }

    /// An order was replaced at `timestamp`.
    pub fn order_replaced_at(
        old_order_id: OrderId,
        new_order_id: OrderId,
        market: String,
        timestamp: u64,
    ) -> (event: Self)
        ensures
            event == (EngineEvent::OrderReplaced { old_order_id, new_order_id, market, timestamp }),
    {
        EngineEvent::OrderReplaced { old_order_id, new_order_id, market, timestamp }
    }

    /// A trade was made just now.
    pub fn trade_executed(trade: Trade) -> (event: Self)
        ensures
            event == (EngineEvent::TradeExecuted { trade, timestamp: event.timestamp() }),
    {
        Self::trade_executed_at(trade, now_millis())
    }

    /// An order came to rest just now.
    pub fn order_added(order_id: OrderId, market: String) -> (event: Self)
        ensures
            event == (EngineEvent::OrderAdded { order_id, market, timestamp: event.timestamp() }),
    {
        Self::order_added_at(order_id, market, now_millis())
    }

    /// An order was cancelled just now.
    pub fn order_cancelled(order_id: OrderId, market: String) -> (event: Self)
        ensures
            event == (EngineEvent::OrderCancelled {
                order_id,
                market,
                timestamp: event.timestamp(),
            }),
    {
        Self::order_cancelled_at(order_id, market, now_millis())
    }

    /// An order was replaced just now.
    pub fn order_replaced(old_order_id: OrderId, new_order_id: OrderId, market: String) -> (event:
        Self)
        ensures
            event == (EngineEvent::OrderReplaced {
                old_order_id,
                new_order_id,
                market,
                timestamp: event.timestamp(),
            }),
    {
        Self::order_replaced_at(old_order_id, new_order_id, market, now_millis())
    }
}

} // verus!
