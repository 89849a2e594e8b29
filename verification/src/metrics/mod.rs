//! Counters for monitoring the health of the exchange.

use vstd::prelude::*;
use std::sync::atomic::AtomicU64;
use std::sync::atomic::Ordering;
use std::sync::Arc;

verus! {

/// Shared counters. A clone counts into the same cells, from any thread, so
/// what a cell holds at any moment depends on every holder: no function here
/// promises a value. The counters wrap around on overflow.
#[derive(Clone)]
pub struct Metrics {
    pub orders_submitted: Arc<AtomicU64>,
    pub orders_cancelled: Arc<AtomicU64>,
    pub trades_executed: Arc<AtomicU64>,
    pub total_volume: Arc<AtomicU64>,
    pub orderbook_depth: Arc<AtomicU64>,
}

/// The counters as they were read at some moment.
#[derive(Clone, Copy, Debug, PartialEq, Eq)]
pub struct MetricsSnapshot {
    pub orders_submitted: u64,
    pub orders_cancelled: u64,
    pub trades_executed: u64,
    pub total_volume: u64,
    pub orderbook_depth: u64,
}

impl Metrics {
    /// Counters that start at zero.
    pub fn new() -> Self {
        Self {
            orders_submitted: Arc::new(AtomicU64::new(0)),
            orders_cancelled: Arc::new(AtomicU64::new(0)),
            trades_executed: Arc::new(AtomicU64::new(0)),
            total_volume: Arc::new(AtomicU64::new(0)),
            orderbook_depth: Arc::new(AtomicU64::new(0)),
        }
    }

    /// Counts one submitted order.
    pub fn record_order_submitted(&self) {
        self.orders_submitted.fetch_add(1, Ordering::Relaxed);
    }

    /// Counts one cancelled order.
    pub fn record_order_cancelled(&self) {
        self.orders_cancelled.fetch_add(1, Ordering::Relaxed);
    }

    /// Counts one trade of `volume` units.
    pub fn record_trade(&self, volume: u64) {
        self.trades_executed.fetch_add(1, Ordering::Relaxed);
        self.total_volume.fetch_add(volume, Ordering::Relaxed);
    }

    /// Reads the counters, one after the other.
    pub fn snapshot(&self) -> MetricsSnapshot {
        MetricsSnapshot {
            orders_submitted: self.orders_submitted.load(Ordering::Relaxed),
            orders_cancelled: self.orders_cancelled.load(Ordering::Relaxed),
            trades_executed: self.trades_executed.load(Ordering::Relaxed),
            total_volume: self.total_volume.load(Ordering::Relaxed),
            orderbook_depth: self.orderbook_depth.load(Ordering::Relaxed),
        }
    }
}

impl Default for Metrics {
    fn default() -> Self {
        Self::new()
    }
}

} // verus!
