//! Replaying a log of orders: the state of an exchange is what its orders,
//! submitted in their order to an empty registry, come to.

use vstd::prelude::*;
use crate::api::ingress::submit_checked;
use crate::api::ingress::submit_refusal;
use crate::api::ingress::Rejection;
use crate::engine::market::engine_for;
use crate::engine::market::MarketRegistry;
use crate::engine::market::RegistryView;
use crate::models::order::order_views;
use crate::models::order::Order;
use crate::models::order::OrderView;

verus! {

/// The markets after the first `n` of `orders` have been submitted, one
/// after the other, to an empty registry.
pub open spec fn replayed(orders: Seq<OrderView>, n: nat) -> RegistryView
    decreases n,
{
    if n == 0 {
        Map::empty()
    } else {
        let before = replayed(orders, (n - 1) as nat);
        let order = orders[n - 1];
        before.insert(order.market, engine_for(before, order.market).submit(order))
    }
}

/// The order of a log that could not be submitted.
#[derive(Clone, Copy, Debug, PartialEq, Eq, Structural)]
pub struct ReplayError {
    /// Its position in the log, from 0.
    pub position: usize,
    /// Why it was refused.
    pub reason: Rejection,
}

/// Submits `orders` one after the other to an empty registry. Stops at the
/// first order that cannot be submitted, and names it.
pub fn replay_orders(orders: &Vec<Order>) -> (r: Result<MarketRegistry, ReplayError>)
    ensures
        match r {
            Ok(registry) => {
                &&& registry.wf()
                &&& registry@ == replayed(order_views(orders@), orders@.len())
                &&& forall|n: int|
                    0 <= n < orders@.len() ==> submit_refusal(
                        #[trigger] replayed(order_views(orders@), n as nat),
                        order_views(orders@)[n],
                    ) is None
            },
            Err(e) => {
                &&& e.position < orders@.len()
                &&& submit_refusal(
                    replayed(order_views(orders@), e.position as nat),
                    order_views(orders@)[e.position as int],
                ) == Some(e.reason)
                &&& forall|n: int|
                    0 <= n < e.position ==> submit_refusal(
                        #[trigger] replayed(order_views(orders@), n as nat),
                        order_views(orders@)[n],
                    ) is None
            },
        },
{
    let mut registry = MarketRegistry::new();
    let ghost log = order_views(orders@);
    let mut i: usize = 0;
    while i < orders.len()
        invariant
            0 <= i <= orders.len(),
            log == order_views(orders@),
            registry.wf(),
            registry@ == replayed(log, i as nat),
            forall|n: int|
                0 <= n < i ==> submit_refusal(#[trigger] replayed(log, n as nat), log[n]) is None,
        decreases orders.len() - i,
    {
        let order = orders[i].duplicate();
        assert(order@ == log[i as int]);
        match submit_checked(&mut registry, order) {
            Ok(_) => {},
            Err(reason) => {
                return Err(ReplayError { position: i, reason });
            },
        }
        i = i + 1;
    }
    Ok(registry)
}

} // verus!
