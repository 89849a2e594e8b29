//! The registry of markets: one matching engine per market name.

use vstd::prelude::*;
use vstd::hash_map::StringHashMap;
use crate::engine::matching::CancelOutcome;
use crate::engine::matching::EngineView;
use crate::engine::matching::MatchingEngine;
use crate::models::order::Order;
use crate::models::order::OrderId;
use crate::models::trade::trade_views;
use crate::models::trade::Trade;

verus! {

/// Why the registry did not carry out a request.
#[derive(Clone, Copy, Debug, PartialEq, Eq, Structural)]
pub enum EngineError {
    /// No engine exists for the named market.
    MarketNotFound,
    /// No order with that id rests in the market's book.
    OrderNotFound,
}

impl EngineError {
    /// The error in words.
    pub fn message(&self) -> (r: &'static str)
        ensures
            r@ == match self {
                EngineError::MarketNotFound => "Market not found"@,
                EngineError::OrderNotFound => "Order not found"@,
            },
    {
        match self {
            EngineError::MarketNotFound => "Market not found",
            EngineError::OrderNotFound => "Order not found",
        }
    }
}

/// The mathematical value of a [`MarketRegistry`]: the engine of each market
/// that has one.
pub type RegistryView = Map<Seq<char>, EngineView>;

/// The engine that serves `market`: the registry's, or a fresh one where the
/// registry has none yet.
pub open spec fn engine_for(markets: RegistryView, market: Seq<char>) -> EngineView {
    if markets.contains_key(market) {
        markets[market]
    } else {
        EngineView::fresh(market)
    }
}

/// The markets of an exchange. An engine is made when the first order for
/// its market is submitted, and stays.
pub struct MarketRegistry {
    engines: Vec<MatchingEngine>,
    slots: StringHashMap<usize>,
}

impl View for MarketRegistry {
    type V = RegistryView;

    closed spec fn view(&self) -> RegistryView {
        Map::new(
            |m: Seq<char>| self.slots@.contains_key(m),
            |m: Seq<char>| self.engines@[self.slots@[m] as int]@,
        )
    }
}

impl MarketRegistry {
    /// Every market name leads to an engine of its own.
    pub closed spec fn slots_valid(&self) -> bool {
        &&& forall|m: Seq<char>| #[trigger]
            self.slots@.contains_key(m) ==> self.slots@[m] < self.engines@.len()
        &&& forall|m: Seq<char>, n: Seq<char>|
            self.slots@.contains_key(m) && self.slots@.contains_key(n) && m != n
                ==> #[trigger] self.slots@[m] != #[trigger] self.slots@[n]
        &&& forall|i: int|
            0 <= i < self.engines@.len() ==> self.slots@.contains_key(
                (#[trigger] self.engines@[i])@.market,
            ) && self.slots@[self.engines@[i]@.market] == i
    }

    /// Every engine is well formed and serves the market it is registered
    /// for.
    pub open spec fn wf(&self) -> bool {
        &&& self.slots_valid()
        &&& forall|m: Seq<char>| #[trigger]
            self@.contains_key(m) ==> self@[m].wf() && self@[m].market == m
    }

    /// A registry without markets.
    pub fn new() -> (registry: Self)
        ensures
            registry@ == Map::<Seq<char>, EngineView>::empty(),
            registry.wf(),
    {
        let registry = Self { engines: Vec::new(), slots: StringHashMap::new() };
        assert(registry@ =~= Map::empty());
        registry
    }

    /// The number of markets.
    pub fn len(&self) -> (n: usize)
        ensures
            n == self@.len(),
    {
        assert(self@.dom() =~= self.slots@.dom());
        self.slots.len()
    }

    /// The engines, in the order their markets were made: every market of
    /// the registry has one engine among them, and none has two.
    pub fn engines(&self) -> (r: &Vec<MatchingEngine>)
        requires
            self.wf(),
        ensures
            forall|i: int|
                0 <= i < r@.len() ==> self@.contains_key((#[trigger] r@[i])@.market)
                    && self@[r@[i]@.market] == r@[i]@,
            forall|i: int, j: int|
                0 <= i < j < r@.len() ==> (#[trigger] r@[i])@.market != (#[trigger] r@[j])@.market,
            forall|m: Seq<char>| #[trigger]
                self@.contains_key(m) ==> exists|i: int|
                    0 <= i < r@.len() && (#[trigger] r@[i])@.market == m,
    {
        proof {
            assert forall|m: Seq<char>| #[trigger] self@.contains_key(m) implies exists|i: int|
                0 <= i < self.engines@.len() && (#[trigger] self.engines@[i])@.market == m by {
                let i = self.slots@[m] as int;
                assert(self@[m].market == m);
                assert(self.engines@[i]@.market == m);
            }
        }
        &self.engines
    }

    /// Takes `engine` in as the engine of its market, unless the market has
    /// one already.
    pub fn adopt(&mut self, engine: MatchingEngine) -> (r: bool)
        requires
            old(self).wf(),
            engine.wf(),
        ensures
            final(self).wf(),
            r == !old(self)@.contains_key(engine@.market),
            final(self)@ == if r {
                old(self)@.insert(engine@.market, engine@)
            } else {
                old(self)@
            },
    {
        let ghost market = engine@.market;
        let ghost before = self@;
        if self.slots.contains_key(engine.market().as_str()) {
            return false;
        }
        let name = engine.market().clone();
        let slot = self.engines.len();
        self.engines.push(engine);
        self.slots.insert(name, slot);
        proof {
            assert(self@ =~= before.insert(market, engine@)) by {
                assert forall|m: Seq<char>| #[trigger] self@.contains_key(m) implies self@[m]
                    == before.insert(market, engine@)[m] by {
                    if m != market {
                        assert(old(self).slots@.contains_key(m));
                    }
                }
            }
            assert forall|m: Seq<char>| #[trigger] self@.contains_key(m) implies self@[m].wf()
                && self@[m].market == m by {
                if m != market {
                    assert(before.contains_key(m));
                }
            }
            assert(self.slots_valid()) by {
                assert forall|m: Seq<char>, n: Seq<char>|
                    self.slots@.contains_key(m) && self.slots@.contains_key(n) && m
                        != n implies #[trigger] self.slots@[m] != #[trigger] self.slots@[n] by {
                    if m != market {
                        assert(old(self).slots@.contains_key(m));
                    }
                    if n != market {
                        assert(old(self).slots@.contains_key(n));
                    }
                }
                assert forall|i: int| 0 <= i < self.engines@.len() implies self.slots@.contains_key(
                    (#[trigger] self.engines@[i])@.market,
                ) && self.slots@[self.engines@[i]@.market] == i by {
                    if i < old(self).engines@.len() {
                        assert(self.engines@[i] == old(self).engines@[i]);
                        assert(old(self).slots@.contains_key(old(self).engines@[i]@.market));
                    }
                }
            }
        }
        true
    }

    /// The engine of `market`, if the market has one.
    pub fn get_market(&self, market: &str) -> (r: Option<&MatchingEngine>)
        requires
            self.wf(),
        ensures
            match r {
                Some(engine) => self@.contains_key(market@) && engine@ == self@[market@],
                None => !self@.contains_key(market@),
            },
    {
        match self.slots.get(market) {
            Some(slot) => Some(&self.engines[*slot]),
            None => None,
        }
    }

    /// Whether `order` can be submitted, see [`MatchingEngine::admits`].
    pub fn admits(&self, order: &Order) -> (r: bool)
        requires
            self.wf(),
        ensures
            r == engine_for(self@, order.market@).accepts(order@),
    {
        match self.get_market(order.market.as_str()) {
            Some(engine) => engine.admits(order),
            None => {
                proof {
                    crate::engine::laws::lemma_match_count(
                        EngineView::fresh(order.market@).book,
                        order@,
                        order.market@,
                        0,
                    );
                }
                order.quantity >= 1
            },
        }
    }

    /// Whether `order` can replace the resting order with its id, see
    /// [`MatchingEngine::admits_replacement`]. A market without an engine
    /// takes any order that has a quantity, by refusing it.
    pub fn admits_replacement(&self, order: &Order) -> (r: bool)
        requires
            self.wf(),
        ensures
            r == if self@.contains_key(order.market@) {
                self@[order.market@].cancel(order.id.0).accepts(order@)
            } else {
                order.quantity >= 1
            },
    {
        match self.get_market(order.market.as_str()) {
            Some(engine) => engine.admits_replacement(order),
            None => order.quantity >= 1,
        }
    }

    /// Hands `order` to the engine of its market, which is made first if the
    /// market has none. Returns the trades in the order they were made.
    pub fn submit(&mut self, order: Order) -> (trades: Vec<Trade>)
        requires
            old(self).wf(),
            engine_for(old(self)@, order.market@).accepts(order@),
        ensures
            final(self).wf(),
            final(self)@ == old(self)@.insert(
                order.market@,
                engine_for(old(self)@, order.market@).submit(order@),
            ),
            trade_views(trades@) == engine_for(old(self)@, order.market@).trades(order@),
    {
        let ghost market = order.market@;
        let ghost incoming = order@;
        let ghost before = self@;
        let found = match self.slots.get(order.market.as_str()) {
            Some(slot) => Some(*slot),
            None => None,
        };
        match found {
            Some(slot) => {
                assert(before.contains_key(market));
                let ghost engine = self.engines@[slot as int]@;
                proof {
                    crate::engine::laws::law_submit_keeps_invariants(engine, incoming);
                }
                let trades = self.engines[slot].submit(order);
                assert(self@ =~= before.insert(market, engine.submit(incoming))) by {
                    assert forall|m: Seq<char>| #[trigger] self@.contains_key(m) implies self@[m]
                        == before.insert(market, engine.submit(incoming))[m] by {
                        if m != market {
                            assert(self.slots@[m] != self.slots@[market]);
                        }
                    }
                }
                assert forall|m: Seq<char>| #[trigger] self@.contains_key(m) implies self@[m].wf()
                    && self@[m].market == m by {
                    if m != market {
                        assert(before.contains_key(m));
                    }
                }
                trades
            },
            None => {
                let mut engine = MatchingEngine::new(order.market.as_str());
                let name = order.market.clone();
                let trades = engine.submit(order);
                let slot = self.engines.len();
                self.engines.push(engine);
                self.slots.insert(name, slot);
                assert(self@ =~= before.insert(market, EngineView::fresh(market).submit(incoming)))
                    by {
                    assert forall|m: Seq<char>| #[trigger] self@.contains_key(m) implies self@[m]
                        == before.insert(market, EngineView::fresh(market).submit(incoming))[m] by {
                        if m != market {
                            assert(old(self).slots@.contains_key(m));
                        }
                    }
                }
                assert forall|m: Seq<char>| #[trigger] self@.contains_key(m) implies self@[m].wf()
                    && self@[m].market == m by {
                    if m != market {
                        assert(before.contains_key(m));
                    }
                }
                assert(self.slots_valid()) by {
                    assert forall|m: Seq<char>, n: Seq<char>|
                        self.slots@.contains_key(m) && self.slots@.contains_key(n) && m
                            != n implies #[trigger] self.slots@[m] != #[trigger] self.slots@[n] by {
                        if m != market {
                            assert(old(self).slots@.contains_key(m));
                        }
                        if n != market {
                            assert(old(self).slots@.contains_key(n));
                        }
                    }
                }
                trades
            },
        }
    }

    /// Cancels the order `order_id` in `market`. No engine is made for a
    /// market that has none.
    pub fn cancel(&mut self, market: &str, order_id: OrderId) -> (r: Result<(), EngineError>)
        requires
            old(self).wf(),
        ensures
            final(self).wf(),
            r == if !old(self)@.contains_key(market@) {
                Err::<(), EngineError>(EngineError::MarketNotFound)
            } else if !old(self)@[market@].book.contains(order_id.0) {
                Err(EngineError::OrderNotFound)
            } else {
                Ok(())
            },
            final(self)@ == if old(self)@.contains_key(market@) {
                old(self)@.insert(market@, old(self)@[market@].cancel(order_id.0))
            } else {
                old(self)@
            },
    {
        let ghost before = self@;
        let found = match self.slots.get(market) {
            Some(slot) => Some(*slot),
            None => None,
        };
        match found {
            None => Err(EngineError::MarketNotFound),
            Some(slot) => {
                assert(before.contains_key(market@));
                let ghost engine = self.engines@[slot as int]@;
                proof {
                    crate::engine::laws::law_cancel_keeps_invariants(engine, order_id.0);
                }
                let outcome = self.engines[slot].cancel(order_id);
                assert(self@ =~= before.insert(market@, engine.cancel(order_id.0))) by {
                    assert forall|m: Seq<char>| #[trigger] self@.contains_key(m) implies self@[m]
                        == before.insert(market@, engine.cancel(order_id.0))[m] by {
                        if m != market@ {
                            assert(self.slots@[m] != self.slots@[market@]);
                        }
                    }
                }
                assert forall|m: Seq<char>| #[trigger] self@.contains_key(m) implies self@[m].wf()
                    && self@[m].market == m by {
                    if m != market@ {
                        assert(before.contains_key(m));
                    }
                }
                match outcome {
                    CancelOutcome::Cancelled => Ok(()),
                    CancelOutcome::NotFound => Err(EngineError::OrderNotFound),
                }
            },
        }
    }

    /// Replaces, in the market of `order`, the resting order that has its
    /// id. No engine is made for a market that has none.
    pub fn replace(&mut self, order: Order) -> (r: Result<Vec<Trade>, EngineError>)
        requires
            old(self).wf(),
            old(self)@.contains_key(order.market@) ==> old(self)@[order.market@].cancel(
                order.id.0,
            ).accepts(order@),
        ensures
            final(self).wf(),
            match r {
                Ok(trades) => {
                    &&& old(self)@.contains_key(order.market@)
                    &&& trade_views(trades@) == old(self)@[order.market@].cancel(order.id.0).trades(
                        order@,
                    )
                    &&& final(self)@ == old(self)@.insert(
                        order.market@,
                        old(self)@[order.market@].replace(order@),
                    )
                },
                Err(e) => {
                    &&& e == EngineError::MarketNotFound
                    &&& !old(self)@.contains_key(order.market@)
                    &&& final(self)@ == old(self)@
                },
            },
    {
        let ghost market = order.market@;
        let ghost incoming = order@;
        let ghost before = self@;
        let found = match self.slots.get(order.market.as_str()) {
            Some(slot) => Some(*slot),
            None => None,
        };
        match found {
            None => Err(EngineError::MarketNotFound),
            Some(slot) => {
                assert(before.contains_key(market));
                let ghost engine = self.engines@[slot as int]@;
                proof {
                    crate::engine::laws::law_replace_keeps_invariants(engine, incoming);
                }
                let trades = self.engines[slot].replace(order);
                assert(self@ =~= before.insert(market, engine.replace(incoming))) by {
                    assert forall|m: Seq<char>| #[trigger] self@.contains_key(m) implies self@[m]
                        == before.insert(market, engine.replace(incoming))[m] by {
                        if m != market {
                            assert(self.slots@[m] != self.slots@[market]);
                        }
                    }
                }
                assert forall|m: Seq<char>| #[trigger] self@.contains_key(m) implies self@[m].wf()
                    && self@[m].market == m by {
                    if m != market {
                        assert(before.contains_key(m));
                    }
                }
                Ok(trades)
            },
        }
    }
}

impl Default for MarketRegistry {
    fn default() -> (registry: Self)
        ensures
            registry@ == Map::<Seq<char>, EngineView>::empty(),
            registry.wf(),
    {
        Self::new()
    }
}

} // verus!
