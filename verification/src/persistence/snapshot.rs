//! Snapshots: the state of an engine as plain values, from which an engine
//! with the same state can be made again.

use vstd::prelude::*;
use crate::engine::market::MarketRegistry;
use crate::engine::market::RegistryView;
use crate::engine::matching::EngineView;
use crate::engine::matching::MatchingEngine;
use crate::engine::orderbook::lemma_add_non_crossing;
use crate::engine::orderbook::lemma_rebuild;
use crate::engine::orderbook::lemma_takes_all_prefix;
use crate::engine::orderbook::BookView;
use crate::engine::orderbook::OrderBook;
use crate::models::order::order_views;
use crate::models::order::Order;
use crate::models::order::OrderView;

verus! {

/// The state of one engine: its market, the sequence number of its last
/// trade, and its resting orders, the bids before the asks, each side level
/// by level from the lowest price up, each level oldest first.
#[derive(Clone, Debug)]
pub struct EngineSnapshot {
    pub market: String,
    pub sequence: u64,
    pub orders: Vec<Order>,
}

/// The mathematical value of an [`EngineSnapshot`].
pub struct SnapshotView {
    pub market: Seq<char>,
    pub sequence: u64,
    pub orders: Seq<OrderView>,
}

impl View for EngineSnapshot {
    type V = SnapshotView;

    open spec fn view(&self) -> SnapshotView {
        SnapshotView {
            market: self.market@,
            sequence: self.sequence,
            orders: order_views(self.orders@),
        }
    }
}

impl SnapshotView {
    /// The snapshot of an engine.
    pub open spec fn of(engine: EngineView) -> SnapshotView {
        SnapshotView {
            market: engine.market,
            sequence: engine.sequence,
            orders: engine.book.orders(),
        }
    }

    /// Whether an engine can be made of the snapshot: its orders can come to
    /// rest one after the other, each with a quantity and an id of its own,
    /// none within the limit of one that rests already.
    pub open spec fn restorable(self) -> bool {
        BookView::empty().takes_all(self.orders)
    }

    /// The engine that the snapshot stands for.
    pub open spec fn restored(self) -> EngineView {
        EngineView {
            market: self.market,
            sequence: self.sequence,
            book: BookView::empty().rest_all(self.orders),
        }
    }
}

/// The state of `engine` as plain values.
pub fn snapshot(engine: &MatchingEngine) -> (s: EngineSnapshot)
    ensures
        s@ == SnapshotView::of(engine@),
{
    EngineSnapshot {
        market: engine.market().clone(),
        sequence: engine.sequence(),
        orders: engine.orderbook().orders(),
    }
}

/// Makes the engine that a snapshot stands for, if there is one.
pub fn restore(snapshot: &EngineSnapshot) -> (r: Option<MatchingEngine>)
    ensures
        match r {
            Some(engine) => {
                &&& snapshot@.restorable()
                &&& engine@ == snapshot@.restored()
                &&& engine.wf()
            },
            None => !snapshot@.restorable(),
        },
{
    let mut book = OrderBook::new();
    let ghost listed = order_views(snapshot.orders@);
    let mut i: usize = 0;
    assert(listed.take(0) =~= Seq::empty());
    while i < snapshot.orders.len()
        invariant
            0 <= i <= snapshot.orders@.len(),
            listed == order_views(snapshot.orders@),
            book.wf(),
            book@.non_crossing(),
            BookView::empty().takes_all(listed.take(i as int)),
            book@ == BookView::empty().rest_all(listed.take(i as int)),
        decreases snapshot.orders@.len() - i,
    {
        let order = snapshot.orders[i].duplicate();
        proof {
            assert(order@ == listed[i as int]);
            assert(listed.take(i + 1).drop_last() =~= listed.take(i as int));
            assert(listed.take(i + 1).last() == listed[i as int]);
        }
        if !book.takes(&order) {
            proof {
                if BookView::empty().takes_all(listed) {
                    lemma_takes_all_prefix(BookView::empty(), listed, i + 1);
                }
            }
            return None;
        }
        proof {
            lemma_add_non_crossing(book@, order@);
        }
        book.add(order);
        i = i + 1;
    }
    assert(listed.take(i as int) =~= listed);
    Some(MatchingEngine::from_parts(snapshot.market.clone(), book, snapshot.sequence))
}

/// Round trip: the snapshot of a well-formed engine can be restored, and
/// restores to an engine of the same state. What an operation does is fixed
/// by the state it starts from, so every operation on the restored engine
/// makes the same trades and leaves the same residuals as on the engine the
/// snapshot was taken of.
pub proof fn law_snapshot_round_trip(engine: EngineView)
    requires
        engine.wf(),
    ensures
        SnapshotView::of(engine).restorable(),
        SnapshotView::of(engine).restored() == engine,
{
    lemma_rebuild(engine.book);
}

/// The values of a list of snapshots, in order.
pub open spec fn snapshot_views(snapshots: Seq<EngineSnapshot>) -> Seq<SnapshotView> {
    snapshots.map_values(|s: EngineSnapshot| s@)
}

/// The markets that a list of snapshots stands for.
pub open spec fn markets_of(snapshots: Seq<SnapshotView>) -> RegistryView
    decreases snapshots.len(),
{
    if snapshots.len() == 0 {
        Map::empty()
    } else {
        markets_of(snapshots.drop_last()).insert(
            snapshots.last().market,
            snapshots.last().restored(),
        )
    }
}

/// Whether a registry can be made of the snapshots: an engine can be made of
/// each, and no two are of one market.
pub open spec fn all_restorable(snapshots: Seq<SnapshotView>) -> bool
    decreases snapshots.len(),
{
    if snapshots.len() == 0 {
        true
    } else {
        &&& all_restorable(snapshots.drop_last())
        &&& snapshots.last().restorable()
        &&& !markets_of(snapshots.drop_last()).contains_key(snapshots.last().market)
    }
}

/// Snapshots of which a registry can be made, can be up to any point.
pub proof fn lemma_all_restorable_prefix(snapshots: Seq<SnapshotView>, n: int)
    requires
        0 <= n <= snapshots.len(),
        all_restorable(snapshots),
    ensures
        all_restorable(snapshots.take(n)),
    decreases snapshots.len(),
{
    if n == snapshots.len() {
        assert(snapshots.take(n) =~= snapshots);
    } else {
        lemma_all_restorable_prefix(snapshots.drop_last(), n);
        assert(snapshots.drop_last().take(n) =~= snapshots.take(n));
    }
}

/// The markets that snapshots stand for are the markets they name, and a
/// market that only one of them names is what that one stands for.
pub proof fn lemma_markets_of(snapshots: Seq<SnapshotView>)
    ensures
        forall|m: Seq<char>| #[trigger]
            markets_of(snapshots).contains_key(m) <==> exists|i: int|
                0 <= i < snapshots.len() && (#[trigger] snapshots[i]).market == m,
        forall|i: int|
            0 <= i < snapshots.len() && (forall|j: int|
                0 <= j < snapshots.len() && j != i ==> (#[trigger] snapshots[j]).market
                    != snapshots[i].market) ==> markets_of(snapshots)[(
            #[trigger] snapshots[i]).market] == snapshots[i].restored(),
    decreases snapshots.len(),
{
    if snapshots.len() > 0 {
        let front = snapshots.drop_last();
        let last = snapshots.last();
        lemma_markets_of(front);
        assert forall|m: Seq<char>| #[trigger]
            markets_of(snapshots).contains_key(m) <==> exists|i: int|
                0 <= i < snapshots.len() && (#[trigger] snapshots[i]).market == m by {
            if markets_of(snapshots).contains_key(m) {
                if m == last.market {
                    assert(snapshots[snapshots.len() - 1].market == m);
                } else {
                    assert(markets_of(front).contains_key(m));
                    let i = choose|i: int| 0 <= i < front.len() && (#[trigger] front[i]).market == m;
                    assert(snapshots[i].market == m);
                }
            }
            if exists|i: int| 0 <= i < snapshots.len() && (#[trigger] snapshots[i]).market == m {
                let i = choose|i: int|
                    0 <= i < snapshots.len() && (#[trigger] snapshots[i]).market == m;
                if i < front.len() {
                    assert(front[i].market == m);
                    assert(markets_of(front).contains_key(m));
                }
            }
        }
        assert forall|i: int|
            0 <= i < snapshots.len() && (forall|j: int|
                0 <= j < snapshots.len() && j != i ==> (#[trigger] snapshots[j]).market
                    != snapshots[i].market) implies markets_of(snapshots)[(
        #[trigger] snapshots[i]).market] == snapshots[i].restored() by {
            if i < front.len() {
                assert(front[i] == snapshots[i]);
                assert(snapshots[snapshots.len() - 1].market != snapshots[i].market);
                assert forall|j: int| 0 <= j < front.len() && j != i implies (
                #[trigger] front[j]).market != front[i].market by {
                    assert(snapshots[j].market != snapshots[i].market);
                }
            }
        }
    }
}

/// The snapshots of a list of engines, in order.
pub open spec fn snapshots_of(engines: Seq<EngineView>) -> Seq<SnapshotView> {
    engines.map_values(|e: EngineView| SnapshotView::of(e))
}

/// Round trip of a registry: of the snapshots of well-formed engines, no two
/// of one market, a registry can be made, and it holds for each market the
/// engine that the snapshot was taken of, and no other market.
pub proof fn law_registry_round_trip(engines: Seq<EngineView>)
    requires
        forall|i: int| 0 <= i < engines.len() ==> (#[trigger] engines[i]).wf(),
        forall|i: int, j: int|
            0 <= i < j < engines.len() ==> (#[trigger] engines[i]).market != (
            #[trigger] engines[j]).market,
    ensures
        all_restorable(snapshots_of(engines)),
        forall|m: Seq<char>| #[trigger]
            markets_of(snapshots_of(engines)).contains_key(m) <==> exists|i: int|
                0 <= i < engines.len() && (#[trigger] engines[i]).market == m,
        forall|i: int|
            0 <= i < engines.len() ==> markets_of(snapshots_of(engines))[(
            #[trigger] engines[i]).market] == engines[i],
    decreases engines.len(),
{
    let listed = snapshots_of(engines);
    lemma_markets_of(listed);
    assert forall|m: Seq<char>| #[trigger]
        markets_of(listed).contains_key(m) <==> exists|i: int|
            0 <= i < engines.len() && (#[trigger] engines[i]).market == m by {
        if markets_of(listed).contains_key(m) {
            let i = choose|i: int| 0 <= i < listed.len() && (#[trigger] listed[i]).market == m;
            assert(engines[i].market == m);
        }
        if exists|i: int| 0 <= i < engines.len() && (#[trigger] engines[i]).market == m {
            let i = choose|i: int| 0 <= i < engines.len() && (#[trigger] engines[i]).market == m;
            assert(listed[i].market == m);
        }
    }
    assert forall|i: int| 0 <= i < engines.len() implies markets_of(listed)[(
    #[trigger] engines[i]).market] == engines[i] by {
        law_snapshot_round_trip(engines[i]);
        assert(listed[i] == SnapshotView::of(engines[i]));
        assert forall|j: int| 0 <= j < listed.len() && j != i implies (#[trigger] listed[j]).market
            != listed[i].market by {
            if j < i {
                assert(engines[j].market != engines[i].market);
            } else {
                assert(engines[i].market != engines[j].market);
            }
        }
    }
    if engines.len() > 0 {
        let front = engines.drop_last();
        let last = engines.last();
        assert(listed.drop_last() =~= snapshots_of(front));
        assert forall|i: int| 0 <= i < front.len() implies (#[trigger] front[i]).wf() by {
            assert(engines[i].wf());
        }
        assert forall|i: int, j: int| 0 <= i < j < front.len() implies (#[trigger] front[i]).market
            != (#[trigger] front[j]).market by {
            assert(engines[i].market != engines[j].market);
        }
        law_registry_round_trip(front);
        law_snapshot_round_trip(last);
        if markets_of(snapshots_of(front)).contains_key(last.market) {
            let k = choose|k: int| 0 <= k < front.len() && (#[trigger] front[k]).market == last.market;
            assert(engines[k].market != engines[engines.len() - 1].market);
        }
    }
}

/// The values of a list of engines, in order.
pub open spec fn engine_views(engines: Seq<MatchingEngine>) -> Seq<EngineView> {
    engines.map_values(|e: MatchingEngine| e@)
}

/// The state of every engine of `registry` as plain values. A registry can
/// be made of them again, and it has the state of `registry`.
pub fn snapshot_all(registry: &MarketRegistry) -> (r: Vec<EngineSnapshot>)
    requires
        registry.wf(),
    ensures
        all_restorable(snapshot_views(r@)),
        markets_of(snapshot_views(r@)) == registry@,
{
    let engines = registry.engines();
    let mut out: Vec<EngineSnapshot> = Vec::new();
    let mut i: usize = 0;
    while i < engines.len()
        invariant
            0 <= i <= engines@.len(),
            out@.len() == i,
            forall|k: int| 0 <= k < i ==> (#[trigger] out@[k])@ == SnapshotView::of(engines@[k]@),
        decreases engines@.len() - i,
    {
        out.push(snapshot(&engines[i]));
        i = i + 1;
    }
    proof {
        let held = engine_views(engines@);
        let listed = snapshot_views(out@);
        assert(listed =~= snapshots_of(held));
        assert forall|k: int| 0 <= k < held.len() implies (#[trigger] held[k]).wf() by {
            assert(registry@[engines@[k]@.market].wf());
        }
        assert forall|k: int, j: int| 0 <= k < j < held.len() implies (#[trigger] held[k]).market
            != (#[trigger] held[j]).market by {
            assert(engines@[k]@.market != engines@[j]@.market);
        }
        law_registry_round_trip(held);
        assert forall|m: Seq<char>| markets_of(listed).contains_key(m) <==> registry@.contains_key(
            m,
        ) by {
            if markets_of(listed).contains_key(m) {
                let k = choose|k: int| 0 <= k < held.len() && (#[trigger] held[k]).market == m;
                assert(engines@[k]@.market == m);
            }
            if registry@.contains_key(m) {
                let k = choose|k: int|
                    0 <= k < engines@.len() && (#[trigger] engines@[k])@.market == m;
                assert(held[k].market == m);
            }
        }
        assert forall|m: Seq<char>| #[trigger] registry@.contains_key(m) implies markets_of(
            listed,
        )[m] == registry@[m] by {
            let k = choose|k: int| 0 <= k < engines@.len() && (#[trigger] engines@[k])@.market == m;
            assert(held[k] == engines@[k]@);
            assert(markets_of(listed)[held[k].market] == held[k]);
        }
        assert(markets_of(listed) =~= registry@);
    }
    out
}

/// Makes the registry that a list of snapshots stands for, if there is one.
pub fn restore_all(snapshots: &Vec<EngineSnapshot>) -> (r: Option<MarketRegistry>)
    ensures
        match r {
            Some(registry) => {
                &&& all_restorable(snapshot_views(snapshots@))
                &&& registry@ == markets_of(snapshot_views(snapshots@))
                &&& registry.wf()
            },
            None => !all_restorable(snapshot_views(snapshots@)),
        },
{
    let mut registry = MarketRegistry::new();
    let ghost listed = snapshot_views(snapshots@);
    let mut i: usize = 0;
    assert(listed.take(0) =~= Seq::empty());
    while i < snapshots.len()
        invariant
            0 <= i <= snapshots@.len(),
            listed == snapshot_views(snapshots@),
            registry.wf(),
            all_restorable(listed.take(i as int)),
            registry@ == markets_of(listed.take(i as int)),
        decreases snapshots@.len() - i,
    {
        proof {
            assert(listed.take(i + 1).drop_last() =~= listed.take(i as int));
            assert(listed.take(i + 1).last() == snapshots@[i as int]@);
            if all_restorable(listed) {
                lemma_all_restorable_prefix(listed, i + 1);
            }
        }
        let engine = match restore(&snapshots[i]) {
            Some(engine) => engine,
            None => {
                return None;
            },
        };
        if !registry.adopt(engine) {
            return None;
        }
        i = i + 1;
    }
    assert(listed.take(i as int) =~= listed);
    Some(registry)
}

} // verus!
