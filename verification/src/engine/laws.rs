//! What holds of every matching engine, whatever orders it has seen.

use vstd::prelude::*;
use crate::engine::ladder::by_priority;
use crate::engine::ladder::is_best;
use crate::engine::ladder::lemma_by_priority_head;
use crate::engine::ladder::lemma_by_priority_reduce_head;
use crate::engine::ladder::ladder_total;
use crate::engine::ladder::lemma_best_exists;
use crate::engine::ladder::lemma_ladder_fill_total;
use crate::engine::orderbook::lemma_add_non_crossing;
use crate::engine::orderbook::lemma_best_order_positive;
use crate::engine::orderbook::lemma_best_rests_clear;
use crate::engine::orderbook::lemma_fill_non_crossing;
use crate::engine::orderbook::lemma_no_best_rests_clear;
use crate::engine::orderbook::lemma_remove_non_crossing;
use crate::engine::orderbook::rests_clear;
use crate::engine::matching::run_match;
use crate::engine::matching::EngineView;
use crate::engine::orderbook::lemma_add_wf;
use crate::engine::orderbook::lemma_fill_wf;
use crate::engine::orderbook::lemma_remove_wf;
use crate::engine::orderbook::BookView;
use crate::models::order::OrderView;
use crate::models::side::crosses;
use crate::models::side::Side;
use crate::models::trade::TradeView;

verus! {

/// The quantity that a list of trades moved.
pub open spec fn trades_total(trades: Seq<TradeView>) -> nat
    decreases trades.len(),
{
    if trades.len() == 0 {
        0
    } else {
        trades[0].quantity as nat + trades_total(trades.drop_first())
    }
}

/// The id of the resting order of a trade that an order of side `taker` made.
pub open spec fn maker_of(trade: TradeView, taker: Side) -> u128 {
    match taker {
        Side::Buy => trade.sell_order,
        Side::Sell => trade.buy_order,
    }
}

/// Matching keeps a book well formed and uncrossed, does not touch the
/// incoming order's own side, and stops with something left of the incoming
/// order only where no level of the other side is within its limit.
pub proof fn lemma_match_invariants(
    book: BookView,
    taker: OrderView,
    market: Seq<char>,
    sequence: nat,
)
    requires
        book.wf(),
        book.non_crossing(),
        !book.contains(taker.id),
    ensures
        ({
            let m = run_match(book, taker, market, sequence);
            &&& m.book.wf()
            &&& m.book.non_crossing()
            &&& !m.book.contains(taker.id)
            &&& m.residual <= taker.quantity
            &&& m.residual > 0 ==> rests_clear(m.book, taker)
            &&& m.book.ladder(taker.side) == book.ladder(taker.side)
        }),
    decreases taker.quantity,
{
    let makers = taker.side.opposite();
    match book.best(makers) {
        Some(p) => {
            if taker.quantity > 0 && crosses(taker.side, taker.price, p) {
                lemma_best_order_positive(book, makers);
                let maker = book.best_order(makers);
                let quantity = if taker.quantity < maker.quantity {
                    taker.quantity
                } else {
                    maker.quantity
                };
                lemma_fill_wf(book, makers, quantity);
                lemma_fill_non_crossing(book, makers, quantity);
                let next = taker.with_quantity((taker.quantity - quantity) as u64);
                lemma_match_invariants(book.fill(makers, quantity), next, market, sequence + 1);
                let m = run_match(book, taker, market, sequence);
                assert(rests_clear(m.book, next) == rests_clear(m.book, taker));
            } else if taker.quantity > 0 {
                lemma_best_rests_clear(book, taker);
            }
        },
        None => {
            lemma_no_best_rests_clear(book, taker);
        },
    }
}

/// The trades of one match are numbered on from the last trade made before,
/// one by one.
pub proof fn lemma_match_sequence(
    book: BookView,
    taker: OrderView,
    market: Seq<char>,
    sequence: nat,
)
    ensures
        forall|i: int|
            0 <= i < run_match(book, taker, market, sequence).trades.len() ==> (
            #[trigger] run_match(book, taker, market, sequence).trades[i]).sequence == sequence
                + 1 + i,
    decreases taker.quantity,
{
    let makers = taker.side.opposite();
    let m = run_match(book, taker, market, sequence);
    match book.best(makers) {
        Some(p) => {
            if taker.quantity > 0 && crosses(taker.side, taker.price, p) {
                let maker = book.best_order(makers);
                let quantity = if taker.quantity < maker.quantity {
                    taker.quantity
                } else {
                    maker.quantity
                };
                if quantity > 0 {
                    let next = taker.with_quantity((taker.quantity - quantity) as u64);
                    lemma_match_sequence(book.fill(makers, quantity), next, market, sequence + 1);
                    let rest = run_match(book.fill(makers, quantity), next, market, sequence + 1);
                    assert forall|i: int| 0 <= i < m.trades.len() implies (#[trigger] m.trades[i]).sequence
                        == sequence + 1 + i by {
                        if i > 0 {
                            assert(m.trades[i] == rest.trades[i - 1]);
                        }
                    }
                }
            }
        },
        None => {},
    }
}

/// Every trade of one match moves a quantity, is of the market of the match,
/// and has the incoming order on the incoming order's side.
pub proof fn law_trades_name_the_taker(
    book: BookView,
    taker: OrderView,
    market: Seq<char>,
    sequence: nat,
)
    ensures
        forall|i: int|
            0 <= i < run_match(book, taker, market, sequence).trades.len() ==> {
                let trade = #[trigger] run_match(book, taker, market, sequence).trades[i];
                &&& trade.quantity >= 1
                &&& trade.market == market
                &&& match taker.side {
                    Side::Buy => trade.buy_order == taker.id,
                    Side::Sell => trade.sell_order == taker.id,
                }
            },
    decreases taker.quantity,
{
    let makers = taker.side.opposite();
    let m = run_match(book, taker, market, sequence);
    match book.best(makers) {
        Some(p) => {
            if taker.quantity > 0 && crosses(taker.side, taker.price, p) {
                let maker = book.best_order(makers);
                let quantity = if taker.quantity < maker.quantity {
                    taker.quantity
                } else {
                    maker.quantity
                };
                if quantity > 0 {
                    let next = taker.with_quantity((taker.quantity - quantity) as u64);
                    law_trades_name_the_taker(book.fill(makers, quantity), next, market, sequence + 1);
                    let rest = run_match(book.fill(makers, quantity), next, market, sequence + 1);
                    assert forall|i: int| 0 <= i < m.trades.len() implies {
                        let trade = #[trigger] m.trades[i];
                        &&& trade.quantity >= 1
                        &&& trade.market == market
                        &&& match taker.side {
                            Side::Buy => trade.buy_order == taker.id,
                            Side::Sell => trade.sell_order == taker.id,
                        }
                    } by {
                        if i > 0 {
                            assert(m.trades[i] == rest.trades[i - 1]);
                        }
                    }
                }
            }
        },
        None => {},
    }
}

/// Conservation: what the trades of one match moved is what the incoming
/// order lost, and is what the resting orders of the other side lost.
pub proof fn lemma_match_conservation(
    book: BookView,
    taker: OrderView,
    market: Seq<char>,
    sequence: nat,
)
    requires
        book.wf(),
    ensures
        ({
            let m = run_match(book, taker, market, sequence);
            let makers = taker.side.opposite();
            &&& trades_total(m.trades) + m.residual == taker.quantity
            &&& ladder_total(m.book.ladder(makers)) + trades_total(m.trades) == ladder_total(
                book.ladder(makers),
            )
        }),
    decreases taker.quantity,
{
    let makers = taker.side.opposite();
    let m = run_match(book, taker, market, sequence);
    match book.best(makers) {
        Some(p) => {
            if taker.quantity > 0 && crosses(taker.side, taker.price, p) {
                lemma_best_order_positive(book, makers);
                assert(is_best(book.ladder(makers), makers, p));
                let maker = book.best_order(makers);
                let quantity = if taker.quantity < maker.quantity {
                    taker.quantity
                } else {
                    maker.quantity
                };
                let next = taker.with_quantity((taker.quantity - quantity) as u64);
                lemma_fill_wf(book, makers, quantity);
                lemma_ladder_fill_total(book.ladder(makers), p, quantity);
                lemma_match_conservation(book.fill(makers, quantity), next, market, sequence + 1);
                let rest = run_match(book.fill(makers, quantity), next, market, sequence + 1);
                assert(m.trades.drop_first() =~= rest.trades);
            }
        },
        None => {},
    }
}

/// One match makes no more trades than orders rest in the book.
pub proof fn lemma_match_count(book: BookView, taker: OrderView, market: Seq<char>, sequence: nat)
    requires
        book.wf(),
    ensures
        run_match(book, taker, market, sequence).trades.len() <= book.index.len(),
    decreases taker.quantity,
{
    let makers = taker.side.opposite();
    match book.best(makers) {
        Some(p) => {
            if taker.quantity > 0 && crosses(taker.side, taker.price, p) {
                lemma_best_order_positive(book, makers);
                assert(is_best(book.ladder(makers), makers, p));
                let maker = book.best_order(makers);
                assert(book.index.contains_key(maker.id));
                let quantity = if taker.quantity < maker.quantity {
                    taker.quantity
                } else {
                    maker.quantity
                };
                let next = taker.with_quantity((taker.quantity - quantity) as u64);
                lemma_fill_wf(book, makers, quantity);
                lemma_match_count(book.fill(makers, quantity), next, market, sequence + 1);
                if quantity < maker.quantity {
                    assert(next.quantity == 0);
                    assert(run_match(book.fill(makers, quantity), next, market, sequence + 1).trades.len()
                        == 0);
                }
            }
        },
        None => {},
    }
}

/// The trades of one match are made at levels of the other side that are
/// within the incoming order's limit, from the best price on: no trade is
/// made at a better price than the one before it.
pub proof fn law_trade_prices_worsen(
    book: BookView,
    taker: OrderView,
    market: Seq<char>,
    sequence: nat,
)
    requires
        book.wf(),
    ensures
        ({
            let trades = run_match(book, taker, market, sequence).trades;
            let makers = taker.side.opposite();
            &&& forall|i: int|
                0 <= i < trades.len() ==> book.ladder(makers).contains_key(
                    (#[trigger] trades[i]).price,
                ) && crosses(taker.side, taker.price, trades[i].price)
            &&& forall|i: int, j: int|
                0 <= i < j < trades.len() ==> match makers {
                    Side::Buy => (#[trigger] trades[i]).price >= (#[trigger] trades[j]).price,
                    Side::Sell => trades[i].price <= trades[j].price,
                }
        }),
    decreases taker.quantity,
{
    let makers = taker.side.opposite();
    let trades = run_match(book, taker, market, sequence).trades;
    match book.best(makers) {
        Some(p) => {
            if taker.quantity > 0 && crosses(taker.side, taker.price, p) {
                lemma_best_order_positive(book, makers);
                assert(is_best(book.ladder(makers), makers, p));
                let maker = book.best_order(makers);
                let quantity = if taker.quantity < maker.quantity {
                    taker.quantity
                } else {
                    maker.quantity
                };
                let next = taker.with_quantity((taker.quantity - quantity) as u64);
                let after = book.fill(makers, quantity);
                lemma_fill_wf(book, makers, quantity);
                law_trade_prices_worsen(after, next, market, sequence + 1);
                let rest = run_match(after, next, market, sequence + 1).trades;
                assert(forall|q: u64| #[trigger]
                    after.ladder(makers).contains_key(q) ==> book.ladder(makers).contains_key(q));
                assert forall|i: int| 0 <= i < trades.len() implies book.ladder(
                    makers,
                ).contains_key((#[trigger] trades[i]).price) && crosses(
                    taker.side,
                    taker.price,
                    trades[i].price,
                ) by {
                    if i > 0 {
                        assert(trades[i] == rest[i - 1]);
                    }
                }
                assert forall|i: int, j: int| 0 <= i < j < trades.len() implies match makers {
                    Side::Buy => (#[trigger] trades[i]).price >= (#[trigger] trades[j]).price,
                    Side::Sell => trades[i].price <= trades[j].price,
                } by {
                    assert(trades[j] == rest[j - 1]);
                    assert(book.ladder(makers).contains_key(rest[j - 1].price));
                    if i > 0 {
                        assert(trades[i] == rest[i - 1]);
                    }
                }
            }
        },
        None => {},
    }
}

/// The trades of one match are made with the resting
/// orders of the other side in the order of their priority, best price
/// first and at one price the oldest first, one trade with each, at that
/// order's price, and none is passed over.
pub proof fn lemma_match_priority(book: BookView, taker: OrderView, market: Seq<char>, sequence: nat)
    requires
        book.wf(),
    ensures
        ({
            let trades = run_match(book, taker, market, sequence).trades;
            let makers = by_priority(book.ladder(taker.side.opposite()), taker.side.opposite());
            &&& trades.len() <= makers.len()
            &&& forall|k: int|
                0 <= k < trades.len() ==> maker_of(#[trigger] trades[k], taker.side)
                    == makers[k].id && trades[k].price == makers[k].price
        }),
    decreases taker.quantity,
{
    let side = taker.side.opposite();
    let trades = run_match(book, taker, market, sequence).trades;
    let makers = by_priority(book.ladder(side), side);
    match book.best(side) {
        Some(p) => {
            if taker.quantity > 0 && crosses(taker.side, taker.price, p) {
                lemma_best_order_positive(book, side);
                assert(is_best(book.ladder(side), side, p));
                let maker = book.best_order(side);
                let quantity = if taker.quantity < maker.quantity {
                    taker.quantity
                } else {
                    maker.quantity
                };
                let next = taker.with_quantity((taker.quantity - quantity) as u64);
                let after = book.fill(side, quantity);
                lemma_fill_wf(book, side, quantity);
                lemma_by_priority_head(book.ladder(side), side);
                lemma_match_priority(after, next, market, sequence + 1);
                let rest = run_match(after, next, market, sequence + 1).trades;
                assert(maker.price == p);
                if quantity < maker.quantity {
                    assert(next.quantity == 0);
                    assert(rest.len() == 0);
                } else {
                    assert(by_priority(after.ladder(side), side) == makers.drop_first());
                }
                assert forall|k: int| 0 <= k < trades.len() implies maker_of(
                    #[trigger] trades[k],
                    taker.side,
                ) == makers[k].id && trades[k].price == makers[k].price by {
                    if k > 0 {
                        assert(trades[k] == rest[k - 1]);
                        assert(makers.drop_first()[k - 1] == makers[k]);
                    }
                }
            }
        },
        None => {},
    }
}

/// What is left, in the order of their priority, of `makers` once `trades`
/// were made with the first of them, one each: those that no trade was made
/// with and, before them, what is left of the last one traded with, if
/// anything is.
pub open spec fn makers_left(makers: Seq<OrderView>, trades: Seq<TradeView>) -> Seq<OrderView> {
    let n = trades.len() as int;
    if n == 0 {
        makers
    } else if trades[n - 1].quantity >= makers[n - 1].quantity {
        makers.skip(n)
    } else {
        makers.skip(n - 1).update(
            0,
            makers[n - 1].with_quantity((makers[n - 1].quantity - trades[n - 1].quantity) as u64),
        )
    }
}

/// What one match leaves of the resting orders of the other side: every
/// order traded with but the last is filled whole and leaves the book and
/// the index, the last loses what its trade moved and leaves only if
/// nothing of it is left, and the orders no trade was made with stay as
/// they are, in their order. No order comes into the index, and one leaves
/// it only if it was filled whole.
pub proof fn lemma_match_leaves(book: BookView, taker: OrderView, market: Seq<char>, sequence: nat)
    requires
        book.wf(),
    ensures
        ({
            let side = taker.side.opposite();
            let m = run_match(book, taker, market, sequence);
            let makers = by_priority(book.ladder(side), side);
            let n = m.trades.len() as int;
            &&& n <= makers.len()
            &&& forall|k: int|
                0 <= k < n - 1 ==> (#[trigger] m.trades[k]).quantity == makers[k].quantity
            &&& n > 0 ==> 1 <= m.trades[n - 1].quantity <= makers[n - 1].quantity
            &&& by_priority(m.book.ladder(side), side) == makers_left(makers, m.trades)
            &&& forall|id: u128| #[trigger]
                m.book.index.contains_key(id) ==> book.index.contains_key(id)
            &&& forall|k: int|
                0 <= k < n && (#[trigger] m.trades[k]).quantity == makers[k].quantity
                    ==> !m.book.index.contains_key(makers[k].id)
            &&& forall|id: u128|
                book.index.contains_key(id) && !(#[trigger] m.book.index.contains_key(id))
                    ==> exists|k: int|
                    0 <= k < n && (#[trigger] makers[k]).id == id && m.trades[k].quantity
                        == makers[k].quantity
        }),
    decreases taker.quantity,
{
    let side = taker.side.opposite();
    let m = run_match(book, taker, market, sequence);
    let makers = by_priority(book.ladder(side), side);
    let n = m.trades.len() as int;
    lemma_match_priority(book, taker, market, sequence);
    match book.best(side) {
        Some(p) => {
            if taker.quantity > 0 && crosses(taker.side, taker.price, p) {
                lemma_best_order_positive(book, side);
                assert(is_best(book.ladder(side), side, p));
                let maker = book.best_order(side);
                assert(book.index.contains_key(maker.id));
                let quantity = if taker.quantity < maker.quantity {
                    taker.quantity
                } else {
                    maker.quantity
                };
                let next = taker.with_quantity((taker.quantity - quantity) as u64);
                let after = book.fill(side, quantity);
                lemma_fill_wf(book, side, quantity);
                lemma_by_priority_head(book.ladder(side), side);
                assert(makers[0] == maker);
                let rest = run_match(after, next, market, sequence + 1);
                lemma_match_leaves(after, next, market, sequence + 1);
                let behind = by_priority(after.ladder(side), side);
                assert(m.trades[0].quantity == quantity);
                assert(m.trades.len() == rest.trades.len() + 1);
                assert forall|k: int| 1 <= k < n implies #[trigger] m.trades[k] == rest.trades[k
                    - 1] by {}
                if quantity < maker.quantity {
                    let kept = maker.with_quantity((maker.quantity - quantity) as u64);
                    lemma_by_priority_reduce_head(book.ladder(side), side, kept);
                    assert(next.quantity == 0);
                    assert(rest.trades.len() == 0);
                    assert(rest.book == after);
                    assert(makers.skip(0) =~= makers);
                    assert(m.book.index == book.index);
                } else {
                    assert(behind == makers.drop_first());
                    assert(after.index == book.index.remove(maker.id));
                    assert forall|k: int| 0 <= k < behind.len() implies #[trigger] behind[k]
                        == makers[k + 1] by {}
                    if rest.trades.len() == 0 {
                        assert(makers.skip(1) =~= makers.drop_first());
                    } else {
                        let j = rest.trades.len() as int;
                        assert(m.trades[n - 1] == rest.trades[j - 1]);
                        assert(behind[j - 1] == makers[n - 1]);
                        assert(behind.skip(j) =~= makers.skip(n));
                        assert(behind.skip(j - 1) =~= makers.skip(n - 1));
                    }
                    assert forall|k: int| 0 <= k < n - 1 implies (#[trigger] m.trades[k]).quantity
                        == makers[k].quantity by {
                        if k > 0 {
                            assert(m.trades[k] == rest.trades[k - 1]);
                            assert(behind[k - 1] == makers[k]);
                        }
                    }
                    assert forall|k: int|
                        0 <= k < n && (#[trigger] m.trades[k]).quantity
                            == makers[k].quantity implies !m.book.index.contains_key(
                        makers[k].id,
                    ) by {
                        if k > 0 {
                            assert(m.trades[k] == rest.trades[k - 1]);
                            assert(behind[k - 1] == makers[k]);
                        }
                    }
                    assert forall|id: u128|
                        book.index.contains_key(id) && !(#[trigger] m.book.index.contains_key(
                            id,
                        )) implies exists|k: int|
                        0 <= k < n && (#[trigger] makers[k]).id == id && m.trades[k].quantity
                            == makers[k].quantity by {
                        if id == maker.id {
                            assert(makers[0].id == id);
                        } else {
                            assert(after.index.contains_key(id));
                            let j = choose|j: int|
                                0 <= j < rest.trades.len() && (#[trigger] behind[j]).id == id
                                    && rest.trades[j].quantity == behind[j].quantity;
                            assert(makers[j + 1] == behind[j]);
                            assert(m.trades[j + 1] == rest.trades[j]);
                        }
                    }
                }
            }
        },
        None => {},
    }
}

/// Every order listed by priority rests on the ladder, at the price it
/// names.
pub proof fn lemma_by_priority_are_resting(l: crate::engine::ladder::Ladder, side: Side, k: int)
    requires
        l.dom().finite(),
        0 <= k < by_priority(l, side).len(),
    ensures
        exists|p: u64, i: int|
            l.contains_key(p) && 0 <= i < l[p].len() && #[trigger] l[p][i] == by_priority(
                l,
                side,
            )[k],
    decreases l.dom().len(),
{
    match crate::engine::ladder::best_price(l, side) {
        Some(best) => {
            assert(is_best(l, side, best));
            if k < l[best].len() {
                assert(l[best][k] == by_priority(l, side)[k]);
            } else {
                let rest = l.remove(best);
                lemma_by_priority_are_resting(rest, side, k - l[best].len());
                let (p, i) = choose|p: u64, i: int|
                    rest.contains_key(p) && 0 <= i < rest[p].len() && #[trigger] rest[p][i]
                        == by_priority(rest, side)[k - l[best].len()];
                assert(l[p][i] == by_priority(l, side)[k]);
            }
        },
        None => {},
    }
}

/// Of a well-formed engine the best bid is priced below the best ask, unless
/// one side is empty; and a side that has no best price is empty.
pub proof fn law_best_bid_below_best_ask(engine: EngineView)
    requires
        engine.wf(),
    ensures
        engine.book.best(Side::Buy) is None <==> engine.book.bids == Map::<
            u64,
            Seq<OrderView>,
        >::empty(),
        engine.book.best(Side::Sell) is None <==> engine.book.asks == Map::<
            u64,
            Seq<OrderView>,
        >::empty(),
        engine.book.best(Side::Buy) is Some && engine.book.best(Side::Sell) is Some
            ==> engine.book.best(Side::Buy).unwrap() < engine.book.best(Side::Sell).unwrap(),
{
    lemma_best_exists(engine.book.bids, Side::Buy);
    lemma_best_exists(engine.book.asks, Side::Sell);
    if engine.book.best(Side::Buy) is Some {
        assert(is_best(engine.book.bids, Side::Buy, engine.book.best(Side::Buy).unwrap()));
    }
    if engine.book.best(Side::Sell) is Some {
        assert(is_best(engine.book.asks, Side::Sell, engine.book.best(Side::Sell).unwrap()));
    }
}

/// In a well-formed book every resting order has a quantity, every level
/// has an order, and the ids in the index are the ids in the queues, each
/// resting at one place only.
pub proof fn law_index_matches_queues(book: BookView)
    requires
        book.wf(),
    ensures
        book.positive_residuals(),
        book.no_empty_levels(),
        book.index.dom() == book.queued_ids(),
        forall|s1: Side, p1: u64, i1: int, s2: Side, p2: u64, i2: int|
            book.ladder(s1).contains_key(p1) && 0 <= i1 < book.ladder(s1)[p1].len()
                && book.ladder(s2).contains_key(p2) && 0 <= i2 < book.ladder(s2)[p2].len() && (
            #[trigger] book.ladder(s1)[p1][i1]).id == (#[trigger] book.ladder(s2)[p2][i2]).id ==> s1
                == s2 && p1 == p2 && i1 == i2,
{
    assert forall|id: u128| book.index.dom().contains(id) <==> book.queued_ids().contains(
        id,
    ) by {
        if book.index.dom().contains(id) {
            assert(book.index.contains_key(id));
            assert(book.rests(id));
            let (price, side) = book.index[id];
            let q = book.ladder(side)[price.0];
            let i = crate::engine::ladder::queue_position(q, id);
            assert(book.ladder(side)[price.0][i].id == id);
        }
        if book.queued_ids().contains(id) {
            let (side, p, i) = choose|side: Side, p: u64, i: int|
                book.ladder(side).contains_key(p) && 0 <= i < book.ladder(side)[p].len() && (
                #[trigger] book.ladder(side)[p][i]).id == id;
            match side {
                Side::Buy => {
                    assert(book.index.contains_key(book.bids[p][i].id));
                },
                Side::Sell => {
                    assert(book.index.contains_key(book.asks[p][i].id));
                },
            }
        }
    }
    assert(book.index.dom() =~= book.queued_ids());
    assert forall|s1: Side, p1: u64, i1: int, s2: Side, p2: u64, i2: int|
        book.ladder(s1).contains_key(p1) && 0 <= i1 < book.ladder(s1)[p1].len() && book.ladder(
            s2,
        ).contains_key(p2) && 0 <= i2 < book.ladder(s2)[p2].len() && (#[trigger] book.ladder(
            s1,
        )[p1][i1]).id == (#[trigger] book.ladder(s2)[p2][i2]).id implies s1 == s2 && p1 == p2
        && i1 == i2 by {
        let id = book.ladder(s1)[p1][i1].id;
        match s1 {
            Side::Buy => {
                assert(book.index[book.bids[p1][i1].id] == (crate::models::price::Price(p1), s1));
            },
            Side::Sell => {
                assert(book.index[book.asks[p1][i1].id] == (crate::models::price::Price(p1), s1));
            },
        }
        match s2 {
            Side::Buy => {
                assert(book.index[book.bids[p2][i2].id] == (crate::models::price::Price(p2), s2));
            },
            Side::Sell => {
                assert(book.index[book.asks[p2][i2].id] == (crate::models::price::Price(p2), s2));
            },
        }
        if i1 < i2 {
            assert(book.ladder(s1)[p1][i1].id != book.ladder(s1)[p1][i2].id);
        }
        if i2 < i1 {
            assert(book.ladder(s1)[p1][i2].id != book.ladder(s1)[p1][i1].id);
        }
    }
}

/// Submitting an order that has a quantity and a fresh id to a well-formed
/// engine leaves a well-formed engine: bids below asks, no resting order
/// without quantity, no empty level, index and queues in step.
pub proof fn law_submit_keeps_invariants(engine: EngineView, order: OrderView)
    requires
        engine.wf(),
        order.quantity >= 1,
        !engine.book.contains(order.id),
    ensures
        engine.submit(order).wf(),
        engine.submit(order).book.non_crossing(),
        engine.submit(order).book.positive_residuals(),
        engine.submit(order).book.no_empty_levels(),
        engine.submit(order).book.index_consistent(),
{
    lemma_match_invariants(engine.book, order, engine.market, engine.sequence as nat);
    let m = engine.matched(order);
    if m.residual > 0 {
        let left = order.with_quantity(m.residual);
        assert(rests_clear(m.book, left) == rests_clear(m.book, order));
        lemma_add_wf(m.book, left);
        lemma_add_non_crossing(m.book, left);
    }
}

/// Cancelling an order leaves a well-formed engine well formed, and the
/// order no longer rests: a second cancel finds nothing.
pub proof fn law_cancel_keeps_invariants(engine: EngineView, id: u128)
    requires
        engine.wf(),
    ensures
        engine.cancel(id).wf(),
        !engine.cancel(id).book.contains(id),
        engine.cancel(id).cancel(id) == engine.cancel(id),
        engine.cancel(id).sequence == engine.sequence,
{
    lemma_remove_wf(engine.book, id);
    lemma_remove_non_crossing(engine.book, id);
}

/// Replacing an order leaves a well-formed engine well formed.
pub proof fn law_replace_keeps_invariants(engine: EngineView, order: OrderView)
    requires
        engine.wf(),
        order.quantity >= 1,
    ensures
        engine.replace(order).wf(),
{
    law_cancel_keeps_invariants(engine, order.id);
    law_submit_keeps_invariants(engine.cancel(order.id), order);
}

/// The trades of one submission are numbered from the engine's sequence
/// number on, one by one and without a gap, and the engine's sequence number
/// moves to that of the last of them. An engine starts at 0, so the trades
/// of a market are numbered 1, 2, 3, and so on.
pub proof fn law_sequence_contiguous(engine: EngineView, order: OrderView)
    requires
        engine.sequence + engine.trades(order).len() <= u64::MAX,
    ensures
        forall|i: int|
            0 <= i < engine.trades(order).len() ==> (#[trigger] engine.trades(order)[i]).sequence
                == engine.sequence + 1 + i,
        engine.submit(order).sequence == engine.sequence + engine.trades(order).len(),
        EngineView::fresh(engine.market).sequence == 0,
{
    lemma_match_sequence(engine.book, order, engine.market, engine.sequence as nat);
}

/// The engine after the first `n` of `orders` have been submitted to it, one
/// after the other.
pub open spec fn submitted(engine: EngineView, orders: Seq<OrderView>, n: nat) -> EngineView
    decreases n,
{
    if n == 0 {
        engine
    } else {
        submitted(engine, orders, (n - 1) as nat).submit(orders[n - 1])
    }
}

/// The trades that the first `n` of `orders` made, one order after the
/// other, in the order they were made.
pub open spec fn trades_of(engine: EngineView, orders: Seq<OrderView>, n: nat) -> Seq<TradeView>
    decreases n,
{
    if n == 0 {
        Seq::empty()
    } else {
        trades_of(engine, orders, (n - 1) as nat) + submitted(
            engine,
            orders,
            (n - 1) as nat,
        ).trades(orders[n - 1])
    }
}

/// The trades of a market are numbered without a gap: the trades of a run of
/// submissions are numbered from the engine's sequence number on, one by
/// one, so from 1 on for an engine that starts fresh, and the engine's
/// sequence number moves by as many as trades were made.
pub proof fn law_sequence_without_gaps(engine: EngineView, orders: Seq<OrderView>, n: nat)
    requires
        n <= orders.len(),
        engine.sequence + trades_of(engine, orders, n).len() <= u64::MAX,
    ensures
        forall|i: int|
            0 <= i < trades_of(engine, orders, n).len() ==> (#[trigger] trades_of(
                engine,
                orders,
                n,
            )[i]).sequence == engine.sequence + 1 + i,
        submitted(engine, orders, n).sequence == engine.sequence + trades_of(
            engine,
            orders,
            n,
        ).len(),
    decreases n,
{
    if n > 0 {
        let before = submitted(engine, orders, (n - 1) as nat);
        let earlier = trades_of(engine, orders, (n - 1) as nat);
        let made = before.trades(orders[n - 1]);
        law_sequence_without_gaps(engine, orders, (n - 1) as nat);
        law_sequence_contiguous(before, orders[n - 1]);
        assert forall|i: int| 0 <= i < trades_of(engine, orders, n).len() implies (
        #[trigger] trades_of(engine, orders, n)[i]).sequence == engine.sequence + 1 + i by {
            if i < earlier.len() {
                assert(trades_of(engine, orders, n)[i] == earlier[i]);
            } else {
                assert(trades_of(engine, orders, n)[i] == made[i - earlier.len()]);
            }
        }
    }
}

/// Conservation: the quantity of an incoming order is what its trades moved
/// and what is left of it; the resting orders of the other side lost what
/// the trades moved; and what is left of the incoming order, and nothing
/// else, is added to its own side.
pub proof fn law_conservation(engine: EngineView, order: OrderView)
    requires
        engine.wf(),
        order.quantity >= 1,
        !engine.book.contains(order.id),
    ensures
        ({
            let m = engine.matched(order);
            let after = engine.submit(order).book;
            let makers = order.side.opposite();
            &&& order.quantity == trades_total(m.trades) + m.residual
            &&& ladder_total(engine.book.ladder(makers)) == ladder_total(after.ladder(makers))
                + trades_total(m.trades)
            &&& ladder_total(after.ladder(order.side)) == ladder_total(
                engine.book.ladder(order.side),
            ) + m.residual
        }),
{
    lemma_match_conservation(engine.book, order, engine.market, engine.sequence as nat);
    lemma_match_invariants(engine.book, order, engine.market, engine.sequence as nat);
    let m = engine.matched(order);
    if m.residual > 0 {
        crate::engine::ladder::lemma_ladder_push_total(
            m.book.ladder(order.side),
            order.with_quantity(m.residual),
        );
    }
}

/// Where a resting order could have matched an incoming order, a trade is
/// made, and the first one is made with the head of the best level of the
/// other side, at that level's price, which is at least as good as the price
/// of the order that could have matched.
pub proof fn law_price_time_priority(engine: EngineView, order: OrderView, p: u64, i: int)
    requires
        engine.wf(),
        order.quantity >= 1,
        engine.book.ladder(order.side.opposite()).contains_key(p),
        0 <= i < engine.book.ladder(order.side.opposite())[p].len(),
        crosses(order.side, order.price, p),
    ensures
        ({
            let makers = order.side.opposite();
            let trades = engine.trades(order);
            let best = engine.book.best(makers);
            &&& best is Some
            &&& match makers {
                Side::Buy => best.unwrap() >= p,
                Side::Sell => best.unwrap() <= p,
            }
            &&& trades.len() > 0
            &&& trades[0].price == best.unwrap()
            &&& maker_of(trades[0], order.side) == engine.book.ladder(makers)[best.unwrap()][0].id
        }),
{
    let makers = order.side.opposite();
    lemma_best_exists(engine.book.ladder(makers), makers);
    let best = engine.book.best(makers).unwrap();
    assert(is_best(engine.book.ladder(makers), makers, best));
    lemma_best_order_positive(engine.book, makers);
    assert(engine.book.ladder(makers)[best][0].price == best);
}

/// Price-time priority: the trades of one submission are made with the
/// resting orders of the other side in the order of their priority, best
/// price first and at one price the oldest first, one trade with each, at
/// the resting order's price, and none is passed over.
pub proof fn law_trades_by_priority(engine: EngineView, order: OrderView)
    requires
        engine.wf(),
    ensures
        ({
            let trades = engine.trades(order);
            let makers = by_priority(
                engine.book.ladder(order.side.opposite()),
                order.side.opposite(),
            );
            &&& trades.len() <= makers.len()
            &&& forall|k: int|
                0 <= k < trades.len() ==> maker_of(#[trigger] trades[k], order.side)
                    == makers[k].id && trades[k].price == makers[k].price
        }),
{
    lemma_match_priority(engine.book, order, engine.market, engine.sequence as nat);
}

/// Cancelling a resting order takes what is left of it, and nothing else,
/// off its side of the book, and leaves the other side as it is.
pub proof fn law_cancel_takes_the_residual(engine: EngineView, id: u128)
    requires
        engine.wf(),
        engine.book.contains(id),
    ensures
        ({
            let gone = engine.book.order(id);
            let after = engine.cancel(id).book;
            &&& ladder_total(after.ladder(gone.side)) + gone.quantity == ladder_total(
                engine.book.ladder(gone.side),
            )
            &&& after.ladder(gone.side.opposite()) == engine.book.ladder(gone.side.opposite())
        }),
{
    assert(engine.book.rests(id));
    let (price, side) = engine.book.index[id];
    let q = engine.book.ladder(side)[price.0];
    let at = crate::engine::ladder::queue_position(q, id);
    assert(q[at].side == side);
    crate::engine::ladder::lemma_ladder_remove_total(engine.book.ladder(side), price.0, at);
}

/// What a submission leaves in the book. Of the resting orders of the other
/// side, those traded with are the first by priority; each but the last is
/// filled whole and leaves book and index, the last loses what its trade
/// moved, and the others stay as they are, in their order. The incoming
/// order's own side stays as it is, but that the incoming order comes to
/// rest at the tail of the queue at its price if and only if something is
/// left of it, with what is left. No resting order gains quantity.
pub proof fn law_submit_leaves(engine: EngineView, order: OrderView)
    requires
        engine.wf(),
        order.quantity >= 1,
        !engine.book.contains(order.id),
    ensures
        ({
            let side = order.side.opposite();
            let m = engine.matched(order);
            let after = engine.submit(order).book;
            let makers = by_priority(engine.book.ladder(side), side);
            let n = m.trades.len() as int;
            let own = engine.book.ladder(order.side);
            &&& n <= makers.len()
            &&& forall|k: int|
                0 <= k < n - 1 ==> (#[trigger] m.trades[k]).quantity == makers[k].quantity
            &&& n > 0 ==> 1 <= m.trades[n - 1].quantity <= makers[n - 1].quantity
            &&& by_priority(after.ladder(side), side) == makers_left(makers, m.trades)
            &&& forall|k: int|
                0 <= k < n && (#[trigger] m.trades[k]).quantity == makers[k].quantity
                    ==> !after.index.contains_key(makers[k].id)
            &&& forall|id: u128|
                id != order.id && #[trigger] after.index.contains_key(id)
                    ==> engine.book.index.contains_key(id)
            &&& forall|id: u128|
                engine.book.index.contains_key(id) && !(#[trigger] after.index.contains_key(id))
                    ==> exists|k: int|
                    0 <= k < n && (#[trigger] makers[k]).id == id && m.trades[k].quantity
                        == makers[k].quantity
            &&& after.index.contains_key(order.id) <==> m.residual > 0
            &&& m.residual == 0 ==> after.ladder(order.side) == own
            &&& m.residual > 0 ==> after.ladder(order.side) == crate::engine::ladder::ladder_push(
                own,
                order.with_quantity(m.residual),
            ) && after.ladder(order.side)[order.price].last() == order.with_quantity(m.residual)
        }),
{
    lemma_match_leaves(engine.book, order, engine.market, engine.sequence as nat);
    lemma_match_invariants(engine.book, order, engine.market, engine.sequence as nat);
    let m = engine.matched(order);
    let side = order.side.opposite();
    let after = engine.submit(order).book;
    assert(after.ladder(side) == m.book.ladder(side));
    let makers = by_priority(engine.book.ladder(side), side);
    let n = m.trades.len() as int;
    assert forall|k: int|
        0 <= k < n && (#[trigger] m.trades[k]).quantity
            == makers[k].quantity implies !after.index.contains_key(makers[k].id) by {
        assert(!m.book.index.contains_key(makers[k].id));
        lemma_match_priority(engine.book, order, engine.market, engine.sequence as nat);
        law_trades_name_the_taker(engine.book, order, engine.market, engine.sequence as nat);
        lemma_by_priority_are_resting(engine.book.ladder(side), side, k);
        assert(engine.book.index.contains_key(makers[k].id));
    }
}

/// Cancelling takes one order out and leaves every other where it is: the
/// queue that held the order holds the others in the order they had, the
/// level goes if the order was the only one there, every other level and
/// the other side stay as they are, and the index loses that id only.
pub proof fn law_cancel_takes_one_order_out(engine: EngineView, id: u128)
    requires
        engine.wf(),
        engine.book.contains(id),
    ensures
        ({
            let (price, side) = engine.book.index[id];
            let before = engine.book.ladder(side);
            let queue = before[price.0];
            let at = crate::engine::ladder::queue_position(queue, id);
            let after = engine.cancel(id).book;
            &&& before.contains_key(price.0)
            &&& 0 <= at < queue.len()
            &&& queue[at].id == id
            &&& after.index == engine.book.index.remove(id)
            &&& after.ladder(side.opposite()) == engine.book.ladder(side.opposite())
            &&& forall|p: u64|
                p != price.0 ==> (#[trigger] after.ladder(side).contains_key(p)
                    <==> before.contains_key(p))
            &&& forall|p: u64|
                p != price.0 && before.contains_key(p) ==> #[trigger] after.ladder(side)[p]
                    == before[p]
            &&& after.ladder(side).contains_key(price.0) <==> queue.len() > 1
            &&& queue.len() > 1 ==> after.ladder(side)[price.0] == queue.remove(at)
        }),
{
    assert(engine.book.rests(id));
}

/// A replacing order that rests goes to the tail of the queue at its side
/// and price, whether or not an order with its id rested before; one that is
/// filled whole does not rest.
pub proof fn law_replace_rests_at_tail(engine: EngineView, order: OrderView)
    requires
        engine.wf(),
        order.quantity >= 1,
    ensures
        ({
            let left = engine.cancel(order.id).matched(order).residual;
            let after = engine.replace(order).book;
            &&& left > 0 ==> after.ladder(order.side).contains_key(order.price) && after.ladder(
                order.side,
            )[order.price].last() == order.with_quantity(left) && after.contains(order.id)
            &&& left == 0 ==> !after.contains(order.id)
        }),
{
    law_cancel_keeps_invariants(engine, order.id);
    let cancelled = engine.cancel(order.id);
    lemma_match_invariants(cancelled.book, order, cancelled.market, cancelled.sequence as nat);
}

} // verus!
