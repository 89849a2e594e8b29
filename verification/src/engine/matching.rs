//! Price-time priority matching for one market.

use vstd::prelude::*;
use crate::engine::orderbook::lemma_add_non_crossing;
use crate::engine::orderbook::lemma_best_order_positive;
use crate::engine::orderbook::lemma_best_rests_clear;
use crate::engine::orderbook::lemma_fill_non_crossing;
use crate::engine::orderbook::lemma_no_best_rests_clear;
use crate::engine::orderbook::lemma_remove_non_crossing;
use crate::engine::orderbook::rests_clear;
use crate::engine::orderbook::BookView;
use crate::engine::orderbook::OrderBook;
use crate::models::order::Order;
use crate::models::order::OrderId;
use crate::models::order::OrderView;
use crate::models::side::crosses;
use crate::models::side::Side;
use crate::models::trade::trade_views;
use crate::models::trade::Trade;
use crate::models::trade::TradeView;

verus! {

/// The trade between the incoming order `taker` and the resting order
/// `maker`, for `quantity` units at the maker's price.
pub open spec fn trade_between(
    taker: OrderView,
    maker: OrderView,
    quantity: u64,
    market: Seq<char>,
    sequence: nat,
) -> TradeView {
    TradeView {
        market,
        buy_order: match taker.side {
            Side::Buy => taker.id,
            Side::Sell => maker.id,
        },
        sell_order: match taker.side {
            Side::Buy => maker.id,
            Side::Sell => taker.id,
        },
        price: maker.price,
        quantity,
        sequence,
    }
}

/// What matching an incoming order against a book comes to.
pub struct MatchOutcome {
    /// The trades, in the order they were made.
    pub trades: Seq<TradeView>,
    /// The book after the fills, before anything of the incoming order rests.
    pub book: BookView,
    /// What is left of the incoming order.
    pub residual: u64,
}

/// Matching `taker` against `book` by price-time priority. While something
/// of the taker is left and the best opposite level is within its limit, the
/// oldest order of that level is filled, at that level's price, for as much
/// as both have. `sequence` numbers the last trade made before.
pub open spec fn run_match(
    book: BookView,
    taker: OrderView,
    market: Seq<char>,
    sequence: nat,
) -> MatchOutcome
    decreases taker.quantity,
{
    let makers = taker.side.opposite();
    let stop = MatchOutcome { trades: Seq::empty(), book, residual: taker.quantity };
    match book.best(makers) {
        Some(p) if taker.quantity > 0 && crosses(taker.side, taker.price, p) => {
            let maker = book.best_order(makers);
            let quantity = if taker.quantity < maker.quantity {
                taker.quantity
            } else {
                maker.quantity
            };
            if quantity == 0 {
                stop
            } else {
                let rest = run_match(
                    book.fill(makers, quantity),
                    taker.with_quantity((taker.quantity - quantity) as u64),
                    market,
                    sequence + 1,
                );
                MatchOutcome {
                    trades: seq![trade_between(taker, maker, quantity, market, sequence + 1)]
                        + rest.trades,
                    ..rest
                }
            }
        },
        _ => stop,
    }
}

/// The mathematical value of a [`MatchingEngine`].
pub struct EngineView {
    /// The market the engine serves.
    pub market: Seq<char>,
    /// Its resting orders.
    pub book: BookView,
    /// The sequence number of the last trade made; 0 before the first.
    pub sequence: u64,
}

impl EngineView {
    /// The engine of `market` before any order.
    pub open spec fn fresh(market: Seq<char>) -> EngineView {
        EngineView { market, book: BookView::empty(), sequence: 0 }
    }

    /// The book is well formed, and no bid is priced at or above an ask.
    pub open spec fn wf(self) -> bool {
        self.book.wf() && self.book.non_crossing()
    }

    /// Matching `order` against the resting orders.
    pub open spec fn matched(self, order: OrderView) -> MatchOutcome {
        run_match(self.book, order, self.market, self.sequence as nat)
    }

    /// Whether `order` may be submitted: it has a quantity, its id does not
    /// rest in the book, and the trade sequence has room for its trades.
    pub open spec fn accepts(self, order: OrderView) -> bool {
        &&& order.quantity >= 1
        &&& !self.book.contains(order.id)
        &&& self.sequence + self.matched(order).trades.len() <= u64::MAX
    }

    /// The trades that submitting `order` makes.
    pub open spec fn trades(self, order: OrderView) -> Seq<TradeView> {
        self.matched(order).trades
    }

    /// The engine after `order` is submitted: matched, and what is left of
    /// it rested.
    pub open spec fn submit(self, order: OrderView) -> EngineView {
        let m = self.matched(order);
        EngineView {
            market: self.market,
            book: if m.residual > 0 {
                m.book.add(order.with_quantity(m.residual))
            } else {
                m.book
            },
            sequence: (self.sequence + m.trades.len()) as u64,
        }
    }

    /// The engine after the order `id` is cancelled.
    pub open spec fn cancel(self, id: u128) -> EngineView {
        EngineView { book: self.book.remove(id), ..self }
    }

    /// The engine after `order` replaces the resting order with its id.
    pub open spec fn replace(self, order: OrderView) -> EngineView {
        self.cancel(order.id).submit(order)
    }
}

/// What became of a request to cancel an order.
#[derive(Clone, Copy, Debug, PartialEq, Eq, Structural)]
pub enum CancelOutcome {
    /// The order rested in the book and was removed.
    Cancelled,
    /// No order with that id rests in the book.
    NotFound,
}

/// The matching engine of one market: its book and its trade sequence.
pub struct MatchingEngine {
    market: String,
    orderbook: OrderBook,
    sequence: u64,
}

impl View for MatchingEngine {
    type V = EngineView;

    closed spec fn view(&self) -> EngineView {
        EngineView { market: self.market@, book: self.orderbook@, sequence: self.sequence }
    }
}

/// The number of trades that `order` makes against `book`, found by making
/// the fills on `book`, which the caller gives up for it.
fn count_trades(book: OrderBook, order: &Order, market: Ghost<Seq<char>>, sequence: Ghost<nat>) -> (n:
    usize)
    requires
        book.wf(),
    ensures
        n == run_match(book@, order@, market@, sequence@).trades.len(),
{
    let mut book = book;
    let ghost total = run_match(book@, order@, market@, sequence@).trades.len();
    let ghost taker = order@;
    let makers = order.side.opposite();
    let mut left = order.quantity;
    let mut n: usize = 0;
    let resting = book.len();
    proof {
        crate::engine::laws::lemma_match_count(book@, taker, market@, sequence@);
    }
    while left > 0
        invariant
            book.wf(),
            taker == order@,
            makers == taker.side.opposite(),
            total == n + run_match(
                book@,
                taker.with_quantity(left),
                market@,
                sequence@ + n as nat,
            ).trades.len(),
            total <= resting,
        ensures
            total == n,
        decreases left,
    {
        let best = match book.best_price(makers) {
            Some(p) => p,
            None => {
                break ;
            },
        };
        if !crosses(order.side, order.price.0, best.0) {
            break ;
        }
        proof {
            lemma_best_order_positive(book@, makers);
        }
        let fill = book.fill_best(makers, left);
        left = left - fill.quantity;
        n = n + 1;
    }
    n
}

impl MatchingEngine {
    /// Whether the engine is well formed, see [`EngineView::wf`].
    pub open spec fn wf(&self) -> bool {
        self@.wf()
    }

    /// An engine for `market`, with an empty book and no trade made.
    pub fn new(market: &str) -> (engine: Self)
        ensures
            engine@ == EngineView::fresh(market@),
            engine.wf(),
    {
        Self { market: market.to_owned(), orderbook: OrderBook::new(), sequence: 0 }
    }

    /// An engine for `market` that holds the orders of `orderbook` and has made
    /// `sequence` trades.
    pub fn from_parts(market: String, orderbook: OrderBook, sequence: u64) -> (engine: Self)
        requires
            orderbook.wf(),
            orderbook@.non_crossing(),
        ensures
            engine@ == (EngineView { market: market@, book: orderbook@, sequence }),
            engine.wf(),
    {
        Self { market, orderbook, sequence }
    }

    /// The market this engine serves.
    pub fn market(&self) -> (r: &String)
        ensures
            r@ == self@.market,
    {
        &self.market
    }

    /// The sequence number of the last trade made; 0 before the first.
    pub fn sequence(&self) -> (r: u64)
        ensures
            r == self@.sequence,
    {
        self.sequence
    }

    /// The resting orders.
    pub fn orderbook(&self) -> (r: &OrderBook)
        ensures
            r@ == self@.book,
    {
        &self.orderbook
    }

    /// Whether `order` can be submitted: it has a quantity, no order with its
    /// id rests, and the trade sequence has room for the trades it makes.
    pub fn admits(&self, order: &Order) -> (r: bool)
        requires
            self.wf(),
        ensures
            r == self@.accepts(order@),
    {
        if order.quantity == 0 || self.orderbook.contains(order.id) {
            return false;
        }
        if self.sequence <= u64::MAX - (self.orderbook.len() as u64) {
            proof {
                crate::engine::laws::lemma_match_count(
                    self@.book,
                    order@,
                    self@.market,
                    self@.sequence as nat,
                );
            }
            return true;
        }
        let trades = count_trades(
            self.orderbook.duplicate(),
            order,
            Ghost(self@.market),
            Ghost(self@.sequence as nat),
        );
        trades as u64 <= u64::MAX - self.sequence
    }

    /// Whether `order` can replace the resting order with its id, or be
    /// submitted where none rests: it has a quantity, and the trade sequence
    /// has room for the trades it makes once that order is out of the book.
    pub fn admits_replacement(&self, order: &Order) -> (r: bool)
        requires
            self.wf(),
        ensures
            r == self@.cancel(order.id.0).accepts(order@),
    {
        if order.quantity == 0 {
            return false;
        }
        proof {
            crate::engine::orderbook::lemma_remove_wf(self@.book, order.id.0);
            lemma_remove_non_crossing(self@.book, order.id.0);
        }
        if self.sequence <= u64::MAX - (self.orderbook.len() as u64) {
            proof {
                let cancelled = self@.cancel(order.id.0);
                crate::engine::laws::lemma_match_count(
                    cancelled.book,
                    order@,
                    cancelled.market,
                    cancelled.sequence as nat,
                );
                if self@.book.contains(order.id.0) {
                    assert(self@.book.rests(order.id.0));
                }
                assert(cancelled.book.index.len() <= self@.book.index.len());
            }
            return true;
        }
        let mut book = self.orderbook.duplicate();
        book.remove_by_id(order.id);
        let trades = count_trades(book, order, Ghost(self@.market), Ghost(self@.sequence as nat));
        trades as u64 <= u64::MAX - self.sequence
    }

    /// Matches `order` against the book by price-time priority and rests
    /// what is left of it. Returns the trades in the order they were made.
    pub fn submit(&mut self, order: Order) -> (trades: Vec<Trade>)
        requires
            old(self).wf(),
            old(self)@.accepts(order@),
        ensures
            final(self).wf(),
            final(self)@ == old(self)@.submit(order@),
            trade_views(trades@) == old(self)@.trades(order@),
            forall|i: int|
                0 <= i < trades@.len() ==> (#[trigger] trades@[i]).sequence == old(self)@.sequence
                    + 1 + i,
            final(self)@.sequence == old(self)@.sequence + trades@.len(),
    {
        let mut order = order;
        let mut trades: Vec<Trade> = Vec::new();
        let makers = order.side.opposite();
        let ghost incoming = order@;
        let ghost whole = old(self)@.matched(incoming);
        assert(trade_views(trades@) =~= Seq::empty());
        while order.quantity > 0
            invariant
                self.wf(),
                self@.market == old(self)@.market,
                order@ == incoming.with_quantity(order.quantity),
                makers == incoming.side.opposite(),
                !self@.book.contains(incoming.id),
                whole.trades == trade_views(trades@) + self@.matched(order@).trades,
                whole.book == self@.matched(order@).book,
                whole.residual == self@.matched(order@).residual,
                self@.sequence == old(self)@.sequence + trades@.len(),
                self@.sequence + self@.matched(order@).trades.len() <= u64::MAX,
            ensures
                self@.matched(order@).trades.len() == 0,
                self@.matched(order@).book == self@.book,
                order.quantity > 0 ==> rests_clear(self@.book, order@),
            decreases order.quantity,
        {
            let best = match self.orderbook.best_price(makers) {
                Some(p) => p,
                None => {
                    proof {
                        lemma_no_best_rests_clear(self@.book, order@);
                    }
                    break ;
                },
            };
            if !crosses(order.side, order.price.0, best.0) {
                proof {
                    lemma_best_rests_clear(self@.book, order@);
                }
                break ;
            }
            let ghost before = self@;
            let ghost taker = order@;
            let ghost maker = before.book.best_order(makers);
            proof {
                lemma_best_order_positive(before.book, makers);
            }
            let fill = self.orderbook.fill_best(makers, order.quantity);
            order.quantity = order.quantity - fill.quantity;
            self.sequence = self.sequence + 1;
            let (buy_order, sell_order) = match order.side {
                Side::Buy => (order.id, fill.maker),
                Side::Sell => (fill.maker, order.id),
            };
            let trade = Trade {
                market: self.market.clone(),
                buy_order,
                sell_order,
                price: fill.price,
                quantity: fill.quantity,
                sequence: self.sequence,
            };
            proof {
                lemma_fill_non_crossing(before.book, makers, fill.quantity);
                let made = trade_between(
                    taker,
                    maker,
                    fill.quantity,
                    before.market,
                    before.sequence as nat + 1,
                );
                assert(trade@ == made);
                let rest = self@.matched(order@);
                assert(before.matched(taker).trades == seq![made] + rest.trades);
                assert(trade_views(trades@.push(trade)) =~= trade_views(trades@).push(made));
                assert(trade_views(trades@).push(made) + rest.trades =~= trade_views(trades@) + (
                seq![made] + rest.trades));
            }
            trades.push(trade);
        }
        self.orderbook.cleanup();
        if order.quantity > 0 {
            proof {
                lemma_add_non_crossing(self@.book, order@);
            }
            self.orderbook.add(order);
        }
        proof {
            crate::engine::laws::lemma_match_sequence(
                old(self)@.book,
                incoming,
                old(self)@.market,
                old(self)@.sequence as nat,
            );
            assert forall|i: int| 0 <= i < trades@.len() implies (#[trigger] trades@[i]).sequence
                == old(self)@.sequence + 1 + i by {
                assert(trade_views(trades@)[i] == trades@[i]@);
            }
        }
        trades
    }

    /// Removes the order `id` from the book, if it rests there.
    pub fn cancel(&mut self, order_id: OrderId) -> (r: CancelOutcome)
        requires
            old(self).wf(),
        ensures
            final(self).wf(),
            final(self)@ == old(self)@.cancel(order_id.0),
            r == if old(self)@.book.contains(order_id.0) {
                CancelOutcome::Cancelled
            } else {
                CancelOutcome::NotFound
            },
    {
        proof {
            lemma_remove_non_crossing(self@.book, order_id.0);
        }
        match self.orderbook.remove_by_id(order_id) {
            Some(_) => CancelOutcome::Cancelled,
            None => CancelOutcome::NotFound,
        }
    }

    /// Cancels the resting order with the id of `order`, if there is one, and
    /// submits `order` in its place, which so loses the time priority of the
    /// order it replaces.
    pub fn replace(&mut self, order: Order) -> (trades: Vec<Trade>)
        requires
            old(self).wf(),
            old(self)@.cancel(order.id.0).accepts(order@),
        ensures
            final(self).wf(),
            final(self)@ == old(self)@.replace(order@),
            trade_views(trades@) == old(self)@.cancel(order.id.0).trades(order@),
    {
        self.cancel(order.id);
        self.submit(order)
    }
}

} // verus!
