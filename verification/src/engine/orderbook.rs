//! The order book of one market: two price ladders of time-ordered queues,
//! and an index from order id to the level the order rests at.

use vstd::prelude::*;
use vstd::std_specs::btree::increasing_seq;
use vstd::std_specs::btree::spec_btree_map_iter;
use vstd::std_specs::cmp::OrdSpec;
use vstd::std_specs::iter::IteratorSpec;
use std::collections::BTreeMap;
use std::collections::HashMap;
use std::collections::VecDeque;
use crate::engine::ladder::best_price;
use crate::engine::ladder::is_best;
use crate::engine::ladder::ladder_fill;
use crate::engine::ladder::lemma_best_exists;
use crate::engine::ladder::ladder_ids_distinct;
use crate::engine::ladder::ladder_indexed;
use crate::engine::ladder::ladder_keyed;
use crate::engine::ladder::ladder_live;
use crate::engine::ladder::ladder_no_empty_levels;
use crate::engine::ladder::ladder_orders;
use crate::engine::ladder::lemma_ladder_orders_by_price;
use crate::engine::ladder::lemma_ladder_orders_tail;
use crate::engine::ladder::levels_concat;
use crate::engine::ladder::ladder_positive_residuals;
use crate::engine::ladder::ladder_push;
use crate::engine::ladder::ladder_remove;
use crate::engine::ladder::queue_has;
use crate::engine::ladder::queue_position;
use crate::engine::ladder::Ladder;
use crate::models::order::order_views;
use crate::models::order::Order;
use crate::models::order::OrderId;
use crate::models::order::OrderView;
use crate::models::price::Price;
use crate::models::side::crosses;
use crate::models::side::Side;

verus! {

broadcast use {
    vstd::std_specs::btree::group_btree_axioms,
    vstd::std_specs::hash::group_hash_axioms,
    vstd::laws_cmp::group_laws_cmp,
};

/// The mathematical value of an [`OrderBook`].
pub struct BookView {
    /// The buy orders by price.
    pub bids: Ladder,
    /// The sell orders by price.
    pub asks: Ladder,
    /// For the id of each resting order, the price and side it rests at.
    pub index: Map<u128, (Price, Side)>,
}

impl BookView {
    /// The book without orders.
    pub open spec fn empty() -> BookView {
        BookView { bids: Map::empty(), asks: Map::empty(), index: Map::empty() }
    }

    /// The ladder of one side.
    pub open spec fn ladder(self, side: Side) -> Ladder {
        match side {
            Side::Buy => self.bids,
            Side::Sell => self.asks,
        }
    }

    /// This book with the ladder of `side` replaced.
    pub open spec fn with_ladder(self, side: Side, l: Ladder) -> BookView {
        match side {
            Side::Buy => BookView { bids: l, ..self },
            Side::Sell => BookView { asks: l, ..self },
        }
    }

    /// The best price of one side, if any order rests there.
    pub open spec fn best(self, side: Side) -> Option<u64> {
        best_price(self.ladder(side), side)
    }

    /// Whether an order with this id rests in the book.
    pub open spec fn contains(self, id: u128) -> bool {
        self.index.contains_key(id)
    }

    /// The level that the index names for `id` holds an order with that id.
    pub open spec fn rests(self, id: u128) -> bool {
        let (price, side) = self.index[id];
        self.ladder(side).contains_key(price.0) && queue_has(self.ladder(side)[price.0], id)
    }

    /// The resting order with this id.
    pub open spec fn order(self, id: u128) -> OrderView {
        let (price, side) = self.index[id];
        let q = self.ladder(side)[price.0];
        q[queue_position(q, id)]
    }

    /// No price level is empty.
    pub open spec fn no_empty_levels(self) -> bool {
        ladder_no_empty_levels(self.bids) && ladder_no_empty_levels(self.asks)
    }

    /// Every resting order has a residual quantity of at least one.
    pub open spec fn positive_residuals(self) -> bool {
        ladder_positive_residuals(self.bids) && ladder_positive_residuals(self.asks)
    }

    /// Every resting order stands on its own side at its own price.
    pub open spec fn levels_keyed(self) -> bool {
        ladder_keyed(self.bids, Side::Buy) && ladder_keyed(self.asks, Side::Sell)
    }

    /// The index and the queues hold the same orders: each resting order is
    /// indexed at the level it stands in, each indexed id rests at the level
    /// the index names, and no id rests twice.
    pub open spec fn index_consistent(self) -> bool {
        &&& ladder_indexed(self.bids, Side::Buy, self.index)
        &&& ladder_indexed(self.asks, Side::Sell, self.index)
        &&& ladder_ids_distinct(self.bids)
        &&& ladder_ids_distinct(self.asks)
        &&& forall|id: u128| #[trigger] self.index.contains_key(id) ==> self.rests(id)
    }

    /// Every bid is priced below every ask.
    pub open spec fn non_crossing(self) -> bool {
        forall|b: u64, a: u64| #[trigger]
            self.bids.contains_key(b) && #[trigger] self.asks.contains_key(a) ==> b < a
    }

    /// The book holds finitely many levels and orders.
    pub open spec fn finite(self) -> bool {
        self.bids.dom().finite() && self.asks.dom().finite() && self.index.dom().finite()
    }

    /// The book is well formed as a container. That bids and asks do not
    /// cross is the matching engine's concern, see [`Self::non_crossing`].
    pub open spec fn wf(self) -> bool {
        &&& self.finite()
        &&& self.no_empty_levels()
        &&& self.positive_residuals()
        &&& self.levels_keyed()
        &&& self.index_consistent()
    }

    /// The book with `order` at the tail of the queue at its side and price.
    pub open spec fn add(self, order: OrderView) -> BookView {
        BookView {
            index: self.index.insert(order.id, (Price(order.price), order.side)),
            ..self.with_ladder(order.side, ladder_push(self.ladder(order.side), order))
        }
    }

    /// The head of the best level of `side`.
    pub open spec fn best_order(self, side: Side) -> OrderView {
        self.ladder(side)[self.best(side).unwrap()][0]
    }

    /// The book after `qty` units are filled against the head of the best
    /// level of `side`.
    pub open spec fn fill(self, side: Side, qty: u64) -> BookView {
        let p = self.best(side).unwrap();
        let head = self.best_order(side);
        BookView {
            index: if qty >= head.quantity {
                self.index.remove(head.id)
            } else {
                self.index
            },
            ..self.with_ladder(side, ladder_fill(self.ladder(side), p, qty))
        }
    }

    /// The ids of the orders in the queues.
    pub open spec fn queued_ids(self) -> Set<u128> {
        Set::new(
            |id: u128|
                exists|side: Side, p: u64, i: int|
                    self.ladder(side).contains_key(p) && 0 <= i < self.ladder(side)[p].len() && (
                    #[trigger] self.ladder(side)[p][i]).id == id,
        )
    }

    /// The book without its empty levels.
    pub open spec fn without_empty_levels(self) -> BookView {
        BookView {
            bids: ladder_live(self.bids),
            asks: ladder_live(self.asks),
            index: self.index,
        }
    }

    /// The resting orders: the bids, then the asks, each side level by level
    /// from the lowest price up, each level oldest first.
    pub open spec fn orders(self) -> Seq<OrderView> {
        ladder_orders(self.bids) + ladder_orders(self.asks)
    }

    /// Whether `order` may come to rest here: it has a quantity, its id is
    /// new to the book, and no level of the other side is within its limit.
    pub open spec fn takes(self, order: OrderView) -> bool {
        order.quantity >= 1 && !self.contains(order.id) && rests_clear(self, order)
    }

    /// The book after `orders` have come to rest, one after the other.
    pub open spec fn rest_all(self, orders: Seq<OrderView>) -> BookView
        decreases orders.len(),
    {
        if orders.len() == 0 {
            self
        } else {
            self.rest_all(orders.drop_last()).add(orders.last())
        }
    }

    /// Whether `orders` may come to rest here, one after the other.
    pub open spec fn takes_all(self, orders: Seq<OrderView>) -> bool
        decreases orders.len(),
    {
        if orders.len() == 0 {
            true
        } else {
            self.takes_all(orders.drop_last()) && self.rest_all(orders.drop_last()).takes(
                orders.last(),
            )
        }
    }

    /// The book without the order `id`; the same book if no such order rests.
    pub open spec fn remove(self, id: u128) -> BookView {
        if self.index.contains_key(id) {
            let (price, side) = self.index[id];
            let l = self.ladder(side);
            BookView {
                index: self.index.remove(id),
                ..self.with_ladder(side, ladder_remove(l, price.0, queue_position(l[price.0], id)))
            }
        } else {
            self
        }
    }
}

/// The values of a queue's orders, oldest first.
pub open spec fn queue_view(q: VecDeque<Order>) -> Seq<OrderView> {
    q@.map_values(|o: Order| o@)
}

/// The ladder that a map of queues stands for.
pub open spec fn ladder_view(m: Map<u64, VecDeque<Order>>) -> Ladder {
    Map::new(|p: u64| m.contains_key(p), |p: u64| queue_view(m[p]))
}

/// The order book of one market.
pub struct OrderBook {
    bids: BTreeMap<u64, VecDeque<Order>>,
    asks: BTreeMap<u64, VecDeque<Order>>,
    index: HashMap<u128, (Price, Side)>,
}

impl View for OrderBook {
    type V = BookView;

    closed spec fn view(&self) -> BookView {
        BookView {
            bids: ladder_view(self.bids@),
            asks: ladder_view(self.asks@),
            index: self.index@,
        }
    }
}

/// `BTreeMap::first_key_value`, reduced to the key: the least key of the map,
/// or nothing where the map is empty.
#[verifier::external_body]
fn least_key(m: &BTreeMap<u64, VecDeque<Order>>) -> (r: Option<u64>)
    ensures
        match r {
            Some(k) => m@.contains_key(k) && forall|j: u64| #[trigger] m@.contains_key(j) ==> k <= j,
            None => m@ == Map::<u64, VecDeque<Order>>::empty(),
        },
{
    match m.first_key_value() {
        Some(level) => Some(*level.0),
        None => None,
    }
}

/// `BTreeMap::last_key_value`, reduced to the key: the greatest key of the
/// map, or nothing where the map is empty.
#[verifier::external_body]
fn greatest_key(m: &BTreeMap<u64, VecDeque<Order>>) -> (r: Option<u64>)
    ensures
        match r {
            Some(k) => m@.contains_key(k) && forall|j: u64| #[trigger] m@.contains_key(j) ==> j <= k,
            None => m@ == Map::<u64, VecDeque<Order>>::empty(),
        },
{
    match m.last_key_value() {
        Some(level) => Some(*level.0),
        None => None,
    }
}

/// The best price of a ladder held as a map of queues.
fn best_key(m: &BTreeMap<u64, VecDeque<Order>>, side: Side) -> (r: Option<u64>)
    ensures
        r == best_price(ladder_view(m@), side),
{
    let r = match side {
        Side::Buy => greatest_key(m),
        Side::Sell => least_key(m),
    };
    proof {
        let l = ladder_view(m@);
        match r {
            Some(k) => {
                assert(is_best(l, side, k));
                let c = choose|p: u64| is_best(l, side, p);
                assert(is_best(l, side, c));
                assert(l.contains_key(k) && l.contains_key(c));
            },
            None => {
                assert forall|p: u64| !is_best(l, side, p) by {
                    assert(!m@.contains_key(p));
                }
            },
        }
    }
    r
}

/// Appends `order` to the queue at its price, opening the level if need be.
fn push_order(m: &mut BTreeMap<u64, VecDeque<Order>>, order: Order)
    ensures
        ladder_view(final(m)@) == ladder_push(ladder_view(old(m)@), order@),
{
    let price = order.price.0;
    let ghost before = ladder_view(m@);
    let ghost o = order@;
    let mut queue = match m.remove(&price) {
        Some(q) => q,
        None => VecDeque::new(),
    };
    let ghost held = queue_view(queue);
    queue.push_back(order);
    assert(queue_view(queue) =~= held.push(o));
    assert(!before.contains_key(price) ==> held.push(o) =~= seq![o]);
    m.insert(price, queue);
    assert(ladder_view(m@) =~= ladder_push(before, o));
}

/// What one fill took from the head of a level.
pub struct Fill {
    /// The resting order that was filled.
    pub maker: OrderId,
    /// The price of its level.
    pub price: Price,
    /// The quantity that traded.
    pub quantity: u64,
}

/// Fills at most `want` units against the head of the level at `price`.
/// Returns the head's id, the quantity filled, and whether the head left.
fn fill_head(m: &mut BTreeMap<u64, VecDeque<Order>>, price: u64, want: u64) -> (r: (
    OrderId,
    u64,
    bool,
))
    requires
        old(m)@.contains_key(price),
        old(m)@[price]@.len() > 0,
    ensures
        r.0.0 == ladder_view(old(m)@)[price][0].id,
        r.1 == vstd::math::min(want as int, ladder_view(old(m)@)[price][0].quantity as int),
        r.2 == (r.1 >= ladder_view(old(m)@)[price][0].quantity),
        ladder_view(final(m)@) == ladder_fill(ladder_view(old(m)@), price, r.1),
{
    let ghost before = ladder_view(m@);
    let mut queue = m.remove(&price).unwrap();
    let ghost held = queue_view(queue);
    let mut head = queue.pop_front().unwrap();
    let ghost first = head@;
    assert(queue_view(queue) =~= held.remove(0));
    let id = head.id;
    let qty = if want < head.quantity {
        want
    } else {
        head.quantity
    };
    let left = qty >= head.quantity;
    if !left {
        head.quantity = head.quantity - qty;
        queue.push_front(head);
        assert(queue_view(queue) =~= held.update(
            0,
            first.with_quantity((first.quantity - qty) as u64),
        ));
        m.insert(price, queue);
    } else if queue.len() > 0 {
        m.insert(price, queue);
    }
    assert(ladder_view(m@) =~= ladder_fill(before, price, qty));
    (id, qty, left)
}

/// Takes the order `id` out of the level at `price`.
fn take_order(m: &mut BTreeMap<u64, VecDeque<Order>>, price: u64, id: u128) -> (r: Order)
    requires
        old(m)@.contains_key(price),
        queue_has(ladder_view(old(m)@)[price], id),
        ladder_ids_distinct(ladder_view(old(m)@)),
    ensures
        ({
            let q = ladder_view(old(m)@)[price];
            &&& r@ == q[queue_position(q, id)]
            &&& ladder_view(final(m)@) == ladder_remove(
                ladder_view(old(m)@),
                price,
                queue_position(q, id),
            )
        }),
{
    let ghost before = ladder_view(m@);
    let ghost q = before[price];
    let ghost at = queue_position(q, id);
    assert(before.contains_key(price));
    let mut queue = m.remove(&price).unwrap();
    assert(queue_view(queue) == q);
    let mut i: usize = 0;
    while i < queue.len() && queue[i].id.0 != id
        invariant
            queue_view(queue) == q,
            0 <= i <= at < q.len(),
            q[at].id == id,
        decreases queue.len() - i,
    {
        assert(q[i as int] == queue@[i as int]@);
        i = i + 1;
    }
    assert(q[i as int] == queue@[i as int]@);
    assert(i as int == at);
    let order = queue.remove(i).unwrap();
    assert(queue_view(queue) =~= q.remove(at));
    if queue.len() > 0 {
        m.insert(price, queue);
    }
    assert(ladder_view(m@) =~= ladder_remove(before, price, at));
    order
}

/// A copy of the order `id` in the level at `price`.
fn find_order(m: &BTreeMap<u64, VecDeque<Order>>, price: u64, id: u128) -> (r: Order)
    requires
        m@.contains_key(price),
        queue_has(ladder_view(m@)[price], id),
        ladder_ids_distinct(ladder_view(m@)),
    ensures
        r@ == ladder_view(m@)[price][queue_position(ladder_view(m@)[price], id)],
{
    let ghost q = ladder_view(m@)[price];
    let ghost at = queue_position(q, id);
    assert(ladder_view(m@).contains_key(price));
    let queue = m.get(&price).unwrap();
    let mut i: usize = 0;
    while i < queue.len() && queue[i].id.0 != id
        invariant
            queue_view(*queue) == q,
            0 <= i <= at < q.len(),
            q[at].id == id,
        decreases queue.len() - i,
    {
        assert(q[i as int] == queue@[i as int]@);
        i = i + 1;
    }
    assert(q[i as int] == queue@[i as int]@);
    assert(i as int == at);
    queue[i].duplicate()
}

/// The prices of the levels of a ladder, from the lowest up.
fn level_prices(m: &BTreeMap<u64, VecDeque<Order>>) -> (r: Vec<u64>)
    ensures
        r@.to_set() == m@.dom(),
        forall|i: int, j: int| 0 <= i < j < r@.len() ==> r@[i] < r@[j],
{
    let mut prices: Vec<u64> = Vec::new();
    for level in it: m.iter()
        invariant
            it.seq() == spec_btree_map_iter(m).remaining(),
            prices@.len() == it.index(),
            forall|j: int| 0 <= j < prices@.len() ==> prices@[j] == *it.seq()[j].0,
    {
        prices.push(*level.0);
    }
    proof {
        let levels = spec_btree_map_iter(m).remaining();
        let keys = levels.map_values(|level: (&u64, &VecDeque<Order>)| *level.0);
        assert(prices@ =~= keys);
        assert(increasing_seq(keys));
        assert forall|k: u64| prices@.to_set().contains(k) <==> m@.dom().contains(k) by {
            if m@.dom().contains(k) {
                assert(m@.contains_key(k));
                assert(levels.contains((&k, &m@[k])));
                let i = choose|i: int| 0 <= i < levels.len() && levels[i] == (&k, &m@[k]);
                assert(prices@[i] == k);
            }
            if prices@.to_set().contains(k) {
                let i = choose|i: int| 0 <= i < prices@.len() && prices@[i] == k;
                assert(m@.contains_key(*levels[i].0));
            }
        }
        assert(prices@.to_set() =~= m@.dom());
        assert forall|i: int, j: int| 0 <= i < j < prices@.len() implies prices@[i] < prices@[j] by {
            assert(keys[i].cmp_spec(&keys[j]) is Less);
        }
    }
    prices
}

/// Drops the levels that hold no order.
fn drop_empty_levels(m: &mut BTreeMap<u64, VecDeque<Order>>)
    ensures
        ladder_view(final(m)@) == ladder_live(ladder_view(old(m)@)),
{
    let prices = level_prices(m);
    let mut i: usize = 0;
    while i < prices.len()
        invariant
            0 <= i <= prices@.len(),
            prices@.to_set() == old(m)@.dom(),
            forall|k: u64| #[trigger]
                m@.contains_key(k) ==> old(m)@.contains_key(k) && m@[k] == old(m)@[k],
            forall|k: u64|
                old(m)@.contains_key(k) && old(m)@[k]@.len() > 0 ==> #[trigger] m@.contains_key(k),
            forall|j: int|
                0 <= j < i && old(m)@[prices@[j]]@.len() == 0 ==> !m@.contains_key(
                    #[trigger] prices@[j],
                ),
        decreases prices@.len() - i,
    {
        let price = prices[i];
        assert(prices@.to_set().contains(price));
        let empty = match m.get(&price) {
            Some(queue) => queue.len() == 0,
            None => false,
        };
        if empty {
            m.remove(&price);
        }
        i = i + 1;
    }
    proof {
        let before = ladder_view(old(m)@);
        assert forall|k: u64| ladder_view(m@).contains_key(k) <==> ladder_live(
            before,
        ).contains_key(k) by {
            if old(m)@.contains_key(k) && old(m)@[k]@.len() == 0 {
                assert(prices@.to_set().contains(k));
                let j = choose|j: int| 0 <= j < prices@.len() && prices@[j] == k;
                assert(!m@.contains_key(prices@[j]));
            }
        }
        assert(ladder_view(m@) =~= ladder_live(before));
    }
}

/// Appends copies of the orders of a ladder to `out`, level by level from the
/// lowest price up, each level oldest first.
fn list_orders(m: &BTreeMap<u64, VecDeque<Order>>, out: &mut Vec<Order>)
    ensures
        order_views(final(out)@) == order_views(old(out)@) + ladder_orders(ladder_view(m@)),
{
    let ghost l = ladder_view(m@);
    let ghost base = order_views(out@);
    let prices = level_prices(m);
    proof {
        assert(l.dom() =~= m@.dom());
        lemma_ladder_orders_by_price(l, prices@);
        assert(prices@.take(prices@.len() as int) =~= prices@);
        assert(base + levels_concat(l, prices@.take(0)) =~= base);
    }
    let mut i: usize = 0;
    while i < prices.len()
        invariant
            0 <= i <= prices@.len(),
            l == ladder_view(m@),
            prices@.to_set() == m@.dom(),
            order_views(out@) == base + levels_concat(l, prices@.take(i as int)),
        decreases prices@.len() - i,
    {
        let price = prices[i];
        assert(prices@.to_set().contains(price));
        let queue = m.get(&price).unwrap();
        let ghost done = order_views(out@);
        let mut j: usize = 0;
        assert(done + l[price].take(0) =~= done);
        while j < queue.len()
            invariant
                0 <= j <= queue@.len(),
                queue_view(*queue) == l[price],
                order_views(out@) == done + l[price].take(j as int),
            decreases queue@.len() - j,
        {
            let order = queue[j].duplicate();
            assert(order_views(out@.push(order)) =~= order_views(out@).push(order@));
            assert(done + l[price].take(j + 1) =~= (done + l[price].take(j as int)).push(
                l[price][j as int],
            ));
            out.push(order);
            j = j + 1;
        }
        proof {
            assert(l[price].take(l[price].len() as int) =~= l[price]);
            assert(prices@.take(i + 1).drop_last() =~= prices@.take(i as int));
            assert(base + levels_concat(l, prices@.take(i as int)) + l[price] =~= base + (
            levels_concat(l, prices@.take(i as int)) + l[price]));
        }
        i = i + 1;
    }
}

impl OrderBook {
    /// Whether the book is well formed, see [`BookView::wf`].
    pub open spec fn wf(&self) -> bool {
        self@.wf()
    }

    /// A book without orders.
    pub fn new() -> (book: Self)
        ensures
            book@ == BookView::empty(),
            book.wf(),
    {
        let book = Self { bids: BTreeMap::new(), asks: BTreeMap::new(), index: HashMap::new() };
        assert(book@.bids =~= Map::empty());
        assert(book@.asks =~= Map::empty());
        book
    }

    /// Rests `order` at the tail of the queue at its side and price, and
    /// indexes it.
    pub fn add(&mut self, order: Order)
        requires
            old(self).wf(),
            order.quantity >= 1,
            !old(self)@.contains(order.id.0),
        ensures
            final(self)@ == old(self)@.add(order@),
            final(self).wf(),
    {
        let id = order.id.0;
        let place = (order.price, order.side);
        proof {
            lemma_add_wf(self@, order@);
        }
        match order.side {
            Side::Buy => push_order(&mut self.bids, order),
            Side::Sell => push_order(&mut self.asks, order),
        }
        self.index.insert(id, place);
    }

    /// The highest bid price, if any bid rests.
    pub fn best_bid_price(&self) -> (r: Option<Price>)
        ensures
            r == match self@.best(Side::Buy) {
                Some(p) => Some(Price(p)),
                None => None,
            },
    {
        match best_key(&self.bids, Side::Buy) {
            Some(p) => Some(Price(p)),
            None => None,
        }
    }

    /// The lowest ask price, if any ask rests.
    pub fn best_ask_price(&self) -> (r: Option<Price>)
        ensures
            r == match self@.best(Side::Sell) {
                Some(p) => Some(Price(p)),
                None => None,
            },
    {
        match best_key(&self.asks, Side::Sell) {
            Some(p) => Some(Price(p)),
            None => None,
        }
    }
    /// The number of resting orders.
    pub fn len(&self) -> (n: usize)
        ensures
            n == self@.index.len(),
    {
        self.index.len()
    }

    /// Whether an order with this id rests in the book.
    pub fn contains(&self, id: OrderId) -> (r: bool)
        ensures
            r == self@.contains(id.0),
    {
        self.index.contains_key(&id.0)
    }

    /// A copy of the resting order with this id, if there is one.
    pub fn get(&self, id: OrderId) -> (r: Option<Order>)
        requires
            self.wf(),
        ensures
            r is Some <==> self@.contains(id.0),
            r is Some ==> r.unwrap()@ == self@.order(id.0),
    {
        match self.index.get(&id.0) {
            None => None,
            Some(place) => {
                assert(self@.rests(id.0));
                Some(
                    match place.1 {
                        Side::Buy => find_order(&self.bids, place.0.0, id.0),
                        Side::Sell => find_order(&self.asks, place.0.0, id.0),
                    },
                )
            },
        }
    }

    /// The highest-priced bid level, if any bid rests: its price and its
    /// queue, oldest order first.
    pub fn best_bid(&self) -> (r: Option<(Price, &VecDeque<Order>)>)
        ensures
            match r {
                Some((p, q)) => self@.best(Side::Buy) == Some(p.0) && queue_view(*q)
                    == self@.bids[p.0],
                None => self@.best(Side::Buy) is None,
            },
    {
        match best_key(&self.bids, Side::Buy) {
            Some(p) => {
                assert(is_best(self@.bids, Side::Buy, p));
                Some((Price(p), self.bids.get(&p).unwrap()))
            },
            None => None,
        }
    }

    /// The lowest-priced ask level, if any ask rests: its price and its
    /// queue, oldest order first.
    pub fn best_ask(&self) -> (r: Option<(Price, &VecDeque<Order>)>)
        ensures
            match r {
                Some((p, q)) => self@.best(Side::Sell) == Some(p.0) && queue_view(*q)
                    == self@.asks[p.0],
                None => self@.best(Side::Sell) is None,
            },
    {
        match best_key(&self.asks, Side::Sell) {
            Some(p) => {
                assert(is_best(self@.asks, Side::Sell, p));
                Some((Price(p), self.asks.get(&p).unwrap()))
            },
            None => None,
        }
    }

    /// The best price of `side`, if any order rests there.
    pub fn best_price(&self, side: Side) -> (r: Option<Price>)
        ensures
            r == match self@.best(side) {
                Some(p) => Some(Price(p)),
                None => None,
            },
    {
        match side {
            Side::Buy => self.best_bid_price(),
            Side::Sell => self.best_ask_price(),
        }
    }

    /// Fills at most `want` units against the oldest order of the best level
    /// of `side`. An order that is filled whole leaves the book, and its
    /// level with it if it was the last one there.
    pub fn fill_best(&mut self, side: Side, want: u64) -> (fill: Fill)
        requires
            old(self).wf(),
            old(self)@.best(side) is Some,
        ensures
            fill.price.0 == old(self)@.best(side).unwrap(),
            fill.maker.0 == old(self)@.best_order(side).id,
            fill.quantity == vstd::math::min(
                want as int,
                old(self)@.best_order(side).quantity as int,
            ),
            final(self)@ == old(self)@.fill(side, fill.quantity),
            final(self).wf(),
    {
        let price = match self.best_price(side) {
            Some(p) => p,
            None => Price(0),
        };
        proof {
            assert(is_best(self@.ladder(side), side, price.0));
        }
        let (maker, quantity, left) = match side {
            Side::Buy => fill_head(&mut self.bids, price.0, want),
            Side::Sell => fill_head(&mut self.asks, price.0, want),
        };
        if left {
            self.index.remove(&maker.0);
        }
        proof {
            lemma_fill_wf(old(self)@, side, quantity);
        }
        Fill { maker, price, quantity }
    }

    /// Takes the order with this id out of the book, if it rests there; its
    /// level goes with it if it was the last one there.
    pub fn remove_by_id(&mut self, id: OrderId) -> (r: Option<Order>)
        requires
            old(self).wf(),
        ensures
            r is Some <==> old(self)@.contains(id.0),
            r is Some ==> r.unwrap()@ == old(self)@.order(id.0),
            final(self)@ == old(self)@.remove(id.0),
            final(self).wf(),
    {
        proof {
            lemma_remove_wf(self@, id.0);
        }
        match self.index.remove(&id.0) {
            None => {
                assert(self.index@ =~= old(self).index@);
                None
            },
            Some(place) => {
                assert(old(self)@.rests(id.0));
                let order = match place.1 {
                    Side::Buy => take_order(&mut self.bids, place.0.0, id.0),
                    Side::Sell => take_order(&mut self.asks, place.0.0, id.0),
                };
                assert(self@ == old(self)@.remove(id.0));
                Some(order)
            },
        }
    }

    /// Copies of the resting orders: the bids, then the asks, each side
    /// level by level from the lowest price up, each level oldest first.
    pub fn orders(&self) -> (r: Vec<Order>)
        ensures
            order_views(r@) == self@.orders(),
    {
        let mut out: Vec<Order> = Vec::new();
        assert(order_views(out@) =~= Seq::empty());
        list_orders(&self.bids, &mut out);
        list_orders(&self.asks, &mut out);
        assert(Seq::<OrderView>::empty() + ladder_orders(self@.bids) =~= ladder_orders(self@.bids));
        out
    }

    /// A book of its own with the same orders at the same places.
    pub fn duplicate(&self) -> (r: OrderBook)
        requires
            self.wf(),
            self@.non_crossing(),
        ensures
            r@ == self@,
            r.wf(),
    {
        let listed = self.orders();
        let ghost views = order_views(listed@);
        let mut book = OrderBook::new();
        let mut i: usize = 0;
        proof {
            lemma_rebuild(self@);
            assert(views.take(0) =~= Seq::empty());
        }
        while i < listed.len()
            invariant
                0 <= i <= listed@.len(),
                views == order_views(listed@),
                BookView::empty().takes_all(views),
                book.wf(),
                book@ == BookView::empty().rest_all(views.take(i as int)),
            decreases listed@.len() - i,
        {
            let order = listed[i].duplicate();
            proof {
                assert(order@ == views[i as int]);
                assert(views.take(i + 1).drop_last() =~= views.take(i as int));
                assert(views.take(i + 1).last() == views[i as int]);
                lemma_takes_all_prefix(BookView::empty(), views, i + 1);
            }
            book.add(order);
            i = i + 1;
        }
        assert(views.take(i as int) =~= views);
        book
    }

    /// Whether `order` may come to rest in the book, see [`BookView::takes`].
    pub fn takes(&self, order: &Order) -> (r: bool)
        requires
            self.wf(),
        ensures
            r == self@.takes(order@),
    {
        if order.quantity == 0 || self.contains(order.id) {
            return false;
        }
        match self.best_price(order.side.opposite()) {
            None => {
                proof {
                    lemma_no_best_rests_clear(self@, order@);
                }
                true
            },
            Some(best) => {
                proof {
                    assert(is_best(
                        self@.ladder(order.side.opposite()),
                        order.side.opposite(),
                        best.0,
                    ));
                    if !crosses(order.side, order.price.0, best.0) {
                        lemma_best_rests_clear(self@, order@);
                    }
                }
                !crosses(order.side, order.price.0, best.0)
            },
        }
    }

    /// Drops every price level whose queue is empty. A well-formed book has
    /// none, and stays as it is.
    pub fn cleanup(&mut self)
        ensures
            final(self)@ == old(self)@.without_empty_levels(),
            old(self).wf() ==> final(self)@ == old(self)@,
    {
        drop_empty_levels(&mut self.bids);
        drop_empty_levels(&mut self.asks);
        assert(old(self).wf() ==> self@.bids =~= old(self)@.bids && self@.asks =~= old(self)@.asks);
    }
}


/// Adding an order with a fresh id and a positive quantity keeps a book well
/// formed.
pub proof fn lemma_add_wf(book: BookView, order: OrderView)
    requires
        book.wf(),
        order.quantity >= 1,
        !book.contains(order.id),
    ensures
        book.add(order).wf(),
{
    let after = book.add(order);
    let side = order.side;
    let l = book.ladder(side);
    let l2 = ladder_push(l, order);
    let p0 = order.price;
    assert(after.ladder(side) == l2);
    assert(after.ladder(side.opposite()) == book.ladder(side.opposite()));
    // Each place of the new ladder is a place of the old one, or the tail.
    assert forall|p: u64, i: int| l2.contains_key(p) && 0 <= i < l2[p].len() implies (p == p0 && i
        == l2[p].len() - 1 && l2[p][i] == order) || (l.contains_key(p) && 0 <= i < l[p].len()
        && l2[p][i] == l[p][i]) by {}
    assert(ladder_ids_distinct(l2)) by {
        assert forall|p: u64, i: int, j: int|
            l2.contains_key(p) && 0 <= i < j < l2[p].len() implies (#[trigger] l2[p][i]).id != (
        #[trigger] l2[p][j]).id by {
            if p == p0 && j == l2[p].len() - 1 {
                assert(l.contains_key(p) && 0 <= i < l[p].len());
                assert(book.index.contains_key(l[p][i].id));
            }
        }
    }
    assert forall|id: u128| #[trigger] after.index.contains_key(id) implies after.rests(id) by {
        if id == order.id {
            assert(l2[p0][l2[p0].len() - 1].id == id);
        } else {
            assert(book.rests(id));
            let (price, s) = book.index[id];
            let q = book.ladder(s)[price.0];
            let i = queue_position(q, id);
            assert(after.ladder(s)[price.0][i].id == id);
        }
    }
}

/// An order that rests here does not cross the other side: every level of
/// the other side is outside its limit.
pub open spec fn rests_clear(book: BookView, order: OrderView) -> bool {
    forall|p: u64| #[trigger]
        book.ladder(order.side.opposite()).contains_key(p) ==> !crosses(
            order.side,
            order.price,
            p,
        )
}

/// With no best price on the other side, nothing rests there.
pub proof fn lemma_no_best_rests_clear(book: BookView, order: OrderView)
    requires
        book.wf(),
        book.best(order.side.opposite()) is None,
    ensures
        rests_clear(book, order),
{
    lemma_best_exists(
        book.ladder(order.side.opposite()),
        order.side.opposite(),
    );
}

/// An order whose limit the best price of the other side is outside of
/// crosses no level there.
pub proof fn lemma_best_rests_clear(book: BookView, order: OrderView)
    requires
        book.best(order.side.opposite()) is Some,
        !crosses(order.side, order.price, book.best(order.side.opposite()).unwrap()),
    ensures
        rests_clear(book, order),
{
    let side = order.side.opposite();
    let b = book.best(side).unwrap();
    assert(is_best(book.ladder(side), side, b));
}

/// The head of the best level of a well-formed book has a quantity.
pub proof fn lemma_best_order_positive(book: BookView, side: Side)
    requires
        book.wf(),
        book.best(side) is Some,
    ensures
        book.best_order(side).quantity >= 1,
{
    let p = book.best(side).unwrap();
    assert(is_best(book.ladder(side), side, p));
    assert(book.ladder(side).contains_key(p));
    assert(book.ladder(side)[p].len() > 0);
}

/// A fill leaves bids below asks.
pub proof fn lemma_fill_non_crossing(book: BookView, side: Side, qty: u64)
    requires
        book.non_crossing(),
        book.best(side) is Some,
    ensures
        book.fill(side, qty).non_crossing(),
{
    let p = book.best(side).unwrap();
    assert(is_best(book.ladder(side), side, p));
}

/// Removing an order leaves bids below asks.
pub proof fn lemma_remove_non_crossing(book: BookView, id: u128)
    requires
        book.wf(),
        book.non_crossing(),
    ensures
        book.remove(id).non_crossing(),
{
    if book.index.contains_key(id) {
        assert(book.rests(id));
    }
}

/// Resting an order that crosses no level of the other side leaves bids
/// below asks.
pub proof fn lemma_add_non_crossing(book: BookView, order: OrderView)
    requires
        book.non_crossing(),
        rests_clear(book, order),
    ensures
        book.add(order).non_crossing(),
{
    let after = book.add(order);
    assert forall|b: u64, a: u64| #[trigger]
        after.bids.contains_key(b) && #[trigger] after.asks.contains_key(a) implies b < a by {
        match order.side {
            Side::Buy => {
                if b == order.price {
                    assert(book.ladder(order.side.opposite()).contains_key(a));
                }
            },
            Side::Sell => {
                if a == order.price {
                    assert(book.ladder(order.side.opposite()).contains_key(b));
                }
            },
        }
    }
}

/// A fill against the head of the best level of a side keeps a book well
/// formed.
pub proof fn lemma_fill_wf(book: BookView, side: Side, qty: u64)
    requires
        book.wf(),
        book.best(side) is Some,
    ensures
        book.fill(side, qty).wf(),
{
    let after = book.fill(side, qty);
    let p0 = book.best(side).unwrap();
    assert(is_best(book.ladder(side), side, p0));
    let l = book.ladder(side);
    let l2 = ladder_fill(l, p0, qty);
    let head = l[p0][0];
    assert(after.ladder(side) == l2);
    assert(after.ladder(side.opposite()) == book.ladder(side.opposite()));
    if qty >= head.quantity {
        lemma_remove_place_wf(book, side, p0, 0);
    } else {
        let kept = head.with_quantity((head.quantity - qty) as u64);
        assert forall|p: u64, i: int| l2.contains_key(p) && 0 <= i < l2[p].len() implies l.contains_key(
            p,
        ) && 0 <= i < l[p].len() && (#[trigger] l2[p][i]).id == l[p][i].id && l2[p][i].price
            == l[p][i].price && l2[p][i].side == l[p][i].side && l2[p][i].quantity >= 1 by {}
        assert forall|id: u128| #[trigger] after.index.contains_key(id) implies after.rests(id) by {
            assert(book.rests(id));
            let (price, s) = book.index[id];
            let q = book.ladder(s)[price.0];
            let i = queue_position(q, id);
            assert(after.ladder(s)[price.0][i].id == id);
        }
    }
}

/// Taking the order at one place out of a well-formed book, and its id out of
/// the index, leaves a well-formed book.
pub proof fn lemma_remove_place_wf(book: BookView, side: Side, p0: u64, at: int)
    requires
        book.wf(),
        book.ladder(side).contains_key(p0),
        0 <= at < book.ladder(side)[p0].len(),
    ensures
        (BookView {
            index: book.index.remove(book.ladder(side)[p0][at].id),
            ..book.with_ladder(side, ladder_remove(book.ladder(side), p0, at))
        }).wf(),
{
    let l = book.ladder(side);
    let gone = l[p0][at];
    let l2 = ladder_remove(l, p0, at);
    let after = BookView { index: book.index.remove(gone.id), ..book.with_ladder(side, l2) };
    assert(after.ladder(side) == l2);
    assert(after.ladder(side.opposite()) == book.ladder(side.opposite()));
    // Each place of the new ladder is a place of the old one.
    assert forall|p: u64, i: int| l2.contains_key(p) && 0 <= i < l2[p].len() implies l.contains_key(
        p,
    ) && (if p == p0 && i >= at {
        i + 1 < l[p].len() && #[trigger] l2[p][i] == l[p][i + 1]
    } else {
        i < l[p].len() && l2[p][i] == l[p][i]
    }) by {}
    assert(ladder_indexed(l2, side, after.index)) by {
        assert forall|p: u64, i: int| l2.contains_key(p) && 0 <= i < l2[p].len() implies after.index.contains_key(
            (#[trigger] l2[p][i]).id,
        ) && after.index[l2[p][i].id] == (Price(p), side) by {
            let k = if p == p0 && i >= at {
                i + 1
            } else {
                i
            };
            assert(l2[p][i] == l[p][k]);
            assert(book.index[l[p][k].id] == (Price(p), side));
            if l[p][k].id == gone.id {
                assert(p == p0);
                if k < at {
                    assert(l[p][k].id != l[p][at].id);
                } else {
                    assert(l[p][at].id != l[p][k].id);
                }
            }
        }
    }
    let other = book.ladder(side.opposite());
    assert(ladder_indexed(other, side.opposite(), after.index)) by {
        assert forall|p: u64, i: int| other.contains_key(p) && 0 <= i < other[p].len() implies after.index.contains_key(
            (#[trigger] other[p][i]).id,
        ) && after.index[other[p][i].id] == (Price(p), side.opposite()) by {
            assert(book.index[other[p][i].id] == (Price(p), side.opposite()));
            assert(book.index[gone.id] == (Price(p0), side));
        }
    }
    assert(ladder_ids_distinct(l2)) by {
        assert forall|p: u64, i: int, j: int|
            l2.contains_key(p) && 0 <= i < j < l2[p].len() implies (#[trigger] l2[p][i]).id != (
        #[trigger] l2[p][j]).id by {
            let ki = if p == p0 && i >= at {
                i + 1
            } else {
                i
            };
            let kj = if p == p0 && j >= at {
                j + 1
            } else {
                j
            };
            assert(l2[p][i] == l[p][ki] && l2[p][j] == l[p][kj]);
            assert(l[p][ki].id != l[p][kj].id);
        }
    }
    assert forall|id: u128| #[trigger] after.index.contains_key(id) implies after.rests(id) by {
        assert(book.rests(id));
        let (price, s) = book.index[id];
        let q = book.ladder(s)[price.0];
        let i = queue_position(q, id);
        assert(q[i].id == id);
        if s == side && price.0 == p0 {
            let k = if i > at {
                i - 1
            } else {
                i
            };
            assert(i != at);
            assert(l2.contains_key(p0));
            assert(l2[p0][k] == l[p0][i]);
            assert(after.ladder(s)[price.0][k].id == id);
        } else {
            assert(after.ladder(s)[price.0][i].id == id);
        }
    }
}

/// Removing an order by its id keeps a book well formed.
pub proof fn lemma_remove_wf(book: BookView, id: u128)
    requires
        book.wf(),
    ensures
        book.remove(id).wf(),
{
    if book.index.contains_key(id) {
        assert(book.rests(id));
        let (price, side) = book.index[id];
        let q = book.ladder(side)[price.0];
        let at = queue_position(q, id);
        lemma_remove_place_wf(book, side, price.0, at);
    }
}

/// Orders that a book takes one after the other, it takes up to any point.
pub proof fn lemma_takes_all_prefix(book: BookView, orders: Seq<OrderView>, n: int)
    requires
        0 <= n <= orders.len(),
        book.takes_all(orders),
    ensures
        book.takes_all(orders.take(n)),
    decreases orders.len(),
{
    if n == orders.len() {
        assert(orders.take(n) =~= orders);
    } else {
        lemma_takes_all_prefix(book, orders.drop_last(), n);
        assert(orders.drop_last().take(n) =~= orders.take(n));
    }
}

/// The side that the last of a book's listed orders rests on: the asks, or
/// the bids where no ask rests.
pub open spec fn last_side(book: BookView) -> Side {
    if best_price(book.asks, Side::Buy) is Some {
        Side::Sell
    } else {
        Side::Buy
    }
}

/// The last of a book's listed orders: the youngest order of the highest
/// level of its [`last_side`].
pub open spec fn last_order(book: BookView) -> OrderView {
    let l = book.ladder(last_side(book));
    l[best_price(l, Side::Buy).unwrap()].last()
}

/// The book without the last of its listed orders.
pub open spec fn without_last(book: BookView) -> BookView {
    let side = last_side(book);
    let l = book.ladder(side);
    let top = best_price(l, Side::Buy).unwrap();
    BookView {
        index: book.index.remove(last_order(book).id),
        ..book.with_ladder(side, ladder_remove(l, top, l[top].len() - 1))
    }
}

/// A well-formed book that lists no order is the empty book.
pub proof fn lemma_no_orders_empty(book: BookView)
    requires
        book.wf(),
        best_price(book.asks, Side::Buy) is None,
        best_price(book.bids, Side::Buy) is None,
    ensures
        book == BookView::empty(),
        book.orders() == Seq::<OrderView>::empty(),
{
    lemma_best_exists(book.bids, Side::Buy);
    lemma_best_exists(book.asks, Side::Buy);
    assert forall|id: u128| !book.index.contains_key(id) by {
        if book.index.contains_key(id) {
            assert(book.rests(id));
        }
    }
    assert(book.index =~= Map::empty());
    assert(book.orders() =~= Seq::empty());
}

/// A well-formed book that has an order lists it, and lists the same orders
/// but the last once that one is taken out.
pub proof fn lemma_without_last_orders(book: BookView)
    requires
        book.wf(),
        best_price(book.ladder(last_side(book)), Side::Buy) is Some,
    ensures
        book.orders().len() > 0,
        book.orders().last() == last_order(book),
        without_last(book).orders() == book.orders().drop_last(),
{
    let side = last_side(book);
    lemma_ladder_orders_tail(book.ladder(side));
    match side {
        Side::Sell => {
            assert(without_last(book).orders() =~= book.orders().drop_last());
        },
        Side::Buy => {
            lemma_best_exists(book.asks, Side::Buy);
            assert(ladder_orders(book.asks) =~= Seq::empty());
            assert(book.orders() =~= ladder_orders(book.bids));
            assert(without_last(book).orders() =~= ladder_orders(without_last(book).bids));
        },
    }
}

/// A well-formed book without the last of its listed orders is well formed,
/// takes that order, and with it is the book again.
pub proof fn lemma_without_last_add(book: BookView)
    requires
        book.wf(),
        book.non_crossing(),
        best_price(book.ladder(last_side(book)), Side::Buy) is Some,
    ensures
        without_last(book).wf(),
        without_last(book).non_crossing(),
        without_last(book).takes(last_order(book)),
        without_last(book).add(last_order(book)) == book,
{
    let side = last_side(book);
    let l = book.ladder(side);
    let top = best_price(l, Side::Buy).unwrap();
    assert(is_best(l, Side::Buy, top));
    let q = l[top];
    let last = last_order(book);
    let before = without_last(book);
    let l2 = ladder_remove(l, top, q.len() - 1);
    assert(last == q[q.len() - 1]);
    lemma_remove_place_wf(book, side, top, q.len() - 1);
    assert(book.index.contains_key(last.id) && book.index[last.id] == (Price(top), side));
    assert(last.price == top && last.side == side && last.quantity >= 1);
    assert(ladder_push(l2, last) =~= l) by {
        if q.len() == 1 {
            assert(q =~= seq![last]);
        } else {
            assert(q.remove(q.len() - 1).push(last) =~= q);
        }
    }
    assert(before.index.insert(last.id, (Price(top), side)) =~= book.index);
    assert(before.ladder(side) == l2);
    assert(before.ladder(side.opposite()) == book.ladder(side.opposite()));
    assert(rests_clear(before, last)) by {
        assert forall|p: u64| #[trigger]
            before.ladder(last.side.opposite()).contains_key(p) implies !crosses(
            last.side,
            last.price,
            p,
        ) by {
            assert(book.ladder(side.opposite()).contains_key(p));
            assert(book.ladder(side).contains_key(top));
        }
    }
}

/// A well-formed book whose bids are below its asks is what its orders come
/// to when they rest, one after the other, in an empty book; and they can.
pub proof fn lemma_rebuild(book: BookView)
    requires
        book.wf(),
        book.non_crossing(),
    ensures
        BookView::empty().takes_all(book.orders()),
        BookView::empty().rest_all(book.orders()) == book,
    decreases book.orders().len(),
{
    if best_price(book.asks, Side::Buy) is None && best_price(book.bids, Side::Buy) is None {
        lemma_no_orders_empty(book);
    } else {
        lemma_without_last_orders(book);
        lemma_without_last_add(book);
        lemma_rebuild(without_last(book));
    }
}

} // verus!
