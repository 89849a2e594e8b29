//! Price ladders: one side of an order book as a map from price to the
//! queue of orders resting at that price.

use vstd::prelude::*;
use crate::models::order::OrderView;
use crate::models::price::Price;
use crate::models::side::Side;

verus! {

/// One side of a book: the queue of resting orders at each price that has
/// any. A queue lists its orders oldest first.
pub type Ladder = Map<u64, Seq<OrderView>>;

/// Every level of the ladder holds at least one order.
pub open spec fn ladder_no_empty_levels(l: Ladder) -> bool {
    forall|p: u64| #[trigger] l.contains_key(p) ==> l[p].len() > 0
}

/// Every order of the ladder has a residual quantity of at least one.
pub open spec fn ladder_positive_residuals(l: Ladder) -> bool {
    forall|p: u64, i: int|
        l.contains_key(p) && 0 <= i < l[p].len() ==> (#[trigger] l[p][i]).quantity >= 1
}

/// Every order of the ladder is of side `side` and is priced as the level it
/// stands in.
pub open spec fn ladder_keyed(l: Ladder, side: Side) -> bool {
    forall|p: u64, i: int|
        l.contains_key(p) && 0 <= i < l[p].len() ==> (#[trigger] l[p][i]).price == p
            && l[p][i].side == side
}

/// No level of the ladder holds two orders with one id.
pub open spec fn ladder_ids_distinct(l: Ladder) -> bool {
    forall|p: u64, i: int, j: int|
        l.contains_key(p) && 0 <= i < j < l[p].len() ==> (#[trigger] l[p][i]).id != (
        #[trigger] l[p][j]).id
}

/// Every order of the ladder is indexed, at its own price and at `side`.
pub open spec fn ladder_indexed(l: Ladder, side: Side, index: Map<u128, (Price, Side)>) -> bool {
    forall|p: u64, i: int|
        l.contains_key(p) && 0 <= i < l[p].len() ==> index.contains_key((#[trigger] l[p][i]).id)
            && index[l[p][i].id] == (Price(p), side)
}

/// Whether the queue holds an order with this id.
pub open spec fn queue_has(q: Seq<OrderView>, id: u128) -> bool {
    exists|i: int| 0 <= i < q.len() && (#[trigger] q[i]).id == id
}

/// The position in the queue of the order with this id.
pub open spec fn queue_position(q: Seq<OrderView>, id: u128) -> int {
    choose|i: int| 0 <= i < q.len() && (#[trigger] q[i]).id == id
}

/// `p` is the best price of a ladder of side `side`: the highest bid, the
/// lowest ask.
pub open spec fn is_best(l: Ladder, side: Side, p: u64) -> bool {
    &&& l.contains_key(p)
    &&& forall|q: u64| #[trigger]
        l.contains_key(q) ==> match side {
            Side::Buy => q <= p,
            Side::Sell => p <= q,
        }
}

/// The best price of a ladder of side `side`, if the ladder has a level.
pub open spec fn best_price(l: Ladder, side: Side) -> Option<u64> {
    if exists|p: u64| is_best(l, side, p) {
        Some(choose|p: u64| is_best(l, side, p))
    } else {
        None
    }
}

/// The ladder with `order` appended to the queue at its price.
pub open spec fn ladder_push(l: Ladder, order: OrderView) -> Ladder {
    if l.contains_key(order.price) {
        l.insert(order.price, l[order.price].push(order))
    } else {
        l.insert(order.price, seq![order])
    }
}

/// The ladder without the order at position `i` of level `p`; the level
/// goes with its last order.
pub open spec fn ladder_remove(l: Ladder, p: u64, i: int) -> Ladder {
    if l[p].len() == 1 {
        l.remove(p)
    } else {
        l.insert(p, l[p].remove(i))
    }
}

/// The ladder after `qty` units are filled against the head of level `p`:
/// the head leaves when nothing of it is left, else it stays at the head
/// with what is left.
pub open spec fn ladder_fill(l: Ladder, p: u64, qty: u64) -> Ladder {
    let head = l[p][0];
    if qty >= head.quantity {
        ladder_remove(l, p, 0)
    } else {
        l.insert(p, l[p].update(0, head.with_quantity((head.quantity - qty) as u64)))
    }
}

/// The ladder without its empty levels.
pub open spec fn ladder_live(l: Ladder) -> Ladder {
    l.restrict(Set::new(|p: u64| l[p].len() > 0))
}

/// A finite ladder with a level has a best price.
pub proof fn lemma_best_exists(l: Ladder, side: Side)
    requires
        l.dom().finite(),
    ensures
        best_price(l, side) is None ==> l == Map::<u64, Seq<OrderView>>::empty(),
    decreases l.dom().len(),
{
    if l.dom().len() == 0 {
        assert(l =~= Map::empty());
    } else {
        let k = l.dom().choose();
        let rest = l.remove(k);
        lemma_best_exists(rest, side);
        if rest.dom().len() == 0 {
            assert(rest =~= Map::empty());
            assert forall|q: u64| #[trigger] l.contains_key(q) implies q == k by {
                if q != k {
                    assert(rest.contains_key(q));
                }
            }
            assert(is_best(l, side, k));
        } else {
            assert(rest.dom().len() > 0);
            let b = best_price(rest, side).unwrap();
            assert(is_best(rest, side, b));
            let better = match side {
                Side::Buy => if k >= b {
                    k
                } else {
                    b
                },
                Side::Sell => if k <= b {
                    k
                } else {
                    b
                },
            };
            assert forall|q: u64| #[trigger] l.contains_key(q) implies match side {
                Side::Buy => q <= better,
                Side::Sell => better <= q,
            } by {
                if q != k {
                    assert(rest.contains_key(q));
                }
            }
            assert(is_best(l, side, better));
        }
    }
}

/// The residual quantity that rests in a queue.
pub open spec fn queue_total(q: Seq<OrderView>) -> nat
    decreases q.len(),
{
    if q.len() == 0 {
        0
    } else {
        queue_total(q.drop_last()) + q.last().quantity as nat
    }
}

/// The residual quantity that rests on a ladder.
pub open spec fn ladder_total(l: Ladder) -> nat
    decreases l.dom().len(),
    when l.dom().finite()
{
    if l.dom().len() == 0 {
        0
    } else {
        let p = l.dom().choose();
        queue_total(l[p]) + ladder_total(l.remove(p))
    }
}

/// A queue without one of its orders rests that order's quantity less.
pub proof fn lemma_queue_total_remove(q: Seq<OrderView>, i: int)
    requires
        0 <= i < q.len(),
    ensures
        queue_total(q.remove(i)) + q[i].quantity == queue_total(q),
    decreases q.len(),
{
    if i == q.len() - 1 {
        assert(q.remove(i) =~= q.drop_last());
    } else {
        lemma_queue_total_remove(q.drop_last(), i);
        assert(q.remove(i).drop_last() =~= q.drop_last().remove(i));
        assert(q.remove(i).last() == q.last());
    }
}

/// A queue with one order exchanged rests the difference of the two
/// quantities more.
pub proof fn lemma_queue_total_update(q: Seq<OrderView>, i: int, o: OrderView)
    requires
        0 <= i < q.len(),
    ensures
        queue_total(q.update(i, o)) + q[i].quantity == queue_total(q) + o.quantity,
    decreases q.len(),
{
    if i == q.len() - 1 {
        assert(q.update(i, o).drop_last() =~= q.drop_last());
    } else {
        lemma_queue_total_update(q.drop_last(), i, o);
        assert(q.update(i, o).drop_last() =~= q.drop_last().update(i, o));
        assert(q.update(i, o).last() == q.last());
    }
}

/// A queue with one more order rests that order's quantity more.
pub proof fn lemma_queue_total_push(q: Seq<OrderView>, o: OrderView)
    ensures
        queue_total(q.push(o)) == queue_total(q) + o.quantity,
{
    assert(q.push(o).drop_last() =~= q);
}

/// What rests on a ladder is what rests at any one of its levels and what
/// rests on the others.
pub proof fn lemma_ladder_total_split(l: Ladder, p: u64)
    requires
        l.dom().finite(),
        l.contains_key(p),
    ensures
        ladder_total(l) == queue_total(l[p]) + ladder_total(l.remove(p)),
    decreases l.dom().len(),
{
    let c = l.dom().choose();
    if c != p {
        lemma_ladder_total_split(l.remove(c), p);
        lemma_ladder_total_split(l.remove(p), c);
        assert(l.remove(c).remove(p) =~= l.remove(p).remove(c));
    }
}

/// What rests on a ladder after one of its levels is set to a queue.
pub proof fn lemma_ladder_total_insert(l: Ladder, p: u64, q: Seq<OrderView>)
    requires
        l.dom().finite(),
    ensures
        ladder_total(l.insert(p, q)) == queue_total(q) + ladder_total(l.remove(p)),
{
    lemma_ladder_total_split(l.insert(p, q), p);
    assert(l.insert(p, q).remove(p) =~= l.remove(p));
}

/// A fill takes its quantity off what rests on the ladder.
pub proof fn lemma_ladder_fill_total(l: Ladder, p: u64, qty: u64)
    requires
        l.dom().finite(),
        l.contains_key(p),
        l[p].len() > 0,
        qty <= l[p][0].quantity,
    ensures
        ladder_total(ladder_fill(l, p, qty)) + qty == ladder_total(l),
{
    let q = l[p];
    let head = q[0];
    lemma_ladder_total_split(l, p);
    if qty >= head.quantity {
        lemma_queue_total_remove(q, 0);
        if q.len() == 1 {
            assert(q.remove(0) =~= Seq::empty());
        } else {
            lemma_ladder_total_insert(l, p, q.remove(0));
        }
    } else {
        let kept = head.with_quantity((head.quantity - qty) as u64);
        lemma_queue_total_update(q, 0, kept);
        lemma_ladder_total_insert(l, p, q.update(0, kept));
    }
}

/// Resting one more order adds its quantity to what rests on the ladder.
pub proof fn lemma_ladder_push_total(l: Ladder, o: OrderView)
    requires
        l.dom().finite(),
    ensures
        ladder_total(ladder_push(l, o)) == ladder_total(l) + o.quantity,
{
    if l.contains_key(o.price) {
        lemma_ladder_total_split(l, o.price);
        lemma_queue_total_push(l[o.price], o);
        lemma_ladder_total_insert(l, o.price, l[o.price].push(o));
    } else {
        lemma_ladder_total_insert(l, o.price, seq![o]);
        assert(l.remove(o.price) =~= l);
        lemma_queue_total_push(Seq::empty(), o);
        assert(Seq::<OrderView>::empty().push(o) =~= seq![o]);
    }
}

/// Taking one order off a ladder takes its quantity off what rests there.
pub proof fn lemma_ladder_remove_total(l: Ladder, p: u64, i: int)
    requires
        l.dom().finite(),
        l.contains_key(p),
        0 <= i < l[p].len(),
    ensures
        ladder_total(ladder_remove(l, p, i)) + l[p][i].quantity == ladder_total(l),
{
    let q = l[p];
    lemma_ladder_total_split(l, p);
    lemma_queue_total_remove(q, i);
    if q.len() == 1 {
        assert(q.remove(i) =~= Seq::empty());
    } else {
        lemma_ladder_total_insert(l, p, q.remove(i));
    }
}

/// The orders of a ladder, level by level from the lowest price up, each
/// level oldest first.
pub open spec fn ladder_orders(l: Ladder) -> Seq<OrderView>
    decreases l.dom().len(),
    when l.dom().finite()
{
    match best_price(l, Side::Buy) {
        Some(top) => ladder_orders(l.remove(top)) + l[top],
        None => Seq::empty(),
    }
}

/// The orders of the levels at `prices`, level by level in the order of
/// `prices`, each level oldest first.
pub open spec fn levels_concat(l: Ladder, prices: Seq<u64>) -> Seq<OrderView>
    decreases prices.len(),
{
    if prices.len() == 0 {
        Seq::empty()
    } else {
        levels_concat(l, prices.drop_last()) + l[prices.last()]
    }
}

/// Levels that are not asked for do not matter to [`levels_concat`].
pub proof fn lemma_levels_concat_remove(l: Ladder, prices: Seq<u64>, p: u64)
    requires
        forall|i: int| 0 <= i < prices.len() ==> prices[i] != p,
    ensures
        levels_concat(l.remove(p), prices) == levels_concat(l, prices),
    decreases prices.len(),
{
    if prices.len() > 0 {
        lemma_levels_concat_remove(l, prices.drop_last(), p);
    }
}

/// The orders of a ladder are the orders of its levels, taken by rising
/// price.
pub proof fn lemma_ladder_orders_by_price(l: Ladder, prices: Seq<u64>)
    requires
        l.dom().finite(),
        prices.to_set() == l.dom(),
        forall|i: int, j: int| 0 <= i < j < prices.len() ==> prices[i] < prices[j],
    ensures
        ladder_orders(l) == levels_concat(l, prices),
    decreases prices.len(),
{
    if prices.len() == 0 {
        assert forall|p: u64| !is_best(l, Side::Buy, p) by {
            assert(!prices.to_set().contains(p));
        }
    } else {
        let top = prices.last();
        let lower = prices.drop_last();
        assert(prices.to_set().contains(top));
        assert forall|q: u64| #[trigger] l.contains_key(q) implies q <= top by {
            assert(prices.to_set().contains(q));
            let i = choose|i: int| 0 <= i < prices.len() && prices[i] == q;
            assert(prices[i] == q);
        }
        assert(is_best(l, Side::Buy, top));
        let chosen = best_price(l, Side::Buy).unwrap();
        assert(is_best(l, Side::Buy, chosen));
        assert(chosen == top);
        assert forall|q: u64| lower.to_set().contains(q) <==> l.remove(top).dom().contains(
            q,
        ) by {
            if lower.to_set().contains(q) {
                let i = choose|i: int| 0 <= i < lower.len() && lower[i] == q;
                assert(prices[i] == q);
                assert(prices.to_set().contains(q));
            }
            if l.remove(top).dom().contains(q) {
                assert(prices.to_set().contains(q));
                let i = choose|i: int| 0 <= i < prices.len() && prices[i] == q;
                assert(lower[i] == q);
            }
        }
        assert(lower.to_set() =~= l.remove(top).dom());
        lemma_ladder_orders_by_price(l.remove(top), lower);
        lemma_levels_concat_remove(l, lower, top);
    }
}

/// The last order of a ladder with a level is the youngest order of its
/// highest level, and without that order the ladder lists the same orders
/// but the last.
pub proof fn lemma_ladder_orders_tail(l: Ladder)
    requires
        l.dom().finite(),
        ladder_no_empty_levels(l),
        best_price(l, Side::Buy) is Some,
    ensures
        ({
            let top = best_price(l, Side::Buy).unwrap();
            &&& l.contains_key(top)
            &&& ladder_orders(l).len() > 0
            &&& ladder_orders(l).last() == l[top].last()
            &&& ladder_orders(ladder_remove(l, top, l[top].len() - 1)) == ladder_orders(
                l,
            ).drop_last()
        }),
{
    let top = best_price(l, Side::Buy).unwrap();
    assert(is_best(l, Side::Buy, top));
    let q = l[top];
    let below = ladder_orders(l.remove(top));
    assert(ladder_orders(l) == below + q);
    if q.len() == 1 {
        assert((below + q).drop_last() =~= below);
    } else {
        let after = ladder_remove(l, top, q.len() - 1);
        assert(q.remove(q.len() - 1) =~= q.drop_last());
        assert(is_best(after, Side::Buy, top));
        let chosen = best_price(after, Side::Buy).unwrap();
        assert(is_best(after, Side::Buy, chosen));
        assert(after.contains_key(top) && after.contains_key(chosen));
        assert(chosen == top);
        assert(after.remove(top) =~= l.remove(top));
        assert((below + q).drop_last() =~= below + q.drop_last());
    }
}

/// The orders of a ladder of side `side` in the order of their priority:
/// level by level from the best price on, each level oldest first.
pub open spec fn by_priority(l: Ladder, side: Side) -> Seq<OrderView>
    decreases l.dom().len(),
    when l.dom().finite()
{
    match best_price(l, side) {
        Some(best) => l[best] + by_priority(l.remove(best), side),
        None => Seq::empty(),
    }
}

/// The first order by priority is the head of the best level, and without it
/// the others keep their order.
pub proof fn lemma_by_priority_head(l: Ladder, side: Side)
    requires
        l.dom().finite(),
        ladder_no_empty_levels(l),
        best_price(l, side) is Some,
    ensures
        ({
            let best = best_price(l, side).unwrap();
            &&& by_priority(l, side).len() > 0
            &&& by_priority(l, side)[0] == l[best][0]
            &&& by_priority(ladder_remove(l, best, 0), side) == by_priority(l, side).drop_first()
        }),
{
    let best = best_price(l, side).unwrap();
    assert(is_best(l, side, best));
    let q = l[best];
    let behind = by_priority(l.remove(best), side);
    assert(by_priority(l, side) == q + behind);
    if q.len() == 1 {
        assert((q + behind).drop_first() =~= behind);
    } else {
        let after = ladder_remove(l, best, 0);
        assert(is_best(after, side, best));
        let chosen = best_price(after, side).unwrap();
        assert(is_best(after, side, chosen));
        assert(after.contains_key(best) && after.contains_key(chosen));
        assert(chosen == best);
        assert(after.remove(best) =~= l.remove(best));
        assert((q + behind).drop_first() =~= q.remove(0) + behind);
    }
}

/// With what is left of the head of the best level in the head's place, the
/// orders by priority are the same but for that one.
pub proof fn lemma_by_priority_reduce_head(l: Ladder, side: Side, kept: OrderView)
    requires
        l.dom().finite(),
        ladder_no_empty_levels(l),
        best_price(l, side) is Some,
    ensures
        ({
            let best = best_price(l, side).unwrap();
            by_priority(l.insert(best, l[best].update(0, kept)), side) == by_priority(
                l,
                side,
            ).update(0, kept)
        }),
{
    let best = best_price(l, side).unwrap();
    assert(is_best(l, side, best));
    let q = l[best];
    let behind = by_priority(l.remove(best), side);
    let after = l.insert(best, q.update(0, kept));
    assert(is_best(after, side, best));
    let chosen = best_price(after, side).unwrap();
    assert(is_best(after, side, chosen));
    assert(after.contains_key(best) && after.contains_key(chosen));
    assert(chosen == best);
    assert(after.remove(best) =~= l.remove(best));
    assert(q.update(0, kept) + behind =~= (q + behind).update(0, kept));
}

} // verus!
