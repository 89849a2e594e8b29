use matching_engine::engine::matching::CancelOutcome;
use matching_engine::engine::matching::MatchingEngine;
use matching_engine::models::order::Order;
use matching_engine::models::order::OrderId;
use matching_engine::models::price::Price;
use matching_engine::models::side::Side;
use matching_engine::models::trade::Trade;

const A: OrderId = OrderId(0xA);
const B: OrderId = OrderId(0xB);
const C: OrderId = OrderId(0xC);
const D: OrderId = OrderId(0xD);

fn order(id: OrderId, side: Side, price: u64, quantity: u64) -> Order {
    Order {
        id,
        market: "BTC-USD".to_string(),
        wallet: "wallet".to_string(),
        side,
        price: Price(price),
        quantity,
        timestamp: 0,
    }
}

fn submit(engine: &mut MatchingEngine, order: Order) -> Vec<Trade> {
    assert!(engine.admits(&order));
    engine.submit(order)
}

fn residual(engine: &MatchingEngine, id: OrderId) -> Option<u64> {
    engine.orderbook().get(id).map(|o| o.quantity)
}

fn check_invariants(engine: &MatchingEngine) {
    let book = engine.orderbook();
    if let (Some(bid), Some(ask)) = (book.best_bid_price(), book.best_ask_price()) {
        assert!(bid.0 < ask.0);
    }
    let orders = book.orders();
    assert_eq!(orders.len(), book.len());
    for o in &orders {
        assert!(o.quantity >= 1);
        assert!(book.contains(o.id));
        let found = book.get(o.id).unwrap();
        assert_eq!(found.price, o.price);
        assert_eq!(found.side, o.side);
        assert_eq!(found.quantity, o.quantity);
    }
    for (i, a) in orders.iter().enumerate() {
        for b in &orders[i + 1..] {
            assert_ne!(a.id, b.id);
        }
    }
    if let Some((_, queue)) = book.best_bid() {
        assert!(!queue.is_empty());
    }
    if let Some((_, queue)) = book.best_ask() {
        assert!(!queue.is_empty());
    }
}

#[test]
fn scenario_basic_match() {
    let mut engine = MatchingEngine::new("BTC-USD");
    let first = submit(&mut engine, order(A, Side::Sell, 50000, 10));
    assert!(first.is_empty());
    let second = submit(&mut engine, order(B, Side::Buy, 50000, 5));
    assert_eq!(second.len(), 1);
    assert_eq!(second[0].buy_order, B);
    assert_eq!(second[0].sell_order, A);
    assert_eq!(second[0].price, Price(50000));
    assert_eq!(second[0].quantity, 5);
    assert_eq!(second[0].sequence, 1);
    assert_eq!(second[0].market, "BTC-USD");
    assert_eq!(residual(&engine, A), Some(5));
    assert_eq!(residual(&engine, B), None);
    assert_eq!(engine.orderbook().best_ask_price(), Some(Price(50000)));
    assert_eq!(engine.orderbook().best_bid_price(), None);
    let resting = engine.orderbook().get(A).unwrap();
    assert_eq!(resting.side, Side::Sell);
    assert_eq!(resting.price, Price(50000));
    check_invariants(&engine);
}

#[test]
fn scenario_price_time_priority() {
    let mut engine = MatchingEngine::new("BTC-USD");
    submit(&mut engine, order(A, Side::Sell, 50000, 5));
    submit(&mut engine, order(B, Side::Sell, 50000, 5));
    let trades = submit(&mut engine, order(C, Side::Buy, 50000, 3));
    assert_eq!(trades.len(), 1);
    assert_eq!(trades[0].buy_order, C);
    assert_eq!(trades[0].sell_order, A);
    assert_eq!(trades[0].price, Price(50000));
    assert_eq!(trades[0].quantity, 3);
    assert_eq!(trades[0].sequence, 1);
    assert_eq!(residual(&engine, A), Some(2));
    assert_eq!(residual(&engine, B), Some(5));
    check_invariants(&engine);
}

#[test]
fn scenario_partial_fill_then_remainder() {
    let mut engine = MatchingEngine::new("BTC-USD");
    submit(&mut engine, order(A, Side::Sell, 50000, 10));
    let first = submit(&mut engine, order(B, Side::Buy, 50000, 6));
    assert_eq!(first.len(), 1);
    assert_eq!(first[0].quantity, 6);
    assert_eq!(first[0].sequence, 1);
    let second = submit(&mut engine, order(C, Side::Buy, 50000, 4));
    assert_eq!(second.len(), 1);
    assert_eq!(second[0].quantity, 4);
    assert_eq!(second[0].sequence, 2);
    assert_eq!(second[0].sell_order, A);
    assert_eq!(engine.orderbook().len(), 0);
    assert_eq!(engine.orderbook().best_ask_price(), None);
    assert_eq!(engine.orderbook().best_bid_price(), None);
    assert!(engine.orderbook().orders().is_empty());
    check_invariants(&engine);
}

#[test]
fn scenario_no_cross() {
    let mut engine = MatchingEngine::new("BTC-USD");
    submit(&mut engine, order(A, Side::Sell, 50000, 10));
    let trades = submit(&mut engine, order(B, Side::Buy, 49999, 10));
    assert!(trades.is_empty());
    assert_eq!(residual(&engine, A), Some(10));
    assert_eq!(residual(&engine, B), Some(10));
    assert_eq!(engine.orderbook().best_bid_price(), Some(Price(49999)));
    assert_eq!(engine.orderbook().best_ask_price(), Some(Price(50000)));
    assert_eq!(engine.sequence(), 0);
    check_invariants(&engine);
}

#[test]
fn scenario_walk_the_book() {
    let mut engine = MatchingEngine::new("BTC-USD");
    submit(&mut engine, order(A, Side::Sell, 50100, 5));
    submit(&mut engine, order(B, Side::Sell, 50000, 5));
    submit(&mut engine, order(C, Side::Sell, 50200, 5));
    let trades = submit(&mut engine, order(D, Side::Buy, 50150, 8));
    assert_eq!(trades.len(), 2);
    assert_eq!(trades[0].sell_order, B);
    assert_eq!(trades[0].buy_order, D);
    assert_eq!(trades[0].price, Price(50000));
    assert_eq!(trades[0].quantity, 5);
    assert_eq!(trades[0].sequence, 1);
    assert_eq!(trades[1].sell_order, A);
    assert_eq!(trades[1].buy_order, D);
    assert_eq!(trades[1].price, Price(50100));
    assert_eq!(trades[1].quantity, 3);
    assert_eq!(trades[1].sequence, 2);
    assert_eq!(residual(&engine, D), None);
    assert_eq!(residual(&engine, A), Some(2));
    assert_eq!(residual(&engine, B), None);
    assert_eq!(residual(&engine, C), Some(5));
    assert_eq!(engine.orderbook().best_ask_price(), Some(Price(50100)));
    assert_eq!(engine.sequence(), 2);
    check_invariants(&engine);
}

#[test]
fn scenario_cancel() {
    let mut engine = MatchingEngine::new("BTC-USD");
    submit(&mut engine, order(A, Side::Buy, 50000, 10));
    assert_eq!(engine.cancel(A), CancelOutcome::Cancelled);
    let trades = submit(&mut engine, order(B, Side::Sell, 50000, 10));
    assert!(trades.is_empty());
    assert_eq!(residual(&engine, B), Some(10));
    assert_eq!(engine.orderbook().best_ask_price(), Some(Price(50000)));
    assert_eq!(engine.orderbook().best_bid_price(), None);
    assert_eq!(residual(&engine, A), None);
    check_invariants(&engine);
}

#[test]
fn sell_walks_the_bids_from_the_highest() {
    let mut engine = MatchingEngine::new("BTC-USD");
    submit(&mut engine, order(A, Side::Buy, 49900, 5));
    submit(&mut engine, order(B, Side::Buy, 50000, 5));
    submit(&mut engine, order(C, Side::Buy, 49800, 5));
    let trades = submit(&mut engine, order(D, Side::Sell, 49850, 12));
    assert_eq!(trades.len(), 2);
    assert_eq!(trades[0].buy_order, B);
    assert_eq!(trades[0].sell_order, D);
    assert_eq!(trades[0].price, Price(50000));
    assert_eq!(trades[0].quantity, 5);
    assert_eq!(trades[1].buy_order, A);
    assert_eq!(trades[1].price, Price(49900));
    assert_eq!(trades[1].quantity, 5);
    assert_eq!(residual(&engine, D), Some(2));
    assert_eq!(residual(&engine, C), Some(5));
    assert_eq!(engine.orderbook().best_ask_price(), Some(Price(49850)));
    assert_eq!(engine.orderbook().best_bid_price(), Some(Price(49800)));
    check_invariants(&engine);
}

#[test]
fn equal_price_crosses() {
    let mut engine = MatchingEngine::new("BTC-USD");
    submit(&mut engine, order(A, Side::Buy, 100, 1));
    let trades = submit(&mut engine, order(B, Side::Sell, 100, 1));
    assert_eq!(trades.len(), 1);
    assert_eq!(trades[0].buy_order, A);
    assert_eq!(trades[0].sell_order, B);
    assert_eq!(engine.orderbook().len(), 0);
}

#[test]
fn quantity_is_conserved() {
    let mut engine = MatchingEngine::new("BTC-USD");
    submit(&mut engine, order(A, Side::Sell, 100, 4));
    submit(&mut engine, order(B, Side::Sell, 101, 7));
    submit(&mut engine, order(C, Side::Sell, 105, 9));
    let before: u64 = engine.orderbook().orders().iter().map(|o| o.quantity).sum();
    let trades = submit(&mut engine, order(D, Side::Buy, 102, 20));
    let traded: u64 = trades.iter().map(|t| t.quantity).sum();
    assert_eq!(traded, 11);
    assert_eq!(residual(&engine, D), Some(9));
    assert_eq!(20, traded + residual(&engine, D).unwrap());
    let asks_after: u64 = engine
        .orderbook()
        .orders()
        .iter()
        .filter(|o| o.side == Side::Sell)
        .map(|o| o.quantity)
        .sum();
    assert_eq!(before, asks_after + traded);
    check_invariants(&engine);
}

#[test]
fn sequence_has_no_gaps() {
    let mut engine = MatchingEngine::new("BTC-USD");
    let mut next = 1;
    let mut id = 0u128;
    let mut made = 0;
    for round in 0..5u64 {
        for k in 0..4u64 {
            id += 1;
            let (side, price) = if k < 3 { (Side::Sell, 100 + k) } else { (Side::Buy, 101) };
            let trades = submit(&mut engine, order(OrderId(id), side, price, 2 + round + k));
            for t in &trades {
                assert_eq!(t.sequence, next);
                next += 1;
            }
            made += trades.len();
            assert_eq!(engine.sequence(), next - 1);
            check_invariants(&engine);
        }
    }
    assert!(made >= 10);
}

#[test]
fn replace_goes_to_the_tail() {
    let mut engine = MatchingEngine::new("BTC-USD");
    submit(&mut engine, order(A, Side::Sell, 50000, 5));
    submit(&mut engine, order(B, Side::Sell, 50000, 5));
    let replacement = order(A, Side::Sell, 50000, 7);
    assert!(engine.admits_replacement(&replacement));
    let trades = engine.replace(replacement);
    assert!(trades.is_empty());
    let (price, queue) = engine.orderbook().best_ask().unwrap();
    assert_eq!(price, Price(50000));
    assert_eq!(queue.len(), 2);
    assert_eq!(queue[0].id, B);
    assert_eq!(queue[1].id, A);
    assert_eq!(queue[1].quantity, 7);
    let trades = submit(&mut engine, order(C, Side::Buy, 50000, 3));
    assert_eq!(trades[0].sell_order, B);
    check_invariants(&engine);
}

#[test]
fn replace_of_an_unknown_id_submits() {
    let mut engine = MatchingEngine::new("BTC-USD");
    submit(&mut engine, order(A, Side::Sell, 50000, 5));
    let replacement = order(B, Side::Buy, 50000, 2);
    assert!(engine.admits_replacement(&replacement));
    let trades = engine.replace(replacement);
    assert_eq!(trades.len(), 1);
    assert_eq!(trades[0].quantity, 2);
    assert_eq!(residual(&engine, A), Some(3));
}

#[test]
fn replace_may_trade() {
    let mut engine = MatchingEngine::new("BTC-USD");
    submit(&mut engine, order(A, Side::Sell, 50000, 5));
    submit(&mut engine, order(B, Side::Buy, 49000, 5));
    let replacement = order(B, Side::Buy, 50000, 8);
    assert!(engine.admits_replacement(&replacement));
    let trades = engine.replace(replacement);
    assert_eq!(trades.len(), 1);
    assert_eq!(trades[0].buy_order, B);
    assert_eq!(trades[0].sell_order, A);
    assert_eq!(trades[0].quantity, 5);
    assert_eq!(residual(&engine, B), Some(3));
    assert_eq!(engine.orderbook().best_bid_price(), Some(Price(50000)));
    check_invariants(&engine);
}

#[test]
fn cancel_is_idempotent_in_effect() {
    let mut engine = MatchingEngine::new("BTC-USD");
    submit(&mut engine, order(A, Side::Buy, 50000, 10));
    submit(&mut engine, order(B, Side::Buy, 50000, 10));
    assert_eq!(engine.cancel(C), CancelOutcome::NotFound);
    assert_eq!(engine.cancel(A), CancelOutcome::Cancelled);
    assert_eq!(engine.cancel(A), CancelOutcome::NotFound);
    assert_eq!(engine.orderbook().len(), 1);
    assert_eq!(residual(&engine, B), Some(10));
    check_invariants(&engine);
}

#[test]
fn engine_does_not_admit_what_it_cannot_take() {
    let mut engine = MatchingEngine::new("BTC-USD");
    submit(&mut engine, order(A, Side::Buy, 50000, 10));
    assert!(!engine.admits(&order(A, Side::Sell, 60000, 1)));
    assert!(!engine.admits(&order(B, Side::Sell, 60000, 0)));
    assert!(engine.admits(&order(B, Side::Sell, 60000, 1)));
    assert!(engine.admits_replacement(&order(A, Side::Sell, 60000, 1)));
    assert!(!engine.admits_replacement(&order(A, Side::Sell, 60000, 0)));
}

#[test]
fn self_trade_is_not_prevented() {
    let mut engine = MatchingEngine::new("BTC-USD");
    submit(&mut engine, order(A, Side::Sell, 100, 1));
    let trades = submit(&mut engine, order(B, Side::Buy, 100, 1));
    assert_eq!(trades.len(), 1);
}

#[test]
fn a_fresh_engine_is_empty() {
    let engine = MatchingEngine::new("ETH-USD");
    assert_eq!(engine.market(), "ETH-USD");
    assert_eq!(engine.sequence(), 0);
    assert_eq!(engine.orderbook().len(), 0);
    assert!(engine.orderbook().best_bid().is_none());
    assert!(engine.orderbook().best_ask().is_none());
}
