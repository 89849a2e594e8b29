use matching_engine::api::ingress::replace_checked;
use matching_engine::api::ingress::submit_checked;
use matching_engine::api::ingress::Rejection;
use matching_engine::engine::matching::MatchingEngine;
use matching_engine::models::order::Order;
use matching_engine::models::order::OrderId;
use matching_engine::models::price::Price;
use matching_engine::models::side::Side;
use matching_engine::persistence::replay::replay_orders;
use matching_engine::persistence::replay::ReplayError;
use matching_engine::persistence::snapshot::restore;
use matching_engine::persistence::snapshot::restore_all;
use matching_engine::persistence::snapshot::snapshot;
use matching_engine::persistence::snapshot::snapshot_all;
use matching_engine::persistence::snapshot::EngineSnapshot;

fn logged(market: &str, id: u128, side: Side, price: u64, quantity: u64) -> Order {
    Order {
        id: OrderId(id),
        market: market.to_string(),
        wallet: "w".to_string(),
        side,
        price: Price(price),
        quantity,
        timestamp: 1000 + id as u64,
    }
}

#[test]
fn replay_submits_in_order() {
    let log = vec![
        logged("BTC-USD", 1, Side::Sell, 100, 5),
        logged("ETH-USD", 2, Side::Sell, 10, 5),
        logged("BTC-USD", 3, Side::Buy, 100, 2),
        logged("BTC-USD", 4, Side::Buy, 99, 2),
    ];
    let registry = replay_orders(&log).ok().unwrap();
    assert_eq!(registry.len(), 2);
    let btc = registry.get_market("BTC-USD").unwrap();
    assert_eq!(btc.sequence(), 1);
    assert_eq!(btc.orderbook().get(OrderId(1)).unwrap().quantity, 3);
    assert_eq!(btc.orderbook().get(OrderId(4)).unwrap().quantity, 2);
    assert!(btc.orderbook().get(OrderId(3)).is_none());
    let eth = registry.get_market("ETH-USD").unwrap();
    assert_eq!(eth.sequence(), 0);
    assert_eq!(eth.orderbook().len(), 1);
}

#[test]
fn replay_of_nothing_is_an_empty_registry() {
    let registry = replay_orders(&vec![]).ok().unwrap();
    assert_eq!(registry.len(), 0);
}

#[test]
fn replay_names_the_order_it_stops_at() {
    let log = vec![
        logged("BTC-USD", 1, Side::Sell, 100, 5),
        logged("BTC-USD", 2, Side::Sell, 100, 0),
        logged("BTC-USD", 3, Side::Buy, 100, 2),
    ];
    assert_eq!(
        replay_orders(&log).err(),
        Some(ReplayError { position: 1, reason: Rejection::InvalidQuantity })
    );
    let log = vec![
        logged("BTC-USD", 1, Side::Sell, 100, 5),
        logged("ETH-USD", 1, Side::Sell, 100, 5),
        logged("BTC-USD", 1, Side::Buy, 10, 2),
    ];
    assert_eq!(
        replay_orders(&log).err(),
        Some(ReplayError { position: 2, reason: Rejection::DuplicateOrderId })
    );
}

fn busy_engine() -> MatchingEngine {
    let mut engine = MatchingEngine::new("BTC-USD");
    for o in vec![
        logged("BTC-USD", 1, Side::Sell, 110, 5),
        logged("BTC-USD", 2, Side::Sell, 105, 5),
        logged("BTC-USD", 3, Side::Sell, 105, 7),
        logged("BTC-USD", 4, Side::Buy, 95, 5),
        logged("BTC-USD", 5, Side::Buy, 99, 5),
        logged("BTC-USD", 6, Side::Buy, 99, 1),
        logged("BTC-USD", 7, Side::Buy, 105, 3),
    ] {
        assert!(engine.admits(&o));
        engine.submit(o);
    }
    engine
}

#[test]
fn snapshot_lists_the_state() {
    let engine = busy_engine();
    let taken = snapshot(&engine);
    assert_eq!(taken.market, "BTC-USD");
    assert_eq!(taken.sequence, 1);
    let listed: Vec<(u128, u64, u64)> =
        taken.orders.iter().map(|o| (o.id.0, o.price.0, o.quantity)).collect();
    assert_eq!(
        listed,
        vec![(4, 95, 5), (5, 99, 5), (6, 99, 1), (2, 105, 2), (3, 105, 7), (1, 110, 5)]
    );
    assert_eq!(taken.orders[0].timestamp, 1004);
}

#[test]
fn restored_engine_goes_on_as_the_live_one() {
    let mut live = busy_engine();
    let mut restored = restore(&snapshot(&live)).unwrap();
    assert_eq!(restored.market(), live.market());
    assert_eq!(restored.sequence(), live.sequence());
    let next = vec![
        logged("BTC-USD", 8, Side::Buy, 105, 4),
        logged("BTC-USD", 9, Side::Sell, 99, 8),
        logged("BTC-USD", 10, Side::Buy, 200, 50),
    ];
    for o in next {
        let a = live.submit(o.clone());
        let b = restored.submit(o);
        assert_eq!(a.len(), b.len());
        assert!(!a.is_empty());
        for (x, y) in a.iter().zip(b.iter()) {
            assert_eq!(x.buy_order, y.buy_order);
            assert_eq!(x.sell_order, y.sell_order);
            assert_eq!(x.price, y.price);
            assert_eq!(x.quantity, y.quantity);
            assert_eq!(x.sequence, y.sequence);
            assert_eq!(x.market, y.market);
        }
    }
    let a = snapshot(&live);
    let b = snapshot(&restored);
    assert_eq!(a.sequence, b.sequence);
    assert_eq!(a.orders.len(), b.orders.len());
    for (x, y) in a.orders.iter().zip(b.orders.iter()) {
        assert_eq!(x.id, y.id);
        assert_eq!(x.quantity, y.quantity);
        assert_eq!(x.price, y.price);
        assert_eq!(x.side, y.side);
        assert_eq!(x.timestamp, y.timestamp);
    }
}

#[test]
fn next_trade_after_restore_follows_the_counter() {
    let taken = EngineSnapshot {
        market: "BTC-USD".to_string(),
        sequence: 41,
        orders: vec![logged("BTC-USD", 1, Side::Sell, 100, 5)],
    };
    let mut engine = restore(&taken).unwrap();
    let trades = engine.submit(logged("BTC-USD", 2, Side::Buy, 100, 1));
    assert_eq!(trades[0].sequence, 42);
}

#[test]
fn restore_refuses_what_is_no_state() {
    let crossed = EngineSnapshot {
        market: "BTC-USD".to_string(),
        sequence: 0,
        orders: vec![logged("BTC-USD", 1, Side::Buy, 100, 5), logged("BTC-USD", 2, Side::Sell, 100, 5)],
    };
    assert!(restore(&crossed).is_none());
    let twice = EngineSnapshot {
        market: "BTC-USD".to_string(),
        sequence: 0,
        orders: vec![logged("BTC-USD", 1, Side::Buy, 100, 5), logged("BTC-USD", 1, Side::Buy, 99, 5)],
    };
    assert!(restore(&twice).is_none());
    let empty_order = EngineSnapshot {
        market: "BTC-USD".to_string(),
        sequence: 0,
        orders: vec![logged("BTC-USD", 1, Side::Buy, 100, 0)],
    };
    assert!(restore(&empty_order).is_none());
    let nothing = EngineSnapshot { market: "BTC-USD".to_string(), sequence: 3, orders: vec![] };
    let engine = restore(&nothing).unwrap();
    assert_eq!(engine.sequence(), 3);
    assert_eq!(engine.orderbook().len(), 0);
}

#[test]
fn registry_snapshot_round_trip() {
    let log = vec![
        logged("BTC-USD", 1, Side::Sell, 100, 5),
        logged("ETH-USD", 2, Side::Sell, 10, 5),
        logged("BTC-USD", 3, Side::Buy, 100, 2),
        logged("BTC-USD", 4, Side::Buy, 99, 2),
        logged("SOL-USD", 5, Side::Buy, 7, 1),
    ];
    let registry = replay_orders(&log).ok().unwrap();
    let taken = snapshot_all(&registry);
    assert_eq!(taken.len(), 3);
    assert_eq!(taken[0].market, "BTC-USD");
    assert_eq!(taken[0].sequence, 1);
    assert_eq!(taken[0].orders.len(), 2);
    assert_eq!(taken[1].market, "ETH-USD");
    assert_eq!(taken[2].market, "SOL-USD");
    let mut again = restore_all(&taken).unwrap();
    assert_eq!(again.len(), 3);
    let btc = again.get_market("BTC-USD").unwrap();
    assert_eq!(btc.sequence(), 1);
    assert_eq!(btc.orderbook().get(OrderId(1)).unwrap().quantity, 3);
    assert_eq!(btc.orderbook().get(OrderId(4)).unwrap().quantity, 2);
    let trades = again.submit(logged("BTC-USD", 6, Side::Buy, 100, 1));
    assert_eq!(trades.len(), 1);
    assert_eq!(trades[0].sequence, 2);
    assert_eq!(trades[0].sell_order, OrderId(1));
}

#[test]
fn restore_all_refuses_a_market_twice() {
    let one = EngineSnapshot { market: "BTC-USD".to_string(), sequence: 0, orders: vec![] };
    let same = EngineSnapshot { market: "BTC-USD".to_string(), sequence: 5, orders: vec![] };
    assert!(restore_all(&vec![one.clone(), same]).is_none());
    let bad = EngineSnapshot {
        market: "ETH-USD".to_string(),
        sequence: 0,
        orders: vec![logged("ETH-USD", 1, Side::Buy, 100, 0)],
    };
    assert!(restore_all(&vec![one.clone(), bad]).is_none());
    let registry = restore_all(&vec![one]).unwrap();
    assert_eq!(registry.len(), 1);
    assert!(restore_all(&vec![]).unwrap().len() == 0);
}

#[test]
fn a_full_sequence_takes_no_order_that_could_trade() {
    let full = EngineSnapshot {
        market: "BTC-USD".to_string(),
        sequence: u64::MAX,
        orders: vec![
            logged("BTC-USD", 3, Side::Buy, 90, 5),
            logged("BTC-USD", 1, Side::Sell, 100, 5),
        ],
    };
    let engine = restore(&full).unwrap();
    assert!(!engine.admits(&logged("BTC-USD", 2, Side::Buy, 100, 1)));
    assert!(!engine.admits_replacement(&logged("BTC-USD", 1, Side::Sell, 90, 1)));
    let mut registry = restore_all(&vec![full]).unwrap();
    assert_eq!(
        submit_checked(&mut registry, logged("BTC-USD", 2, Side::Buy, 100, 1)).err(),
        Some(Rejection::SequenceExhausted)
    );
    assert_eq!(
        submit_checked(&mut registry, logged("BTC-USD", 1, Side::Buy, 100, 1)).err(),
        Some(Rejection::DuplicateOrderId)
    );
    assert_eq!(
        replace_checked(&mut registry, logged("BTC-USD", 1, Side::Sell, 90, 1)).err(),
        Some(Rejection::SequenceExhausted)
    );
    let book = registry.get_market("BTC-USD").unwrap().orderbook();
    assert_eq!(book.len(), 2);
    assert_eq!(book.get(OrderId(1)).unwrap().quantity, 5);
}

#[test]
fn the_last_sequence_number_can_be_given() {
    let nearly = EngineSnapshot {
        market: "BTC-USD".to_string(),
        sequence: u64::MAX - 1,
        orders: vec![logged("BTC-USD", 1, Side::Sell, 100, 5)],
    };
    let mut engine = restore(&nearly).unwrap();
    let taker = logged("BTC-USD", 2, Side::Buy, 100, 9);
    assert!(engine.admits(&taker));
    let trades = engine.submit(taker);
    assert_eq!(trades.len(), 1);
    assert_eq!(trades[0].sequence, u64::MAX);
    assert_eq!(trades[0].quantity, 5);
    assert_eq!(engine.sequence(), u64::MAX);
    assert_eq!(engine.orderbook().get(OrderId(2)).unwrap().quantity, 4);
    assert!(!engine.admits(&logged("BTC-USD", 3, Side::Sell, 100, 1)));
}

#[test]
fn a_full_sequence_takes_an_order_that_makes_no_trade() {
    let full = EngineSnapshot {
        market: "BTC-USD".to_string(),
        sequence: u64::MAX,
        orders: vec![logged("BTC-USD", 1, Side::Sell, 100, 5)],
    };
    let mut engine = restore(&full).unwrap();
    let below = logged("BTC-USD", 2, Side::Buy, 50, 3);
    assert!(engine.admits(&below));
    assert!(engine.submit(below).is_empty());
    assert_eq!(engine.sequence(), u64::MAX);
    assert_eq!(engine.orderbook().get(OrderId(2)).unwrap().quantity, 3);
    assert!(engine.admits(&logged("BTC-USD", 3, Side::Sell, 100, 1)));
    assert!(!engine.admits(&logged("BTC-USD", 3, Side::Sell, 50, 1)));
    assert!(engine.admits_replacement(&logged("BTC-USD", 2, Side::Sell, 60, 1)));
    assert!(!engine.admits_replacement(&logged("BTC-USD", 1, Side::Sell, 50, 1)));
    assert!(engine.admits_replacement(&logged("BTC-USD", 1, Side::Buy, 100, 1)));

    let mut registry = restore_all(&vec![full]).unwrap();
    let trades = submit_checked(&mut registry, logged("BTC-USD", 2, Side::Buy, 50, 3)).unwrap();
    assert!(trades.is_empty());
    let trades = replace_checked(&mut registry, logged("BTC-USD", 1, Side::Sell, 90, 4)).unwrap();
    assert!(trades.is_empty());
    let book = registry.get_market("BTC-USD").unwrap().orderbook();
    assert_eq!(book.len(), 2);
    assert_eq!(book.get(OrderId(1)).unwrap().quantity, 4);
}

#[test]
fn room_is_counted_in_trades_not_in_resting_orders() {
    let nearly = EngineSnapshot {
        market: "BTC-USD".to_string(),
        sequence: u64::MAX - 1,
        orders: vec![
            logged("BTC-USD", 1, Side::Sell, 100, 5),
            logged("BTC-USD", 2, Side::Sell, 100, 5),
            logged("BTC-USD", 3, Side::Sell, 101, 5),
        ],
    };
    let mut engine = restore(&nearly).unwrap();
    assert!(engine.admits(&logged("BTC-USD", 9, Side::Buy, 101, 5)));
    assert!(!engine.admits(&logged("BTC-USD", 9, Side::Buy, 101, 6)));
    assert!(engine.admits_replacement(&logged("BTC-USD", 1, Side::Buy, 101, 5)));
    assert!(!engine.admits_replacement(&logged("BTC-USD", 1, Side::Buy, 101, 6)));
    let trades = engine.submit(logged("BTC-USD", 9, Side::Buy, 101, 5));
    assert_eq!(trades.len(), 1);
    assert_eq!(trades[0].sequence, u64::MAX);
    assert_eq!(trades[0].sell_order, OrderId(1));
    assert_eq!(engine.orderbook().len(), 2);
}

#[test]
fn a_copy_of_a_book_holds_the_same_orders() {
    let engine = busy_engine();
    let copy = engine.orderbook().duplicate();
    let a: Vec<(u128, u64, u64)> =
        engine.orderbook().orders().iter().map(|o| (o.id.0, o.price.0, o.quantity)).collect();
    let b: Vec<(u128, u64, u64)> =
        copy.orders().iter().map(|o| (o.id.0, o.price.0, o.quantity)).collect();
    assert_eq!(a, b);
    assert_eq!(copy.len(), 6);
    assert_eq!(copy.best_bid_price(), engine.orderbook().best_bid_price());
    assert_eq!(copy.best_ask_price(), engine.orderbook().best_ask_price());
}
