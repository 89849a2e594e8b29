use matching_engine::engine::market::EngineError;
use matching_engine::engine::market::MarketRegistry;
use matching_engine::engine::matching::MatchingEngine;
use matching_engine::models::order::Order;
use matching_engine::models::order::OrderId;
use matching_engine::models::price::Price;
use matching_engine::models::side::Side;

fn order_in(market: &str, id: u128, side: Side, price: u64, quantity: u64) -> Order {
    Order {
        id: OrderId(id),
        market: market.to_string(),
        wallet: "w".to_string(),
        side,
        price: Price(price),
        quantity,
        timestamp: 0,
    }
}

#[test]
fn submit_makes_the_market() {
    let mut registry = MarketRegistry::new();
    assert!(registry.get_market("BTC-USD").is_none());
    assert_eq!(registry.len(), 0);
    let o = order_in("BTC-USD", 1, Side::Sell, 100, 5);
    assert!(registry.admits(&o));
    assert!(registry.submit(o).is_empty());
    let engine = registry.get_market("BTC-USD").unwrap();
    assert_eq!(engine.market(), "BTC-USD");
    assert_eq!(engine.orderbook().len(), 1);
    assert_eq!(registry.len(), 1);
    assert!(registry.get_market("btc-usd").is_none());
}

#[test]
fn markets_do_not_see_each_other() {
    let mut registry = MarketRegistry::new();
    registry.submit(order_in("BTC-USD", 1, Side::Sell, 100, 5));
    let trades = registry.submit(order_in("ETH-USD", 2, Side::Buy, 100, 5));
    assert!(trades.is_empty());
    let trades = registry.submit(order_in("BTC-USD", 3, Side::Buy, 100, 2));
    assert_eq!(trades.len(), 1);
    assert_eq!(trades[0].market, "BTC-USD");
    assert_eq!(trades[0].sequence, 1);
    let trades = registry.submit(order_in("ETH-USD", 4, Side::Sell, 100, 2));
    assert_eq!(trades.len(), 1);
    assert_eq!(trades[0].market, "ETH-USD");
    assert_eq!(trades[0].sequence, 1);
    assert_eq!(registry.len(), 2);
    assert_eq!(registry.get_market("BTC-USD").unwrap().orderbook().get(OrderId(1)).unwrap().quantity, 3);
    assert_eq!(registry.get_market("ETH-USD").unwrap().orderbook().get(OrderId(2)).unwrap().quantity, 3);
}

#[test]
fn cancel_names_what_is_missing() {
    let mut registry = MarketRegistry::new();
    assert_eq!(registry.cancel("BTC-USD", OrderId(1)), Err(EngineError::MarketNotFound));
    assert!(registry.get_market("BTC-USD").is_none());
    registry.submit(order_in("BTC-USD", 1, Side::Sell, 100, 5));
    assert_eq!(registry.cancel("BTC-USD", OrderId(2)), Err(EngineError::OrderNotFound));
    assert_eq!(registry.cancel("BTC-USD", OrderId(1)), Ok(()));
    assert_eq!(registry.cancel("BTC-USD", OrderId(1)), Err(EngineError::OrderNotFound));
    assert_eq!(registry.get_market("BTC-USD").unwrap().orderbook().len(), 0);
}

#[test]
fn replace_needs_the_market() {
    let mut registry = MarketRegistry::new();
    let o = order_in("BTC-USD", 1, Side::Sell, 100, 5);
    assert!(registry.admits_replacement(&o));
    assert_eq!(registry.replace(o).err(), Some(EngineError::MarketNotFound));
    assert!(registry.get_market("BTC-USD").is_none());
    registry.submit(order_in("BTC-USD", 1, Side::Sell, 100, 5));
    let trades = registry.replace(order_in("BTC-USD", 1, Side::Sell, 101, 6)).unwrap();
    assert!(trades.is_empty());
    let book = registry.get_market("BTC-USD").unwrap().orderbook();
    assert_eq!(book.len(), 1);
    assert_eq!(book.best_ask_price(), Some(Price(101)));
    assert_eq!(book.get(OrderId(1)).unwrap().quantity, 6);
}

#[test]
fn registry_admits_as_its_engines_do() {
    let mut registry = MarketRegistry::new();
    assert!(!registry.admits(&order_in("BTC-USD", 1, Side::Sell, 100, 0)));
    registry.submit(order_in("BTC-USD", 1, Side::Sell, 100, 5));
    assert!(!registry.admits(&order_in("BTC-USD", 1, Side::Buy, 10, 5)));
    assert!(registry.admits(&order_in("ETH-USD", 1, Side::Buy, 10, 5)));
    assert!(!registry.admits_replacement(&order_in("BTC-USD", 1, Side::Buy, 10, 0)));
}

#[test]
fn errors_say_what_they_are() {
    assert_eq!(EngineError::MarketNotFound.message(), "Market not found");
    assert_eq!(EngineError::OrderNotFound.message(), "Order not found");
}

#[test]
fn default_registry_is_empty() {
    let registry = MarketRegistry::default();
    assert_eq!(registry.len(), 0);
}

#[test]
fn adopt_takes_an_engine_once() {
    let mut registry = MarketRegistry::new();
    assert!(registry.adopt(MatchingEngine::new("BTC-USD")));
    assert!(!registry.adopt(MatchingEngine::new("BTC-USD")));
    assert!(registry.adopt(MatchingEngine::new("ETH-USD")));
    assert_eq!(registry.len(), 2);
    let names: Vec<String> = registry.engines().iter().map(|e| e.market().clone()).collect();
    assert_eq!(names, vec!["BTC-USD".to_string(), "ETH-USD".to_string()]);
}
