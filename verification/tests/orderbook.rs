use matching_engine::engine::orderbook::OrderBook;
use matching_engine::models::order::Order;
use matching_engine::models::order::OrderId;
use matching_engine::models::price::Price;
use matching_engine::models::side::crosses;
use matching_engine::models::side::Side;

fn resting(id: u128, side: Side, price: u64, quantity: u64) -> Order {
    Order {
        id: OrderId(id),
        market: "BTC-USD".to_string(),
        wallet: "w".to_string(),
        side,
        price: Price(price),
        quantity,
        timestamp: id as u64,
    }
}

fn book_with(orders: Vec<Order>) -> OrderBook {
    let mut book = OrderBook::new();
    for o in orders {
        assert!(book.takes(&o));
        book.add(o);
    }
    book
}

#[test]
fn add_appends_to_the_level_queue() {
    let book = book_with(vec![
        resting(1, Side::Buy, 100, 5),
        resting(2, Side::Buy, 100, 6),
        resting(3, Side::Buy, 99, 7),
    ]);
    let (price, queue) = book.best_bid().unwrap();
    assert_eq!(price, Price(100));
    assert_eq!(queue.len(), 2);
    assert_eq!(queue[0].id, OrderId(1));
    assert_eq!(queue[1].id, OrderId(2));
    assert_eq!(book.len(), 3);
    assert!(book.contains(OrderId(3)));
    assert!(!book.contains(OrderId(4)));
}

#[test]
fn best_prices_are_the_extremes() {
    let book = book_with(vec![
        resting(1, Side::Buy, 90, 1),
        resting(2, Side::Buy, 95, 1),
        resting(3, Side::Buy, 93, 1),
        resting(4, Side::Sell, 110, 1),
        resting(5, Side::Sell, 105, 1),
        resting(6, Side::Sell, 120, 1),
    ]);
    assert_eq!(book.best_bid_price(), Some(Price(95)));
    assert_eq!(book.best_ask_price(), Some(Price(105)));
    assert_eq!(book.best_price(Side::Buy), Some(Price(95)));
    assert_eq!(book.best_price(Side::Sell), Some(Price(105)));
    assert_eq!(book.best_ask().unwrap().1[0].id, OrderId(5));
    assert_eq!(book.best_bid().unwrap().1[0].id, OrderId(2));
}

#[test]
fn an_empty_book_has_no_best() {
    let book = OrderBook::new();
    assert_eq!(book.best_bid_price(), None);
    assert_eq!(book.best_ask_price(), None);
    assert!(book.best_bid().is_none());
    assert!(book.best_ask().is_none());
    assert_eq!(book.len(), 0);
    assert!(book.orders().is_empty());
}

#[test]
fn fill_best_takes_from_the_head() {
    let mut book = book_with(vec![
        resting(1, Side::Sell, 100, 5),
        resting(2, Side::Sell, 100, 6),
        resting(3, Side::Sell, 101, 7),
    ]);
    let fill = book.fill_best(Side::Sell, 3);
    assert_eq!(fill.maker, OrderId(1));
    assert_eq!(fill.price, Price(100));
    assert_eq!(fill.quantity, 3);
    assert_eq!(book.get(OrderId(1)).unwrap().quantity, 2);
    assert_eq!(book.best_ask().unwrap().1[0].id, OrderId(1));

    let fill = book.fill_best(Side::Sell, 10);
    assert_eq!(fill.maker, OrderId(1));
    assert_eq!(fill.quantity, 2);
    assert!(!book.contains(OrderId(1)));
    assert_eq!(book.best_ask().unwrap().1[0].id, OrderId(2));

    let fill = book.fill_best(Side::Sell, 6);
    assert_eq!(fill.maker, OrderId(2));
    assert_eq!(fill.quantity, 6);
    assert_eq!(book.best_ask_price(), Some(Price(101)));
    assert_eq!(book.len(), 1);
}

#[test]
fn remove_by_id_takes_the_order_out() {
    let mut book = book_with(vec![
        resting(1, Side::Buy, 100, 5),
        resting(2, Side::Buy, 100, 6),
        resting(3, Side::Buy, 100, 7),
        resting(4, Side::Buy, 99, 8),
    ]);
    let removed = book.remove_by_id(OrderId(2)).unwrap();
    assert_eq!(removed.id, OrderId(2));
    assert_eq!(removed.quantity, 6);
    assert!(book.remove_by_id(OrderId(2)).is_none());
    let (_, queue) = book.best_bid().unwrap();
    assert_eq!(queue.len(), 2);
    assert_eq!(queue[0].id, OrderId(1));
    assert_eq!(queue[1].id, OrderId(3));
    assert!(book.remove_by_id(OrderId(1)).is_some());
    assert!(book.remove_by_id(OrderId(3)).is_some());
    assert_eq!(book.best_bid_price(), Some(Price(99)));
    assert!(book.remove_by_id(OrderId(4)).is_some());
    assert_eq!(book.best_bid_price(), None);
    assert_eq!(book.len(), 0);
}

#[test]
fn remove_by_id_of_an_unknown_id_changes_nothing() {
    let mut book = book_with(vec![resting(1, Side::Buy, 100, 5)]);
    assert!(book.remove_by_id(OrderId(9)).is_none());
    assert_eq!(book.len(), 1);
    assert_eq!(book.get(OrderId(1)).unwrap().quantity, 5);
}

#[test]
fn get_copies_the_resting_order() {
    let book = book_with(vec![resting(1, Side::Sell, 100, 5), resting(2, Side::Sell, 100, 6)]);
    let found = book.get(OrderId(2)).unwrap();
    assert_eq!(found.id, OrderId(2));
    assert_eq!(found.side, Side::Sell);
    assert_eq!(found.price, Price(100));
    assert_eq!(found.quantity, 6);
    assert_eq!(found.wallet, "w");
    assert_eq!(found.timestamp, 2);
    assert!(book.get(OrderId(3)).is_none());
}

#[test]
fn orders_lists_bids_then_asks_by_rising_price() {
    let book = book_with(vec![
        resting(1, Side::Sell, 110, 1),
        resting(2, Side::Buy, 95, 1),
        resting(3, Side::Sell, 105, 1),
        resting(4, Side::Buy, 90, 1),
        resting(5, Side::Buy, 95, 1),
        resting(6, Side::Sell, 105, 1),
    ]);
    let ids: Vec<u128> = book.orders().iter().map(|o| o.id.0).collect();
    assert_eq!(ids, vec![4, 2, 5, 3, 6, 1]);
}

#[test]
fn cleanup_leaves_a_book_as_it_is() {
    let mut book = book_with(vec![
        resting(1, Side::Sell, 110, 1),
        resting(2, Side::Buy, 95, 1),
        resting(3, Side::Sell, 105, 2),
    ]);
    book.fill_best(Side::Sell, 2);
    book.cleanup();
    let ids: Vec<u128> = book.orders().iter().map(|o| o.id.0).collect();
    assert_eq!(ids, vec![2, 1]);
    assert_eq!(book.best_ask_price(), Some(Price(110)));
    assert_eq!(book.len(), 2);
}

#[test]
fn takes_refuses_what_would_break_the_book() {
    let book = book_with(vec![resting(1, Side::Sell, 100, 5), resting(2, Side::Buy, 90, 5)]);
    assert!(!book.takes(&resting(1, Side::Sell, 120, 1)));
    assert!(!book.takes(&resting(3, Side::Sell, 120, 0)));
    assert!(!book.takes(&resting(3, Side::Buy, 100, 1)));
    assert!(!book.takes(&resting(3, Side::Sell, 90, 1)));
    assert!(book.takes(&resting(3, Side::Buy, 99, 1)));
    assert!(book.takes(&resting(3, Side::Sell, 91, 1)));
}

#[test]
fn crossing_is_at_or_through_the_price() {
    assert!(crosses(Side::Buy, 100, 100));
    assert!(crosses(Side::Buy, 101, 100));
    assert!(!crosses(Side::Buy, 99, 100));
    assert!(crosses(Side::Sell, 100, 100));
    assert!(crosses(Side::Sell, 99, 100));
    assert!(!crosses(Side::Sell, 101, 100));
    assert_eq!(Side::Buy.opposite(), Side::Sell);
    assert_eq!(Side::Sell.opposite(), Side::Buy);
}
