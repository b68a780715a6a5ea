use matching_engine::decimal::Decimal;
use matching_engine::limit::Limit;
use matching_engine::order::{BidOrAsk, Order};
use matching_engine::order_book::OrderBook;
use std::str::FromStr;

fn dec(text: &str) -> Decimal {
    let d = rust_decimal::Decimal::from_str(text).unwrap();
    Decimal::new(d.mantissa(), d.scale()).unwrap()
}

fn level_at(levels: &[Limit], price: Decimal) -> Option<&Limit> {
    levels.iter().find(|level| level.price() == price)
}

#[test]
fn test_new_order_book() {
    let order_book = OrderBook::new();

    assert!(order_book.ask_limits().is_empty(), "Expected asks to be empty");
    assert!(order_book.bid_limits().is_empty(), "Expected bids to be empty");
}

#[test]
fn test_add_limit_order_bid() {
    let mut order_book = OrderBook::new();
    let price = dec("100.0");
    let order = Order::new("1".to_string(), BidOrAsk::Bid, price, dec("10")).unwrap();

    let log = order_book.add_limit_order(price, order);

    assert_eq!(order_book.bid_limits().len(), 1, "Expected one bid limit");
    assert!(
        level_at(&order_book.bid_limits(), price).is_some(),
        "Expected bid price level to exist"
    );
    assert_eq!(log.order_id(), "1", "Expected log order ID to match");
}

#[test]
fn test_add_limit_order_ask() {
    let mut order_book = OrderBook::new();
    let price = dec("200.0");
    let order = Order::new("2".to_string(), BidOrAsk::Ask, price, dec("5.0")).unwrap();

    let log = order_book.add_limit_order(price, order);

    assert_eq!(order_book.ask_limits().len(), 1, "Expected one ask limit");
    assert!(
        level_at(&order_book.ask_limits(), price).is_some(),
        "Expected ask price level to exist"
    );
    assert_eq!(log.order_id(), "2", "Expected log order ID to match");
}

#[test]
fn test_fill_market_order_bid() {
    let mut order_book = OrderBook::new();
    let price = dec("100.0");
    let limit_order = Order::new("1".to_string(), BidOrAsk::Ask, price, dec("10.0")).unwrap();
    order_book.add_limit_order(price, limit_order);

    let mut market_order = Order::new("2".to_string(), BidOrAsk::Bid, price, dec("5.0")).unwrap();
    let logs = order_book.fill_market_order(&mut market_order);

    assert_eq!(logs.len(), 1, "Expected one log for a partial fill");
    assert!(market_order.is_filled(), "Expected market order to be fully filled");
    assert_eq!(
        level_at(&order_book.ask_limits(), price).unwrap().orders().len(),
        1,
        "Expected limit order to remain with reduced size"
    );
}

#[test]
fn test_fill_market_order_ask() {
    let mut order_book = OrderBook::new();
    let price = dec("150.0");
    let limit_order = Order::new("1".to_string(), BidOrAsk::Bid, price, dec("20.0")).unwrap();
    order_book.add_limit_order(price, limit_order);

    let mut market_order = Order::new("2".to_string(), BidOrAsk::Ask, price, dec("15.0")).unwrap();
    let logs = order_book.fill_market_order(&mut market_order);

    assert_eq!(logs.len(), 1, "Expected one log for a partial fill");
    assert!(market_order.is_filled(), "Expected market order to be fully filled");
    assert_eq!(
        level_at(&order_book.bid_limits(), price).unwrap().orders().len(),
        1,
        "Expected limit order to remain with reduced size"
    );
}

// Both resting orders and the incoming one have size 120. The walk stops once
// the incoming order is filled: one fill step, and the record of the order
// that it drained.
#[test]
fn test_partial_fill_market_order() {
    let mut order_book = OrderBook::new();
    let price = dec("120.0");
    let limit_order1 = Order::new("1".to_string(), BidOrAsk::Ask, dec("10.0"), price).unwrap();
    let limit_order2 = Order::new("2".to_string(), BidOrAsk::Ask, dec("10.0"), price).unwrap();
    order_book.add_limit_order(price, limit_order1);
    order_book.add_limit_order(price, limit_order2);

    let mut market_order = Order::new("3".to_string(), BidOrAsk::Bid, dec("15.0"), price).unwrap();
    let logs = order_book.fill_market_order(&mut market_order);

    assert_eq!(logs.len(), 2, "Expected two logs for partial fills");
    assert!(market_order.is_filled(), "Expected market order to be fully filled");
    assert_eq!(
        level_at(&order_book.ask_limits(), price).unwrap().orders().len(),
        1,
        "Expected one remaining limit order"
    );
}

// Both resting orders and the incoming one have size 110: the first resting
// order fills the incoming one, and the second is never reached.
#[test]
fn test_fully_fill_limit_orders() {
    let mut order_book = OrderBook::new();
    let price = dec("110.0");
    let limit_order1 = Order::new("1".to_string(), BidOrAsk::Ask, dec("10.0"), price).unwrap();
    let limit_order2 = Order::new("2".to_string(), BidOrAsk::Ask, dec("10.0"), price).unwrap();
    order_book.add_limit_order(price, limit_order1);
    order_book.add_limit_order(price, limit_order2);

    let mut market_order = Order::new("3".to_string(), BidOrAsk::Bid, dec("20.0"), price).unwrap();
    let logs = order_book.fill_market_order(&mut market_order);

    assert_eq!(logs.len(), 2, "Expected two logs for complete fills");
    assert!(market_order.is_filled(), "Expected market order to be fully filled");
}
