use matching_engine::decimal::Decimal;
use matching_engine::error::EngineError;
use matching_engine::limit::Limit;
use matching_engine::order::{BidOrAsk, Order};
use matching_engine::order_book::OrderBook;
use matching_engine::snapshot::{Snapshot, SnapshotData};
use std::str::FromStr;

fn dec(text: &str) -> Decimal {
    let d = rust_decimal::Decimal::from_str(text).unwrap();
    Decimal::new(d.mantissa(), d.scale()).unwrap()
}

fn order(id: &str, side: BidOrAsk, price: &str, size: &str) -> Order {
    Order::new(id.to_string(), side, dec(price), dec(size)).unwrap()
}

fn rest(book: &mut OrderBook, order: Order) {
    let price = order.price();
    book.add_limit_order(price, order);
}

// Every resting order as (id, side, price, size), level after level.
fn tuples(levels: &[Limit]) -> Vec<(String, BidOrAsk, Decimal, Decimal)> {
    levels
        .iter()
        .flat_map(|level| {
            level.orders().iter().map(|o| (o.id().clone(), o.side(), o.price(), o.size()))
        })
        .collect()
}

fn listed(orders: &[Order]) -> Vec<(String, BidOrAsk, Decimal, Decimal)> {
    orders.iter().map(|o| (o.id().clone(), o.side(), o.price(), o.size())).collect()
}

fn sample_book() -> OrderBook {
    let mut book = OrderBook::new();
    rest(&mut book, order("A1", BidOrAsk::Ask, "105", "1"));
    rest(&mut book, order("B1", BidOrAsk::Bid, "95", "2"));
    rest(&mut book, order("A2", BidOrAsk::Ask, "101", "3"));
    rest(&mut book, order("B2", BidOrAsk::Bid, "99", "4"));
    rest(&mut book, order("A3", BidOrAsk::Ask, "105", "5"));
    rest(&mut book, order("B3", BidOrAsk::Bid, "99", "6"));
    let mut taker = order("M", BidOrAsk::Bid, "1", "2");
    book.fill_market_order(&mut taker);
    book
}

#[test]
fn snapshot_lists_asks_upwards_then_bids_downwards() {
    let book = sample_book();
    let snapshot = book.snapshot("BTC-USD".to_string());
    assert_eq!(snapshot.pair(), "BTC-USD");
    let ids: Vec<&str> = snapshot.orders().iter().map(|o| o.id().as_str()).collect();
    assert_eq!(ids, vec!["A2", "A1", "A3", "B2", "B3", "B1"]);
    assert_eq!(snapshot.orders()[0].size(), dec("1"));
    assert_eq!(snapshot.log_seq(), 7);
    assert_eq!(snapshot.trade_seq(), 7);
    assert_eq!(snapshot.orders.len(), 6);
}

#[test]
fn snapshot_leaves_the_book_as_it_is() {
    let book = sample_book();
    let asks = tuples(&book.ask_limits());
    let bids = tuples(&book.bid_limits());
    let _ = book.snapshot("X".to_string());
    assert_eq!(tuples(&book.ask_limits()), asks);
    assert_eq!(tuples(&book.bid_limits()), bids);
    assert_eq!(book.sequence(), 7);
}

#[test]
fn snapshot_of_an_empty_book_is_empty() {
    let snapshot = OrderBook::new().snapshot("X".to_string());
    assert!(snapshot.orders().is_empty());
    assert_eq!(snapshot.log_seq(), 0);
    assert_eq!(snapshot.trade_seq(), 0);
}

#[test]
fn restore_of_a_snapshot_gives_the_same_book() {
    let book = sample_book();
    let snapshot = book.snapshot("X".to_string());
    let mut restored = OrderBook::new();
    assert_eq!(restored.restore(snapshot), Ok(()));

    assert_eq!(tuples(&restored.ask_limits()), tuples(&book.ask_limits()));
    assert_eq!(tuples(&restored.bid_limits()), tuples(&book.bid_limits()));
    let prices = |levels: &[Limit]| -> Vec<Decimal> { levels.iter().map(|l| l.price()).collect() };
    assert_eq!(prices(&restored.ask_limits()), prices(&book.ask_limits()));
    assert_eq!(prices(&restored.bid_limits()), prices(&book.bid_limits()));
    assert_eq!(restored.sequence(), book.sequence());
    assert_eq!(restored.last_trade(), book.last_trade());
}

#[test]
fn restore_replaces_the_book_and_goes_on_counting() {
    let snapshot = sample_book().snapshot("X".to_string());
    let mut book = OrderBook::new();
    rest(&mut book, order("OLD", BidOrAsk::Ask, "1", "1"));
    assert_eq!(book.restore(snapshot), Ok(()));
    assert!(!book.contains_order(&"OLD".to_string()));
    assert!(book.contains_order(&"A3".to_string()));
    assert_eq!(book.sequence(), 7);

    // The next record follows the snapshot's last.
    let log = book.add_limit_order(dec("200"), order("A9", BidOrAsk::Ask, "200", "1"));
    assert_eq!(log.get_seq(), 8);
    let mut taker = order("M2", BidOrAsk::Ask, "1", "1");
    let events = book.fill_market_order(&mut taker);
    assert_eq!(events[0].get_seq(), 9);
    assert_eq!(book.last_trade(), 9);
}

#[test]
fn restore_takes_orders_in_any_order() {
    let orders = vec![
        order("B1", BidOrAsk::Bid, "95", "2"),
        order("A1", BidOrAsk::Ask, "105", "1"),
        order("A2", BidOrAsk::Ask, "101", "3"),
        order("A3", BidOrAsk::Ask, "105", "5"),
    ];
    let snapshot = SnapshotData::new("X".to_string(), orders, 12, 10);
    let mut book = OrderBook::new();
    assert_eq!(book.restore(snapshot), Ok(()));
    let ids: Vec<String> = tuples(&book.ask_limits()).into_iter().map(|t| t.0).collect();
    assert_eq!(ids, vec!["A2", "A1", "A3"]);
    assert_eq!(book.bid_limits().len(), 1);
    assert_eq!(book.sequence(), 12);
    assert_eq!(book.last_trade(), 10);
}

fn untouched(book: &OrderBook) {
    assert_eq!(
        tuples(&book.ask_limits()),
        vec![("KEEP".to_string(), BidOrAsk::Ask, dec("7"), dec("1"))]
    );
    assert!(book.bid_limits().is_empty());
    assert_eq!(book.sequence(), 1);
    assert_eq!(book.last_trade(), 0);
}

fn kept_book() -> OrderBook {
    let mut book = OrderBook::new();
    rest(&mut book, order("KEEP", BidOrAsk::Ask, "7", "1"));
    book
}

#[test]
fn restore_refuses_an_id_that_comes_twice() {
    let orders = vec![
        order("A1", BidOrAsk::Ask, "105", "1"),
        order("A2", BidOrAsk::Ask, "101", "3"),
        order("A1", BidOrAsk::Bid, "95", "2"),
    ];
    let mut book = kept_book();
    let result = book.restore(SnapshotData::new("X".to_string(), orders, 3, 0));
    assert_eq!(result, Err(EngineError::MalformedSnapshot));
    untouched(&book);
}

#[test]
fn restore_refuses_an_order_with_nothing_left() {
    let mut filled = order("F", BidOrAsk::Bid, "1", "1");
    let mut other = kept_book();
    other.fill_market_order(&mut filled);
    assert!(filled.is_filled());

    let orders = vec![order("A1", BidOrAsk::Ask, "105", "1"), filled];
    let mut book = kept_book();
    let result = book.restore(SnapshotData::new("X".to_string(), orders, 3, 0));
    assert_eq!(result, Err(EngineError::MalformedSnapshot));
    untouched(&book);
}

#[test]
fn restore_refuses_counters_that_no_book_has() {
    let mut book = kept_book();
    let negative = SnapshotData::new("X".to_string(), Vec::new(), 5, -1);
    assert_eq!(book.restore(negative), Err(EngineError::MalformedSnapshot));
    untouched(&book);
    let ahead = SnapshotData::new("X".to_string(), Vec::new(), 5, 6);
    assert_eq!(book.restore(ahead), Err(EngineError::MalformedSnapshot));
    untouched(&book);
    let both = SnapshotData::new("X".to_string(), Vec::new(), -2, -2);
    assert_eq!(book.restore(both), Err(EngineError::MalformedSnapshot));
    untouched(&book);
    let level = SnapshotData::new("X".to_string(), Vec::new(), 5, 5);
    assert_eq!(book.restore(level), Ok(()));
    assert_eq!(book.sequence(), 5);
    assert!(book.ask_limits().is_empty());
}

#[test]
fn construct_snapshot_flattens_the_levels_it_is_given() {
    let book = sample_book();
    let maker = Snapshot::new("ETH-USD".to_string());
    let snapshot = maker.construct_snapshot(book.ask_limits(), book.bid_limits(), 4, 9);
    assert_eq!(snapshot.pair(), "ETH-USD");
    assert_eq!(snapshot.trade_seq(), 4);
    assert_eq!(snapshot.log_seq(), 9);
    let mut expected = tuples(&book.ask_limits());
    expected.extend(tuples(&book.bid_limits()));
    assert_eq!(listed(snapshot.orders()), expected);

    let none = maker.construct_snapshot(Vec::new(), Vec::new(), 0, 0);
    assert!(none.orders.is_empty());
}
