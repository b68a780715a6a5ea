use matching_engine::decimal::{Decimal, MAX_MANTISSA};
use matching_engine::error::EngineError;
use matching_engine::limit::Limit;
use matching_engine::log::{DoneReason, Log, LogType};
use matching_engine::order::{BidOrAsk, Order};
use std::str::FromStr;

fn dec(text: &str) -> Decimal {
    let d = rust_decimal::Decimal::from_str(text).unwrap();
    Decimal::new(d.mantissa(), d.scale()).unwrap()
}

fn ask(id: &str, price: &str, size: &str) -> Order {
    Order::new(id.to_string(), BidOrAsk::Ask, dec(price), dec(size)).unwrap()
}

fn bid(id: &str, price: &str, size: &str) -> Order {
    Order::new(id.to_string(), BidOrAsk::Bid, dec(price), dec(size)).unwrap()
}

fn level(price: &str, orders: &[(&str, &str)]) -> Limit {
    let mut limit = Limit::new(dec(price));
    for (i, (id, size)) in orders.iter().enumerate() {
        limit.add_order(ask(id, price, size), i as i64 + 1);
    }
    limit
}

fn ids(limit: &Limit) -> Vec<String> {
    limit.orders().iter().map(|o| o.id().clone()).collect()
}

#[test]
fn add_order_appends_and_records() {
    let mut limit = Limit::new(dec("100"));
    let first = limit.add_order(ask("A1", "100", "10"), 7);
    let second = limit.add_order(ask("A2", "100", "5"), 8);
    assert_eq!(ids(&limit), vec!["A1", "A2"]);
    assert_eq!(first.get_seq(), 7);
    assert_eq!(second.get_seq(), 8);
    assert_eq!(first.order_id(), "A1");
    assert_eq!(first.size(), dec("10"));
    assert_eq!(first.price(), dec("100"));
    assert_eq!(first.side(), BidOrAsk::Ask);
    assert_eq!(first.base().log_type(), LogType::Open);
    assert_eq!(first.base().pair(), "PAIR");
    assert_eq!(first.base().sequence(), 7);
}

#[test]
fn add_order_takes_the_price_of_the_level() {
    let mut limit = Limit::new(dec("120"));
    let log = limit.add_order(ask("A1", "10", "3"), 1);
    assert_eq!(limit.orders()[0].price(), dec("120"));
    assert_eq!(limit.orders()[0].size(), dec("3"));
    assert_eq!(log.price(), dec("120"));
}

#[test]
fn contains_finds_resting_ids_only() {
    let limit = level("100", &[("A1", "10"), ("A2", "5")]);
    assert!(limit.contains(&"A1".to_string()));
    assert!(limit.contains(&"A2".to_string()));
    assert!(!limit.contains(&"A3".to_string()));
    assert!(!Limit::new(dec("1")).contains(&"A1".to_string()));
}

#[test]
fn total_volume_adds_the_sizes() {
    let limit = level("100", &[("A1", "10"), ("A2", "5"), ("A3", "0.25")]);
    assert_eq!(limit.total_volume(), Some(dec("15.25")));
    assert_eq!(Limit::new(dec("100")).total_volume(), Some(Decimal::zero()));
}

#[test]
fn total_volume_is_none_beyond_what_a_decimal_holds() {
    let most = Decimal::new(MAX_MANTISSA, 9).unwrap();
    let price = dec("1");
    let mut limit = Limit::new(price);
    limit.add_order(Order::new("A1".to_string(), BidOrAsk::Ask, price, most).unwrap(), 1);
    assert_eq!(limit.total_volume(), Some(most));
    limit.add_order(ask("A2", "1", "0.000000001"), 2);
    assert_eq!(limit.total_volume(), None);
}

#[test]
fn cancel_takes_out_one_order_and_keeps_the_queue() {
    let mut limit = level("100", &[("A1", "10"), ("A2", "5"), ("A3", "7")]);
    let done = limit.cancel_order("A2".to_string(), 9).unwrap();
    assert_eq!(ids(&limit), vec!["A1", "A3"]);
    assert_eq!(done.get_seq(), 9);
    assert_eq!(done.order_id(), "A2");
    assert_eq!(done.price(), dec("100"));
    assert_eq!(done.remaining_size(), dec("5"));
    assert_eq!(done.reason(), DoneReason::Deleted);
    assert_eq!(done.side(), BidOrAsk::Ask);
    assert_eq!(done.base().log_type(), LogType::Done);
    assert_eq!(done.base().pair(), "PAIR");
}

#[test]
fn cancel_reports_what_was_left_after_a_partial_fill() {
    let mut limit = level("100", &[("A1", "10")]);
    let mut taker = bid("M", "100", "4");
    limit.fill_order(&mut taker, 1);
    let done = limit.cancel_order("A1".to_string(), 2).unwrap();
    assert_eq!(done.remaining_size(), dec("6"));
    assert!(limit.orders().is_empty());
}

#[test]
fn cancel_of_an_unknown_id_changes_nothing() {
    let mut limit = level("100", &[("A1", "10"), ("A2", "5")]);
    let result = limit.cancel_order("ghost".to_string(), 3);
    assert_eq!(result.err(), Some(EngineError::NotFound));
    assert_eq!(ids(&limit), vec!["A1", "A2"]);
    assert_eq!(limit.orders()[0].size(), dec("10"));
    assert_eq!(limit.orders()[1].size(), dec("5"));
    let empty = Limit::new(dec("100")).cancel_order("A1".to_string(), 1);
    assert_eq!(empty.err(), Some(EngineError::NotFound));
}

#[test]
fn fill_records_each_step_in_order() {
    let mut limit = level("100", &[("A1", "10"), ("A2", "5")]);
    let mut taker = bid("M1", "100", "12");
    let events = limit.fill_order(&mut taker, 40);
    assert_eq!(events.len(), 3);
    match &events[0] {
        Log::Match(m) => {
            assert_eq!(m.get_seq(), 40);
            assert_eq!(m.taker_order_id(), "M1");
            assert_eq!(m.maker_order_id(), "A1");
            assert_eq!(m.price(), dec("100"));
            assert_eq!(m.size(), dec("10"));
            assert_eq!(m.base().log_type(), LogType::Match);
            assert_eq!(m.base().pair(), "PAIR");
        }
        other => panic!("expected a fill step, got {:?}", other),
    }
    match &events[1] {
        Log::Done(d) => {
            assert_eq!(d.get_seq(), 41);
            assert_eq!(d.order_id(), "A1");
            assert_eq!(d.price(), dec("100"));
            assert_eq!(d.remaining_size(), dec("0"));
            assert_eq!(d.reason(), DoneReason::Filled);
            assert_eq!(d.side(), BidOrAsk::Ask);
        }
        other => panic!("expected the record of a drained order, got {:?}", other),
    }
    match &events[2] {
        Log::Match(m) => {
            assert_eq!(m.get_seq(), 42);
            assert_eq!(m.maker_order_id(), "A2");
            assert_eq!(m.size(), dec("2"));
        }
        other => panic!("expected a fill step, got {:?}", other),
    }
    assert_eq!(events[0].get_seq(), 40);
    assert_eq!(events[1].log_type(), LogType::Done);
    assert_eq!(taker.size(), dec("0"));
    assert_eq!(ids(&limit), vec!["A2"]);
    assert_eq!(limit.orders()[0].size(), dec("3"));
}

#[test]
fn fill_keeps_a_partly_filled_order_at_the_head_of_the_queue() {
    let mut limit = level("100", &[("A1", "10"), ("A2", "5"), ("A3", "7")]);
    let mut taker = bid("M", "100", "12");
    limit.fill_order(&mut taker, 1);
    assert_eq!(ids(&limit), vec!["A2", "A3"]);
    assert_eq!(limit.orders()[0].size(), dec("3"));
    assert_eq!(limit.orders()[1].size(), dec("7"));
    // The next taker meets the partly filled order first.
    let mut next = bid("N", "100", "4");
    let events = limit.fill_order(&mut next, 10);
    assert_eq!(events.len(), 3);
    match &events[0] {
        Log::Match(m) => {
            assert_eq!(m.maker_order_id(), "A2");
            assert_eq!(m.size(), dec("3"));
        }
        other => panic!("expected a fill step, got {:?}", other),
    }
    match &events[2] {
        Log::Match(m) => {
            assert_eq!(m.maker_order_id(), "A3");
            assert_eq!(m.size(), dec("1"));
        }
        other => panic!("expected a fill step, got {:?}", other),
    }
    assert_eq!(ids(&limit), vec!["A3"]);
    assert_eq!(limit.orders()[0].size(), dec("6"));
}

#[test]
fn fill_of_equal_sizes_drains_both() {
    let mut limit = level("100", &[("A1", "5"), ("A2", "5")]);
    let mut taker = bid("M", "100", "5");
    let events = limit.fill_order(&mut taker, 1);
    assert_eq!(events.len(), 2);
    assert_eq!(events[0].log_type(), LogType::Match);
    assert_eq!(events[1].log_type(), LogType::Done);
    assert!(taker.is_filled());
    assert_eq!(ids(&limit), vec!["A2"]);
    assert_eq!(limit.orders()[0].size(), dec("5"));
}

#[test]
fn fill_tells_a_billionth_apart() {
    // The maker has one billionth more than the taker: it is not drained.
    let mut limit = level("100", &[("A1", "5.000000001")]);
    let mut taker = bid("M", "100", "5");
    let events = limit.fill_order(&mut taker, 1);
    assert_eq!(events.len(), 1);
    assert!(taker.is_filled());
    assert_eq!(limit.orders()[0].size(), dec("0.000000001"));
    // The taker has one billionth more than the maker: it is not filled.
    let mut limit = level("100", &[("A1", "5")]);
    let mut taker = bid("M", "100", "5.000000001");
    let events = limit.fill_order(&mut taker, 1);
    assert_eq!(events.len(), 2);
    assert_eq!(taker.size(), dec("0.000000001"));
    assert!(limit.orders().is_empty());
}

#[test]
fn fill_subtracts_exactly_with_fractions() {
    let mut limit = level("100", &[("A1", "1.5")]);
    let mut taker = bid("M", "100", "0.25");
    let events = limit.fill_order(&mut taker, 1);
    assert_eq!(events.len(), 1);
    match &events[0] {
        Log::Match(m) => assert_eq!(m.size(), dec("0.25")),
        other => panic!("expected a fill step, got {:?}", other),
    }
    assert_eq!(limit.orders()[0].size(), dec("1.25"));
    assert_eq!(taker.size(), dec("0"));
    let mut big = bid("B", "100", "3");
    limit.fill_order(&mut big, 2);
    assert_eq!(big.size(), dec("1.75"));
    assert!(limit.orders().is_empty());
}

#[test]
fn fill_of_the_largest_sizes_is_exact() {
    let most = Decimal::new(MAX_MANTISSA, 9).unwrap();
    let price = dec("1");
    let mut limit = Limit::new(price);
    limit.add_order(Order::new("A1".to_string(), BidOrAsk::Ask, price, most).unwrap(), 1);
    let mut taker =
        Order::new("M".to_string(), BidOrAsk::Bid, price, Decimal::new(MAX_MANTISSA - 1, 9).unwrap())
            .unwrap();
    limit.fill_order(&mut taker, 2);
    assert!(taker.is_filled());
    assert_eq!(limit.orders()[0].size(), dec("0.000000001"));
}

#[test]
fn fill_against_an_empty_level_does_nothing() {
    let mut limit = Limit::new(dec("100"));
    let mut taker = bid("M", "100", "5");
    let events = limit.fill_order(&mut taker, 1);
    assert!(events.is_empty());
    assert_eq!(taker.size(), dec("5"));
}

#[test]
fn fill_with_a_filled_order_does_nothing() {
    let mut limit = level("100", &[("A1", "5")]);
    let mut taker = bid("M", "100", "5");
    limit = {
        let mut other = level("100", &[("X", "5")]);
        other.fill_order(&mut taker, 1);
        limit
    };
    assert!(taker.is_filled());
    let events = limit.fill_order(&mut taker, 5);
    assert!(events.is_empty());
    assert_eq!(limit.orders()[0].size(), dec("5"));
}

#[test]
fn fill_takes_all_that_rests_and_leaves_the_remainder() {
    let mut limit = level("100", &[("A1", "10"), ("A2", "5")]);
    let mut taker = bid("M", "100", "100");
    let events = limit.fill_order(&mut taker, 1);
    assert_eq!(events.len(), 4);
    let numbers: Vec<i64> = events.iter().map(|e| e.get_seq()).collect();
    assert_eq!(numbers, vec![1, 2, 3, 4]);
    assert_eq!(taker.size(), dec("85"));
    assert!(limit.orders().is_empty());
}

#[test]
fn clone_of_a_level_is_the_same_level() {
    let limit = level("100", &[("A1", "10"), ("A2", "5")]);
    let copy = limit.clone();
    assert_eq!(copy.price(), limit.price());
    assert_eq!(ids(&copy), ids(&limit));
    assert_eq!(copy.orders()[1].size(), dec("5"));
}
