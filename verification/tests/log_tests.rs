use matching_engine::decimal::Decimal;
use matching_engine::log::{
    pair_name, Base, DoneLog, DoneReason, Log, LogType, MatchLog, OpenLog, ReceivedLog,
};
use matching_engine::match_result::MatchResult;
use matching_engine::order::{BidOrAsk, Order};
use std::time::SystemTime;

fn dec(n: i128) -> Decimal {
    Decimal::new(n, 0).unwrap()
}

#[test]
fn base_keeps_its_parts() {
    let now = SystemTime::now();
    let base = Base::new(LogType::Match, 17, "BTC-USD".to_string(), now);
    assert_eq!(base.log_type(), LogType::Match);
    assert_eq!(base.sequence(), 17);
    assert_eq!(base.pair(), "BTC-USD");
    assert_eq!(base.time(), now);
}

#[test]
fn match_log_keeps_its_parts() {
    let before = SystemTime::now();
    let log = MatchLog::new(3, "PAIR".to_string(), "T".to_string(), "M".to_string(), dec(100), dec(2));
    assert_eq!(log.get_seq(), 3);
    assert_eq!(log.taker_order_id(), "T");
    assert_eq!(log.maker_order_id(), "M");
    assert_eq!(log.price(), dec(100));
    assert_eq!(log.size(), dec(2));
    assert_eq!(log.base().log_type(), LogType::Match);
    assert_eq!(log.base().pair(), "PAIR");
    assert!(log.base().time() >= before);
}

#[test]
fn open_log_keeps_its_parts() {
    let log =
        OpenLog::new(4, "PAIR".to_string(), "O".to_string(), dec(5), dec(101), BidOrAsk::Bid);
    assert_eq!(log.get_seq(), 4);
    assert_eq!(log.order_id(), "O");
    assert_eq!(log.size(), dec(5));
    assert_eq!(log.price(), dec(101));
    assert_eq!(log.side(), BidOrAsk::Bid);
    assert_eq!(log.base().log_type(), LogType::Open);
}

#[test]
fn done_log_keeps_its_parts() {
    let log = DoneLog::new(
        5,
        "PAIR".to_string(),
        "D".to_string(),
        dec(99),
        dec(7),
        DoneReason::Deleted,
        BidOrAsk::Ask,
    );
    assert_eq!(log.get_seq(), 5);
    assert_eq!(log.order_id(), "D");
    assert_eq!(log.price(), dec(99));
    assert_eq!(log.remaining_size(), dec(7));
    assert_eq!(log.reason(), DoneReason::Deleted);
    assert_eq!(log.side(), BidOrAsk::Ask);
    assert_eq!(log.base().log_type(), LogType::Done);
}

#[test]
fn received_log_keeps_its_parts() {
    let log = ReceivedLog::new(6, "PAIR".to_string(), "R".to_string(), dec(8), dec(98), 1);
    assert_eq!(log.get_seq(), 6);
    assert_eq!(log.order_id(), "R");
    assert_eq!(log.size(), dec(8));
    assert_eq!(log.price(), dec(98));
    assert_eq!(log.order_type(), 1);
    assert_eq!(log.base().log_type(), LogType::Received);
    assert_eq!(log.base().sequence(), 6);
}

#[test]
fn a_record_of_any_kind_tells_its_number_and_kind() {
    let records = vec![
        Log::Received(ReceivedLog::new(1, pair_name(), "R".to_string(), dec(1), dec(1), 0)),
        Log::Open(OpenLog::new(2, pair_name(), "O".to_string(), dec(1), dec(1), BidOrAsk::Bid)),
        Log::Match(MatchLog::new(3, pair_name(), "T".to_string(), "M".to_string(), dec(1), dec(1))),
        Log::Done(DoneLog::new(
            4,
            pair_name(),
            "D".to_string(),
            dec(1),
            dec(0),
            DoneReason::Filled,
            BidOrAsk::Ask,
        )),
    ];
    let numbers: Vec<i64> = records.iter().map(|r| r.get_seq()).collect();
    assert_eq!(numbers, vec![1, 2, 3, 4]);
    let kinds: Vec<LogType> = records.iter().map(|r| r.log_type()).collect();
    assert_eq!(kinds, vec![LogType::Received, LogType::Open, LogType::Match, LogType::Done]);
    assert_eq!(pair_name(), "PAIR");
}

#[test]
fn match_result_holds_both_orders() {
    let ask = Order::new("A".to_string(), BidOrAsk::Ask, dec(100), dec(3)).unwrap();
    let bid = Order::new("B".to_string(), BidOrAsk::Bid, dec(100), dec(5)).unwrap();
    let result = MatchResult { ask, bid, size_filled: dec(3), price: dec(100) };
    assert_eq!(result.ask.id(), "A");
    assert_eq!(result.bid.id(), "B");
    assert_eq!(result.size_filled, dec(3));
    assert_eq!(result.price, dec(100));
}
