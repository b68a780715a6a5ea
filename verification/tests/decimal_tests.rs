use matching_engine::decimal::{Decimal, MAX_MANTISSA, SCALE};
use matching_engine::error::EngineError;
use matching_engine::order::{BidOrAsk, Order};

#[test]
fn decimal_new_counts_in_billionths() {
    let d = Decimal::new(15, 1).unwrap();
    assert_eq!(d.mantissa(), 1_500_000_000);
    assert_eq!(d.scale(), 9);
    assert_eq!(SCALE, 9);
    assert_eq!(Decimal::new(7, 9).unwrap().mantissa(), 7);
    assert_eq!(Decimal::new(-3, 0).unwrap().mantissa(), -3_000_000_000);
}

#[test]
fn decimal_equal_numbers_are_equal() {
    assert_eq!(Decimal::new(100, 0).unwrap(), Decimal::new(1000, 1).unwrap());
    assert_eq!(Decimal::new(100, 0).unwrap(), Decimal::new(100_000_000_000, 9).unwrap());
    assert_ne!(Decimal::new(100, 0).unwrap(), Decimal::new(100, 1).unwrap());
}

#[test]
fn decimal_new_refuses_more_than_nine_digits() {
    assert!(Decimal::new(1, 10).is_none());
    assert!(Decimal::new(0, 28).is_none());
    assert!(Decimal::new(1, 9).is_some());
}

#[test]
fn decimal_new_refuses_what_does_not_fit() {
    assert_eq!(MAX_MANTISSA, (1i128 << 96) - 1);
    assert!(Decimal::new(MAX_MANTISSA, 9).is_some());
    assert!(Decimal::new(MAX_MANTISSA + 1, 9).is_none());
    assert!(Decimal::new(-MAX_MANTISSA, 9).is_some());
    assert!(Decimal::new(-MAX_MANTISSA - 1, 9).is_none());
    // 2^96 - 1 is 79228162514264337593.543950335 billionths of a billion.
    assert!(Decimal::new(79_228_162_514_264_337_593, 0).is_some());
    assert!(Decimal::new(79_228_162_514_264_337_594, 0).is_none());
    assert!(Decimal::new(-79_228_162_514_264_337_594, 0).is_none());
    assert!(Decimal::new(i128::MAX, 0).is_none());
    assert!(Decimal::new(i128::MIN, 9).is_none());
}

#[test]
fn decimal_zero_and_signs() {
    assert!(Decimal::zero().is_zero());
    assert!(!Decimal::zero().is_positive());
    assert_eq!(Decimal::zero(), Decimal::new(0, 4).unwrap());
    assert!(Decimal::new(1, 9).unwrap().is_positive());
    assert!(!Decimal::new(-1, 9).unwrap().is_positive());
    assert!(!Decimal::new(-1, 9).unwrap().is_zero());
}

#[test]
fn order_new_keeps_its_parts() {
    let order = Order::new(
        "A1".to_string(),
        BidOrAsk::Ask,
        Decimal::new(100, 0).unwrap(),
        Decimal::new(25, 1).unwrap(),
    )
    .unwrap();
    assert_eq!(order.id(), "A1");
    assert_eq!(order.side(), BidOrAsk::Ask);
    assert_eq!(order.price(), Decimal::new(100, 0).unwrap());
    assert_eq!(order.size(), Decimal::new(25, 1).unwrap());
    assert!(!order.is_filled());
    assert!(order.created_at() <= std::time::SystemTime::now());
}

#[test]
fn order_new_refuses_sizes_that_are_not_positive() {
    let price = Decimal::new(100, 0).unwrap();
    let zero = Order::new("z".to_string(), BidOrAsk::Bid, price, Decimal::zero());
    assert_eq!(zero.err(), Some(EngineError::InvalidOrder));
    let negative = Order::new("n".to_string(), BidOrAsk::Bid, price, Decimal::new(-1, 0).unwrap());
    assert_eq!(negative.err(), Some(EngineError::InvalidOrder));
}

#[test]
fn order_new_refuses_prices_that_are_not_positive() {
    let size = Decimal::new(1, 0).unwrap();
    let zero = Order::new("z".to_string(), BidOrAsk::Ask, Decimal::zero(), size);
    assert_eq!(zero.err(), Some(EngineError::InvalidOrder));
    let negative = Order::new("n".to_string(), BidOrAsk::Ask, Decimal::new(-5, 1).unwrap(), size);
    assert_eq!(negative.err(), Some(EngineError::InvalidOrder));
    let smallest = Order::new("s".to_string(), BidOrAsk::Ask, Decimal::new(1, 9).unwrap(), size);
    assert!(smallest.is_ok());
}

#[test]
fn order_clone_is_the_same_order() {
    let order = Order::new(
        "c".to_string(),
        BidOrAsk::Bid,
        Decimal::new(3, 0).unwrap(),
        Decimal::new(4, 0).unwrap(),
    )
    .unwrap();
    let copy = order.clone();
    assert_eq!(copy.id(), order.id());
    assert_eq!(copy.side(), order.side());
    assert_eq!(copy.price(), order.price());
    assert_eq!(copy.size(), order.size());
    assert_eq!(copy.created_at(), order.created_at());
}

#[test]
fn engine_error_names() {
    assert_eq!(EngineError::InvalidOrder.name(), "InvalidOrder");
    assert_eq!(EngineError::NotFound.name(), "NotFound");
    assert_eq!(EngineError::MalformedSnapshot.name(), "MalformedSnapshot");
}
