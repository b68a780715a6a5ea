use matching_engine::decimal::{Decimal, MAX_MANTISSA};
use matching_engine::limit::Limit;
use matching_engine::log::Log;
use matching_engine::order::{BidOrAsk, Order};
use matching_engine::order_book::OrderBook;

// A fixed sequence of numbers that looks random enough.
struct Numbers(u64);

impl Numbers {
    fn next(&mut self) -> u64 {
        self.0 = self.0.wrapping_mul(6364136223846793005).wrapping_add(1442695040888963407);
        self.0 >> 11
    }

    // A mantissa between 1 and the largest, of any magnitude.
    fn mantissa(&mut self) -> i128 {
        let wide = ((self.next() as u128) << 64) | ((self.next() as u128) << 11) | 1;
        let shift = self.next() % 96;
        let m = (wide >> 21 >> shift) as i128;
        m.clamp(1, MAX_MANTISSA)
    }
}

fn decimal(mantissa: i128) -> Decimal {
    Decimal::new(mantissa, 9).unwrap()
}

fn order(id: &str, side: BidOrAsk, price: i128, size: i128) -> Order {
    Order::new(id.to_string(), side, decimal(price), decimal(size)).unwrap()
}

#[test]
fn one_fill_step_is_exact_for_sizes_of_every_magnitude() {
    let mut numbers = Numbers(7);
    for _ in 0..2000 {
        let resting = numbers.mantissa();
        let incoming = numbers.mantissa();
        let mut limit = Limit::new(decimal(1));
        limit.add_order(order("A", BidOrAsk::Ask, 1, resting), 1);
        let mut taker = order("T", BidOrAsk::Bid, 1, incoming);
        let events = limit.fill_order(&mut taker, 2);

        let matched = resting.min(incoming);
        match &events[0] {
            Log::Match(m) => assert_eq!(m.size().mantissa(), matched),
            other => panic!("expected a fill step, got {:?}", other),
        }
        assert_eq!(taker.size().mantissa(), incoming - matched);
        if resting > incoming {
            assert_eq!(events.len(), 1);
            assert_eq!(limit.orders()[0].size().mantissa(), resting - incoming);
        } else {
            assert_eq!(events.len(), 2);
            assert!(limit.orders().is_empty());
        }
    }
}

#[test]
fn total_volume_is_exact_for_sizes_of_every_magnitude() {
    let mut numbers = Numbers(11);
    for _ in 0..300 {
        let mut limit = Limit::new(decimal(1));
        let mut sum: i128 = 0;
        for i in 0..(1 + numbers.next() % 6) {
            let size = numbers.mantissa();
            limit.add_order(order(&format!("A{}", i), BidOrAsk::Ask, 1, size), 1);
            sum += size;
        }
        let expected = if sum <= MAX_MANTISSA { Some(decimal(sum)) } else { None };
        assert_eq!(limit.total_volume(), expected);
    }
}

#[test]
fn levels_are_ordered_for_prices_of_every_magnitude() {
    let mut numbers = Numbers(13);
    for _ in 0..100 {
        let mut book = OrderBook::new();
        let mut prices: Vec<i128> = Vec::new();
        for i in 0..12 {
            let price = numbers.mantissa();
            prices.push(price);
            book.add_limit_order(decimal(price), order(&format!("A{}", i), BidOrAsk::Ask, price, 1));
            book.add_limit_order(decimal(price), order(&format!("B{}", i), BidOrAsk::Bid, price, 1));
        }
        prices.sort();
        prices.dedup();
        let asks: Vec<i128> = book.ask_limits().iter().map(|l| l.price().mantissa()).collect();
        assert_eq!(asks, prices);
        prices.reverse();
        let bids: Vec<i128> = book.bid_limits().iter().map(|l| l.price().mantissa()).collect();
        assert_eq!(bids, prices);
    }
}

#[test]
fn a_walk_over_many_levels_conserves_size() {
    let mut numbers = Numbers(17);
    for round in 0..200 {
        let mut book = OrderBook::new();
        let mut liquidity: i128 = 0;
        for i in 0..10 {
            // Sizes small enough for ten of them to fit a decimal.
            let size = 1 + numbers.mantissa() / 16;
            let price = 1 + (numbers.next() % 5) as i128;
            liquidity += size;
            book.add_limit_order(decimal(price), order(&format!("A{}", i), BidOrAsk::Ask, price, size));
        }
        let wanted = if round % 2 == 0 { 1 + numbers.mantissa() / 16 } else { numbers.mantissa() };
        let mut taker = order("T", BidOrAsk::Bid, 1, wanted);
        let events = book.fill_market_order(&mut taker);

        let mut matched: i128 = 0;
        let mut last_price: i128 = 0;
        for event in &events {
            if let Log::Match(m) = event {
                matched += m.size().mantissa();
                assert!(m.price().mantissa() >= last_price);
                last_price = m.price().mantissa();
            }
        }
        assert_eq!(matched, wanted.min(liquidity));
        assert_eq!(taker.size().mantissa(), wanted - matched);
        let left: i128 = book
            .ask_limits()
            .iter()
            .flat_map(|l| l.orders().iter().map(|o| o.size().mantissa()).collect::<Vec<i128>>())
            .sum();
        assert_eq!(left, liquidity - matched);
        let numbers_written: Vec<i64> = events.iter().map(|e| e.get_seq()).collect();
        let expected: Vec<i64> = (11..11 + events.len() as i64).collect();
        assert_eq!(numbers_written, expected);
    }
}
