//! A single order: who placed it, on which side, at what price, for how much.

use crate::clock::wall_clock;
use crate::decimal::Decimal;
use crate::error::EngineError;
use std::time::SystemTime;
use vstd::prelude::*;

verus! {

/// The side of the book an order belongs to.
#[derive(Clone, Copy, Debug, PartialEq, Eq, Structural)]
pub enum BidOrAsk {
    Bid,
    Ask,
}

/// What an order is: prices and sizes in units of 10^-9, and the reading of
/// the clock when the order was made.
pub struct OrderView {
    pub id: Seq<char>,
    pub side: BidOrAsk,
    pub price: int,
    pub size: int,
    pub created_at: SystemTime,
}

/// What a list of orders is, in order.
pub open spec fn order_views(orders: Seq<Order>) -> Seq<OrderView> {
    orders.map_values(|o: Order| o@)
}

/// An order. Its price is positive and its size is never negative; a size of
/// zero means that the order is filled.
#[derive(Debug)]
pub struct Order {
    id: String,
    price: Decimal,
    size: Decimal,
    bid_or_ask: BidOrAsk,
    created_at: SystemTime,
}

impl View for Order {
    type V = OrderView;

    closed spec fn view(&self) -> OrderView {
        OrderView {
            id: self.id@,
            side: self.bid_or_ask,
            price: self.price@,
            size: self.size@,
            created_at: self.created_at,
        }
    }
}

impl Clone for Order {
    fn clone(&self) -> (r: Order)
        ensures
            r@ == self@,
    {
        proof {
            use_type_invariant(self);
        }
        Order {
            id: self.id.clone(),
            price: self.price,
            size: self.size,
            bid_or_ask: self.bid_or_ask,
            created_at: self.created_at,
        }
    }
}

impl Order {
    /// Every order has a positive price and a size that is not negative.
    #[verifier::type_invariant]
    pub open spec fn inv(self) -> bool {
        self@.price > 0 && self@.size >= 0
    }

    /// A new order, stamped with the current time. Refused unless both the
    /// price and the size are positive.
    pub fn new(id: String, bid_or_ask: BidOrAsk, price: Decimal, size: Decimal) -> (r: Result<
        Order,
        EngineError,
    >)
        ensures
            r is Err <==> price@ <= 0 || size@ <= 0,
            r matches Err(e) ==> e == EngineError::InvalidOrder,
            r matches Ok(o) ==> o@.id == id@ && o@.side == bid_or_ask && o@.price == price@
                && o@.size == size@,
    {
        if !price.is_positive() || !size.is_positive() {
            return Err(EngineError::InvalidOrder);
        }
        Ok(Order { id, price, size, bid_or_ask, created_at: wall_clock() })
    }

    /// True once nothing of the order is left to match.
    pub fn is_filled(&self) -> (r: bool)
        ensures
            r == (self@.size == 0),
    {
        self.size.is_zero()
    }

    pub fn id(&self) -> (r: &String)
        ensures
            r@ == self@.id,
    {
        &self.id
    }

    pub fn side(&self) -> (r: BidOrAsk)
        ensures
            r == self@.side,
    {
        self.bid_or_ask
    }

    pub fn price(&self) -> (r: Decimal)
        ensures
            r@ == self@.price,
            self@.price > 0,
    {
        proof {
            use_type_invariant(self);
        }
        self.price
    }

    pub fn size(&self) -> (r: Decimal)
        ensures
            r@ == self@.size,
            self@.size >= 0,
    {
        proof {
            use_type_invariant(self);
        }
        self.size
    }

    /// The reading of the clock when the order was made.
    pub fn created_at(&self) -> (r: SystemTime)
        ensures
            r == self@.created_at,
    {
        self.created_at
    }

    /// The same order at another price: how an order takes the price of the
    /// level it joins.
    pub(crate) fn at_price(self, price: Decimal) -> (r: Order)
        requires
            price@ > 0,
        ensures
            r@ == (OrderView { price: price@, ..self@ }),
    {
        proof {
            use_type_invariant(&self);
        }
        Order {
            id: self.id,
            price,
            size: self.size,
            bid_or_ask: self.bid_or_ask,
            created_at: self.created_at,
        }
    }

    /// Replaces the size: matching is the only thing that does.
    pub(crate) fn set_size(&mut self, size: Decimal)
        requires
            size@ >= 0,
        ensures
            final(self)@ == (OrderView { size: size@, ..old(self)@ }),
    {
        proof {
            use_type_invariant(&*self);
        }
        self.size = size;
    }
}

} // verus!
