//! A fill step as a plain record, for callers that want it apart from the
//! stream of records.

use crate::decimal::Decimal;
use crate::order::Order;
use vstd::prelude::*;

verus! {

/// One fill step: the two orders as they stood after it, the price, and the
/// size that changed hands.
#[derive(Debug)]
pub struct MatchResult {
    pub ask: Order,
    pub bid: Order,
    pub size_filled: Decimal,
    pub price: Decimal,
}

} // verus!
