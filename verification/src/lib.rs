//! Core of a price-time-priority matching engine for one instrument: the
//! order book, its price levels, the matching walk, the records it writes,
//! and snapshots of the book.
//!
//! Every type has a view, its mathematical value, and the contracts speak of
//! views. `limit`, `side` and `matching` hold the model: what resting,
//! cancelling and matching do to the levels, and what holds of every walk.
//! `order_book` holds the book itself. Numbers are exact decimals with nine
//! fractional digits; the arithmetic on them is done by `rust_decimal`.

pub mod clock;
pub mod decimal;
pub mod error;
pub mod limit;
pub mod log;
pub mod match_result;
pub mod matching;
pub mod order;
pub mod order_book;
pub mod side;
pub mod snapshot;
