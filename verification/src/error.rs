//! The ways in which a command can be refused.

use vstd::prelude::*;

verus! {

/// Why a command was refused. A refused command changes nothing and writes
/// no record.
#[derive(Clone, Copy, Debug, PartialEq, Eq, Structural)]
pub enum EngineError {
    /// An order with a price or a size that is not positive.
    InvalidOrder,
    /// A cancel whose target rests nowhere in the book.
    NotFound,
    /// A snapshot that no book could have produced.
    MalformedSnapshot,
}

impl EngineError {
    /// A short name for messages.
    pub fn name(&self) -> (r: &'static str)
        ensures
            r@ == (match *self {
                EngineError::InvalidOrder => "InvalidOrder"@,
                EngineError::NotFound => "NotFound"@,
                EngineError::MalformedSnapshot => "MalformedSnapshot"@,
            }),
    {
        match self {
            EngineError::InvalidOrder => "InvalidOrder",
            EngineError::NotFound => "NotFound",
            EngineError::MalformedSnapshot => "MalformedSnapshot",
        }
    }
}

} // verus!
