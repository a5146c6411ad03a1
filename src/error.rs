//! The outcomes that reject a command.
use vstd::prelude::*;

verus! {

#[derive(Clone, Copy, Debug, PartialEq, Eq, Structural)]
pub enum EngineError {
    /// A command field is malformed or out of the market's bounds.
    ValidationError,
    /// No market has the given ticker.
    UnknownMarket,
    /// The side is neither buy nor sell.
    InvalidSide,
    /// The funds to lock are not available.
    InsufficientFunds,
    /// No resting order has the given id.
    OrderNotFound,
    /// A defensive check failed; nothing was changed.
    InternalInvariantViolation,
}

} // verus!
