use vstd::prelude::*;

verus! {

/// Why the engine refused a request.
#[derive(Debug, Clone, Copy, PartialEq, Eq)]
pub enum EngineError {
    UnknownMarket,
    InvalidQuantity,
    InvalidPriceForLimit,
    PriceNotAllowedForMarket,
    ArithmeticOverflow,
}

pub type EngineResult<T> = Result<T, EngineError>;

/// The human-readable text of each error.
pub open spec fn error_text(e: EngineError) -> Seq<char> {
    match e {
        EngineError::UnknownMarket => "unknown market"@,
        EngineError::InvalidQuantity => "invalid quantity"@,
        EngineError::InvalidPriceForLimit => "invalid price for limit order"@,
        EngineError::PriceNotAllowedForMarket => "price must not be set for market order"@,
        EngineError::ArithmeticOverflow => "arithmetic overflow"@,
    }
}

impl EngineError {
    /// The message that the error displays as.
    pub fn message(&self) -> (s: &'static str)
        ensures
            s@ == error_text(*self),
    {
        match self {
            EngineError::UnknownMarket => "unknown market",
            EngineError::InvalidQuantity => "invalid quantity",
            EngineError::InvalidPriceForLimit => "invalid price for limit order",
            EngineError::PriceNotAllowedForMarket => "price must not be set for market order",
            EngineError::ArithmeticOverflow => "arithmetic overflow",
        }
    }
}

} // verus!
