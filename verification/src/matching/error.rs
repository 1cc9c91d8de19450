use vstd::prelude::*;

verus! {

/// Error codes returned by market-manager operations.
#[derive(Debug, Clone, Copy, PartialEq, Eq, Hash, Structural)]
pub enum ErrorCode {
    Success,
    SymbolDuplicate,
    SymbolNotFound,
    OrderBookDuplicate,
    OrderBookNotFound,
    OrderDuplicate,
    OrderNotFound,
    OrderIdInvalid,
    OrderTypeInvalid,
    OrderParameterInvalid,
    OrderQuantityInvalid,
}

impl ErrorCode {
    /// The human-readable message of the error.
    pub fn message(&self) -> (s: &'static str)
        ensures
            s@ == (match *self {
                ErrorCode::Success => "OK"@,
                ErrorCode::SymbolDuplicate => "Symbol duplicate"@,
                ErrorCode::SymbolNotFound => "Symbol not found"@,
                ErrorCode::OrderBookDuplicate => "Order book duplicate"@,
                ErrorCode::OrderBookNotFound => "Order book not found"@,
                ErrorCode::OrderDuplicate => "Order duplicate"@,
                ErrorCode::OrderNotFound => "Order not found"@,
                ErrorCode::OrderIdInvalid => "Order ID invalid"@,
                ErrorCode::OrderTypeInvalid => "Order type invalid"@,
                ErrorCode::OrderParameterInvalid => "Order parameter invalid"@,
                ErrorCode::OrderQuantityInvalid => "Order quantity invalid"@,
            }),
    {
        match self {
            ErrorCode::Success => "OK",
            ErrorCode::SymbolDuplicate => "Symbol duplicate",
            ErrorCode::SymbolNotFound => "Symbol not found",
            ErrorCode::OrderBookDuplicate => "Order book duplicate",
            ErrorCode::OrderBookNotFound => "Order book not found",
            ErrorCode::OrderDuplicate => "Order duplicate",
            ErrorCode::OrderNotFound => "Order not found",
            ErrorCode::OrderIdInvalid => "Order ID invalid",
            ErrorCode::OrderTypeInvalid => "Order type invalid",
            ErrorCode::OrderParameterInvalid => "Order parameter invalid",
            ErrorCode::OrderQuantityInvalid => "Order quantity invalid",
        }
    }
}

/// Convenience alias.
pub type Result<T> = core::result::Result<T, ErrorCode>;

} // verus!
