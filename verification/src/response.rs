//! Book-level results and errors.
use vstd::prelude::*;
use crate::amount::Amount;

verus! {

/// An order-level failure.
#[derive(Clone, Copy, Debug, PartialEq, Eq, Structural)]
pub enum CustomError {
    /// The id was never issued, or the order was cancelled earlier.
    OrderDoesNotExist,
    /// The order is fully matched and can no longer change.
    OrderAlreadyMatched,
    /// A modify asked for a quantity below what is already filled.
    ModifyQuantityCannotBeLesserThanFilledQuantity,
    /// A market order found the opposite side empty.
    LimitOrderDoesNotExist,
    /// A modify asked for a price that would cross the opposite side.
    ModifyPriceWouldCrossBook,
}

/// The result of a market order.
#[derive(Clone, Copy, Debug, PartialEq, Eq)]
pub struct MarketOrderResponse {
    pub success: bool,
    pub average_price: Option<Amount>,
    pub quantity: Option<Amount>,
    pub error: Option<CustomError>,
}

impl MarketOrderResponse {
    /// Builds a market order result from its fields.
    pub fn new(
        success: bool,
        average_price: Option<Amount>,
        quantity: Option<Amount>,
        error: Option<CustomError>,
    ) -> (r: MarketOrderResponse)
        ensures
            r == (MarketOrderResponse { success, average_price, quantity, error }),
    {
        MarketOrderResponse { success, average_price, quantity, error }
    }
}

/// An order-level error carried back to the caller.
#[derive(Clone, Copy, Debug, PartialEq, Eq, Structural)]
pub struct ErrorResponse {
    pub error: CustomError,
}

impl ErrorResponse {
    /// Wraps an error.
    pub fn new(err: CustomError) -> (r: ErrorResponse)
        ensures
            r.error == err,
    {
        ErrorResponse { error: err }
    }
}

/// The record of a successful cancel.
#[derive(Clone, Copy, Debug, PartialEq, Eq, Structural)]
pub struct DeleteResponse {
    pub success: bool,
    pub price: Amount,
    pub quantity: Amount,
    pub quantity_filled: Amount,
    pub order_id: u64,
}

impl DeleteResponse {
    /// Builds a successful cancel record.
    pub fn new(price: Amount, quantity: Amount, quantity_filled: Amount, order_id: u64) -> (r:
        DeleteResponse)
        ensures
            r == (DeleteResponse { success: true, price, quantity, quantity_filled, order_id }),
    {
        DeleteResponse { success: true, price, quantity, quantity_filled, order_id }
    }
}

/// The record of a successful modify.
#[derive(Clone, Copy, Debug, PartialEq, Eq, Structural)]
pub struct ModifyOrderResponse {
    pub success: bool,
    pub price: Amount,
    pub quantity: Amount,
    pub order_id: u64,
}

impl ModifyOrderResponse {
    /// Builds a successful modify record.
    pub fn new(price: Amount, quantity: Amount, order_id: u64) -> (r: ModifyOrderResponse)
        ensures
            r == (ModifyOrderResponse { success: true, price, quantity, order_id }),
    {
        ModifyOrderResponse { success: true, price, quantity, order_id }
    }
}

} // verus!
