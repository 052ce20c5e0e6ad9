//! The request/response surface used by the transport layer.
//!
//! Each engine operation has a request shape and a response envelope; the
//! envelope carries the success payload and the engine-level and
//! book-level errors in distinct fields, so the two error domains stay
//! distinguishable. The building functions here map an operation's
//! two-level result into its envelope; the transport layer only decodes
//! requests, takes the engine lock, calls the engine, and serialises the
//! envelope these functions return.
use vstd::prelude::*;
use crate::amount::Amount;
use crate::engine::{Markets, TradingEngineError, TradingPair};
use crate::response::{CustomError, DeleteResponse, ErrorResponse, ModifyOrderResponse as
    BookModifyOrderResponse, MarketOrderResponse as BookMarketOrderResponse};
use crate::types::{Depth, LimitOrder, MarketOrder, ModifyOrderRequest as BookModifyOrderRequest,
    OpenOrder};

verus! {

/// Asks for the depth snapshot of one market.
#[derive(Debug)]
pub struct MarketDepthRequest {
    pub trading_pair: TradingPair,
}

/// The depth snapshot, or the engine error.
#[derive(Debug)]
pub struct MarketDepthResponse {
    pub depth: Option<Depth>,
    pub error: Option<TradingEngineError>,
}

impl MarketDepthResponse {
    /// Builds the envelope from its fields.
    pub fn new(depth: Option<Depth>, error: Option<TradingEngineError>) -> (r: MarketDepthResponse)
        ensures
            r.depth == depth,
            r.error == error,
    {
        MarketDepthResponse { depth, error }
    }
}

/// Asks for the mid price of one market.
#[derive(Debug)]
pub struct MarketMidPriceRequest {
    pub trading_pair: TradingPair,
}

/// The mid price (absent while either side is empty), or the engine error.
#[derive(Debug, PartialEq, Eq)]
pub struct MarketMidPriceResponse {
    pub price: Option<Amount>,
    pub error: Option<TradingEngineError>,
}

impl MarketMidPriceResponse {
    /// Builds the envelope from its fields.
    pub fn new(price: Option<Amount>, error: Option<TradingEngineError>) -> (r:
        MarketMidPriceResponse)
        ensures
            r.price == price,
            r.error == error,
    {
        MarketMidPriceResponse { price, error }
    }
}

/// Asks to admit a limit order into one market.
#[derive(Debug)]
pub struct LimitOrderRequest {
    pub trading_pair: TradingPair,
    pub order: LimitOrder,
}

/// The admitted order's canonical record, or the engine error.
#[derive(Debug, PartialEq, Eq)]
pub struct LimitOrderResponse {
    pub open_order: Option<OpenOrder>,
    pub error: Option<TradingEngineError>,
}

impl LimitOrderResponse {
    /// Builds the envelope from its fields.
    pub fn new(o: Option<OpenOrder>, error: Option<TradingEngineError>) -> (r: LimitOrderResponse)
        ensures
            r.open_order == o,
            r.error == error,
    {
        LimitOrderResponse { open_order: o, error }
    }
}

/// Asks to admit a market order into one market.
#[derive(Debug)]
pub struct MarketOrderRequest {
    pub trading_pair: TradingPair,
    pub order: MarketOrder,
}

/// The market order's fill report, or the engine error.
#[derive(Debug, PartialEq, Eq)]
pub struct MarketOrderResponse {
    pub response: Option<BookMarketOrderResponse>,
    pub error: Option<TradingEngineError>,
}

impl MarketOrderResponse {
    /// Builds the envelope from its fields.
    pub fn new(response: Option<BookMarketOrderResponse>, e: Option<TradingEngineError>) -> (r:
        MarketOrderResponse)
        ensures
            r.response == response,
            r.error == e,
    {
        MarketOrderResponse { response, error: e }
    }
}

/// Asks to register one market.
#[derive(Debug)]
pub struct CreateMarketRequest {
    pub trading_pair: TradingPair,
}

/// Whether the market was created, echoing the pair.
#[derive(Debug)]
pub struct CreateMarketResponse {
    pub created: bool,
    pub trading_pair: TradingPair,
}

impl CreateMarketResponse {
    /// Builds the envelope from its fields.
    pub fn new(status: bool, trading_pair: TradingPair) -> (r: CreateMarketResponse)
        ensures
            r.created == status,
            r.trading_pair == trading_pair,
    {
        CreateMarketResponse { created: status, trading_pair }
    }
}

/// The registered markets.
#[derive(Debug)]
pub struct GetMarketsResponse {
    pub markets: Vec<TradingPair>,
}

impl GetMarketsResponse {
    /// Unwraps the engine's market list into the envelope.
    pub fn new(markets: Markets) -> (r: GetMarketsResponse)
        ensures
            r.markets@ == markets.markets@,
    {
        GetMarketsResponse { markets: markets.markets }
    }
}

/// Asks to cancel one order in one market.
#[derive(Debug)]
pub struct DeleteOrderRequest {
    pub trading_pair: TradingPair,
    pub order_id: u64,
}

/// The cancel record, or whichever of the two errors arose.
#[derive(Debug, PartialEq, Eq)]
pub struct DeleteOrderResponse {
    pub response: Option<DeleteResponse>,
    pub engine_error: Option<TradingEngineError>,
    pub orderbook_error: Option<CustomError>,
}

impl DeleteOrderResponse {
    /// Builds the envelope from its fields.
    pub fn new(
        response: Option<DeleteResponse>,
        engine_error: Option<TradingEngineError>,
        orderbook_error: Option<CustomError>,
    ) -> (r: DeleteOrderResponse)
        ensures
            r.response == response,
            r.engine_error == engine_error,
            r.orderbook_error == orderbook_error,
    {
        DeleteOrderResponse { response, engine_error, orderbook_error }
    }
}

/// Asks to modify one order in one market.
#[derive(Debug)]
pub struct ModifyOrderRequest {
    pub trading_pair: TradingPair,
    pub order_request: BookModifyOrderRequest,
}

/// The modify record, or whichever of the two errors arose.
#[derive(Debug, PartialEq, Eq)]
pub struct ModifyOrderResponse {
    pub response: Option<BookModifyOrderResponse>,
    pub engine_error: Option<TradingEngineError>,
    pub orderbook_error: Option<CustomError>,
}

impl ModifyOrderResponse {
    /// Builds the envelope from its fields.
    pub fn new(
        response: Option<BookModifyOrderResponse>,
        engine_error: Option<TradingEngineError>,
        orderbook_error: Option<CustomError>,
    ) -> (r: ModifyOrderResponse)
        ensures
            r.response == response,
            r.engine_error == engine_error,
            r.orderbook_error == orderbook_error,
    {
        ModifyOrderResponse { response, engine_error, orderbook_error }
    }
}

/// Asks for one order's canonical record in one market.
#[derive(Debug)]
pub struct GetOrderRequest {
    pub trading_pair: TradingPair,
    pub order_id: u64,
}

/// The order's record, or whichever of the two errors arose.
#[derive(Debug, PartialEq, Eq)]
pub struct GetOrderResponse {
    pub response: Option<OpenOrder>,
    pub engine_error: Option<TradingEngineError>,
    pub orderbook_error: Option<CustomError>,
}

impl GetOrderResponse {
    /// Builds the envelope from its fields.
    pub fn new(
        response: Option<OpenOrder>,
        engine_error: Option<TradingEngineError>,
        orderbook_error: Option<CustomError>,
    ) -> (r: GetOrderResponse)
        ensures
            r.response == response,
            r.engine_error == engine_error,
            r.orderbook_error == orderbook_error,
    {
        GetOrderResponse { response, engine_error, orderbook_error }
    }
}

/// Shapes a depth result into its envelope: the snapshot on success, the
/// engine error otherwise, never both.
pub fn depth_envelope(result: Result<Depth, TradingEngineError>) -> (r: MarketDepthResponse)
    ensures
        result matches Ok(d) ==> r.depth == Some(d) && r.error is None,
        result matches Err(e) ==> r.depth is None && r.error == Some(e),
{
    match result {
        Ok(d) => MarketDepthResponse::new(Some(d), None),
        Err(e) => MarketDepthResponse::new(None, Some(e)),
    }
}

/// Shapes a mid-price result into its envelope.
pub fn mid_price_envelope(result: Result<Option<Amount>, TradingEngineError>) -> (r:
    MarketMidPriceResponse)
    ensures
        result matches Ok(p) ==> r.price == p && r.error is None,
        result matches Err(e) ==> r.price is None && r.error == Some(e),
{
    match result {
        Ok(p) => MarketMidPriceResponse::new(p, None),
        Err(e) => MarketMidPriceResponse::new(None, Some(e)),
    }
}

/// Shapes a limit-admission result into its envelope.
pub fn limit_order_envelope(result: Result<OpenOrder, TradingEngineError>) -> (r:
    LimitOrderResponse)
    ensures
        result matches Ok(o) ==> r.open_order == Some(o) && r.error is None,
        result matches Err(e) ==> r.open_order is None && r.error == Some(e),
{
    match result {
        Ok(o) => LimitOrderResponse::new(Some(o), None),
        Err(e) => LimitOrderResponse::new(None, Some(e)),
    }
}

/// Shapes a market-admission result into its envelope.
pub fn market_order_envelope(result: Result<BookMarketOrderResponse, TradingEngineError>) -> (r:
    MarketOrderResponse)
    ensures
        result matches Ok(resp) ==> r.response == Some(resp) && r.error is None,
        result matches Err(e) ==> r.response is None && r.error == Some(e),
{
    match result {
        Ok(resp) => MarketOrderResponse::new(Some(resp), None),
        Err(e) => MarketOrderResponse::new(None, Some(e)),
    }
}

/// Shapes a market-creation result into its envelope, echoing the pair.
pub fn create_market_envelope(
    result: Result<(), TradingEngineError>,
    trading_pair: TradingPair,
) -> (r: CreateMarketResponse)
    ensures
        r.created == (result is Ok),
        r.trading_pair == trading_pair,
{
    match result {
        Ok(_) => CreateMarketResponse::new(true, trading_pair),
        Err(_) => CreateMarketResponse::new(false, trading_pair),
    }
}

/// Shapes a cancel result into its envelope: exactly one of the record,
/// the engine error and the book error is present.
pub fn delete_order_envelope(
    result: Result<Result<DeleteResponse, ErrorResponse>, TradingEngineError>,
) -> (r: DeleteOrderResponse)
    ensures
        result matches Ok(Ok(res)) ==> r == (DeleteOrderResponse {
            response: Some(res),
            engine_error: None,
            orderbook_error: None,
        }),
        result matches Ok(Err(e)) ==> r == (DeleteOrderResponse {
            response: None,
            engine_error: None,
            orderbook_error: Some(e.error),
        }),
        result matches Err(e) ==> r == (DeleteOrderResponse {
            response: None,
            engine_error: Some(e),
            orderbook_error: None,
        }),
{
    match result {
        Ok(Ok(res)) => DeleteOrderResponse::new(Some(res), None, None),
        Ok(Err(e)) => DeleteOrderResponse::new(None, None, Some(e.error)),
        Err(e) => DeleteOrderResponse::new(None, Some(e), None),
    }
}

/// Shapes a modify result into its envelope: exactly one of the record,
/// the engine error and the book error is present.
pub fn modify_order_envelope(
    result: Result<Result<BookModifyOrderResponse, ErrorResponse>, TradingEngineError>,
) -> (r: ModifyOrderResponse)
    ensures
        result matches Ok(Ok(res)) ==> r == (ModifyOrderResponse {
            response: Some(res),
            engine_error: None,
            orderbook_error: None,
        }),
        result matches Ok(Err(e)) ==> r == (ModifyOrderResponse {
            response: None,
            engine_error: None,
            orderbook_error: Some(e.error),
        }),
        result matches Err(e) ==> r == (ModifyOrderResponse {
            response: None,
            engine_error: Some(e),
            orderbook_error: None,
        }),
{
    match result {
        Ok(Ok(res)) => ModifyOrderResponse::new(Some(res), None, None),
        Ok(Err(e)) => ModifyOrderResponse::new(None, None, Some(e.error)),
        Err(e) => ModifyOrderResponse::new(None, Some(e), None),
    }
}

/// Shapes an order lookup result into its envelope: exactly one of the
/// record, the engine error and the book error is present.
pub fn get_order_envelope(
    result: Result<Result<OpenOrder, ErrorResponse>, TradingEngineError>,
) -> (r: GetOrderResponse)
    ensures
        result matches Ok(Ok(res)) ==> r == (GetOrderResponse {
            response: Some(res),
            engine_error: None,
            orderbook_error: None,
        }),
        result matches Ok(Err(e)) ==> r == (GetOrderResponse {
            response: None,
            engine_error: None,
            orderbook_error: Some(e.error),
        }),
        result matches Err(e) ==> r == (GetOrderResponse {
            response: None,
            engine_error: Some(e),
            orderbook_error: None,
        }),
{
    match result {
        Ok(Ok(res)) => GetOrderResponse::new(Some(res), None, None),
        Ok(Err(e)) => GetOrderResponse::new(None, None, Some(e.error)),
        Err(e) => GetOrderResponse::new(None, Some(e), None),
    }
}

} // verus!
