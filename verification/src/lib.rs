//! A central limit order book matching engine.
//!
//! One order book per trading pair holds two sides of resting limit orders
//! under strict price-time priority, matches incoming limit and market
//! orders against the opposite side, and keeps a flat id index consistent
//! with the side queues. A registry dispatches operations to the book of a
//! trading pair, and a facade layer shapes results into response envelopes
//! for a transport layer to serialise.
pub mod amount;
pub mod book;
pub mod engine;
pub mod facade;
pub mod laws;
pub mod model;
pub mod response;
pub mod types;

pub use amount::Amount;
pub use engine::{Markets, TradingEngine, TradingEngineError, TradingPair};
pub use response::{CustomError, DeleteResponse, ErrorResponse, MarketOrderResponse,
    ModifyOrderResponse};
pub use types::{Depth, LimitOrder, MarketOrder, ModifyOrderRequest, OpenOrder, Order, Orderbook,
    Side};
