//! Order, book and request types.
use vstd::prelude::*;
use crate::amount::Amount;

verus! {

/// The side of the book an order rests on: `Asks` sell, `Bids` buy.
#[derive(Clone, Copy, Debug, PartialEq, Eq, Structural)]
pub enum Side {
    Asks,
    Bids,
}

impl Side {
    /// The side an incoming order on `self` matches against.
    pub fn opposite(&self) -> (r: Side)
        ensures
            r == self.opposite_spec(),
    {
        match self {
            Side::Asks => Side::Bids,
            Side::Bids => Side::Asks,
        }
    }

    /// The opposite side.
    pub open spec fn opposite_spec(self) -> Side {
        match self {
            Side::Asks => Side::Bids,
            Side::Bids => Side::Asks,
        }
    }
}

/// The canonical record of an admitted limit order.
#[derive(Clone, Copy, Debug, PartialEq, Eq, Structural)]
pub struct OpenOrder {
    pub price: Amount,
    pub quantity: Amount,
    pub side: Side,
    pub quantity_filled: Amount,
    pub user_id: u64,
    pub order_id: u64,
}

impl OpenOrder {
    /// Builds a record from its fields.
    pub fn new(
        price: Amount,
        quantity: Amount,
        side: Side,
        quantity_filled: Amount,
        user_id: u64,
        order_id: u64,
    ) -> (r: OpenOrder)
        ensures
            r == (OpenOrder { price, quantity, side, quantity_filled, user_id, order_id }),
    {
        OpenOrder { price, quantity, side, quantity_filled, user_id, order_id }
    }

    /// The unfilled part of the order, in units.
    pub open spec fn remaining(self) -> int {
        self.quantity.units - self.quantity_filled.units
    }
}

/// An incoming limit order: rests at `price` if it cannot match fully.
#[derive(Clone, Copy, Debug, PartialEq, Eq, Structural)]
pub struct LimitOrder {
    pub price: Amount,
    pub quantity: Amount,
    pub side: Side,
    pub user_id: u64,
}

/// An incoming market order: matched at any price, never rests.
#[derive(Clone, Copy, Debug, PartialEq, Eq, Structural)]
pub struct MarketOrder {
    pub quantity: Amount,
    pub side: Side,
    pub user_id: u64,
}

impl MarketOrder {
    /// Builds a market order from its fields.
    pub fn new(quantity: Amount, side: Side, user_id: u64) -> (r: MarketOrder)
        ensures
            r == (MarketOrder { quantity, side, user_id }),
    {
        MarketOrder { quantity, side, user_id }
    }
}

/// One aggregated price level of a depth snapshot.
#[derive(Clone, Copy, Debug, PartialEq, Eq, Structural)]
pub struct Order {
    pub price: Amount,
    pub quantity: Amount,
    pub order_count: u64,
}

impl Order {
    /// Builds a depth row from its fields.
    pub fn new(price: Amount, quantity: Amount, order_count: u64) -> (r: Order)
        ensures
            r == (Order { price, quantity, order_count }),
    {
        Order { price, quantity, order_count }
    }
}

/// A depth snapshot: asks ascending by price, bids descending.
#[derive(Clone, Debug, PartialEq, Eq)]
pub struct Depth {
    pub bids: Vec<Order>,
    pub asks: Vec<Order>,
}

/// A request to change a resting order's price and/or quantity.
#[derive(Clone, Copy, Debug, PartialEq, Eq, Structural)]
pub struct ModifyOrderRequest {
    pub price: Option<Amount>,
    pub quantity: Option<Amount>,
    pub order_id: u64,
}

/// One slot of the id index. The slot at position `i` of the index holds
/// the order with `order_id == i + 1`; `resting` is true exactly while the
/// order sits in a side queue.
#[derive(Clone, Copy, Debug, PartialEq, Eq, Structural)]
pub struct IndexEntry {
    pub order: OpenOrder,
    pub resting: bool,
}

/// An order book for one trading pair.
///
/// `asks` and `bids` each hold the side's resting orders as one flat
/// queue in matching priority order: ascending by price for asks,
/// descending for bids, first-come-first-served within a price. A price
/// level is a maximal run of equal prices, so a level exists exactly
/// while it has orders. `order_map` keeps the canonical copy of every
/// order ever issued; `order_id_index` is the last id issued.
#[derive(Clone, Debug, PartialEq, Eq)]
pub struct Orderbook {
    pub bids: Vec<OpenOrder>,
    pub asks: Vec<OpenOrder>,
    pub order_id_index: u64,
    pub order_map: Vec<IndexEntry>,
}

} // verus!
