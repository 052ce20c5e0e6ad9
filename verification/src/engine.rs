//! The multi-market registry: one order book per trading pair.
use vstd::prelude::*;
use crate::amount::Amount;
use crate::book::{cancel_rel, limit_admission_rel, market_admission_rel, modify_rel};
use crate::response::{DeleteResponse, ErrorResponse, MarketOrderResponse, ModifyOrderResponse};
use crate::types::{Depth, LimitOrder, MarketOrder, ModifyOrderRequest, OpenOrder, Orderbook};

verus! {

/// A market's identity: the base and quote symbols. Two pairs name the
/// same market exactly when both components are equal character for
/// character.
#[derive(Debug, Eq, Hash)]
pub struct TradingPair {
    pub base: String,
    pub quote: String,
}

impl TradingPair {
    /// Builds a pair from its symbols.
    pub fn new(base: String, quote: String) -> (r: TradingPair)
        ensures
            r.base@ == base@,
            r.quote@ == quote@,
    {
        TradingPair { base, quote }
    }

    /// The pair's identity: both symbols, as character sequences.
    pub open spec fn key(self) -> (Seq<char>, Seq<char>) {
        (self.base@, self.quote@)
    }
}

impl Clone for TradingPair {
    /// The copy names the same market.
    fn clone(&self) -> (r: TradingPair)
        ensures
            r.key() == self.key(),
    {
        TradingPair { base: self.base.clone(), quote: self.quote.clone() }
    }
}

impl PartialEq for TradingPair {
    fn eq(&self, other: &TradingPair) -> (r: bool) {
        self.base == other.base && self.quote == other.quote
    }
}

impl vstd::std_specs::cmp::PartialEqSpecImpl for TradingPair {
    open spec fn obeys_eq_spec() -> bool {
        true
    }

    open spec fn eq_spec(&self, other: &TradingPair) -> bool {
        self.key() == other.key()
    }
}

/// The engine-level failures.
#[derive(Clone, Copy, Debug, PartialEq, Eq, Structural)]
pub enum TradingEngineError {
    TradingPairDoesNotExist,
    TradingPairAlreadyExists,
}

/// The list of markets an engine carries.
#[derive(Debug, PartialEq, Eq)]
pub struct Markets {
    pub markets: Vec<TradingPair>,
}

impl Markets {
    /// Wraps a list of pairs.
    pub fn new(markets: Vec<TradingPair>) -> (r: Markets)
        ensures
            r.markets@ == markets@,
    {
        Markets { markets }
    }
}

/// One registered market: its pair and its book.
#[derive(Debug)]
pub struct MarketEntry {
    pub pair: TradingPair,
    pub book: Orderbook,
}

/// The trading engine: a registry of markets in creation order, each pair
/// registered at most once, each book well formed.
#[derive(Debug)]
pub struct TradingEngine {
    pub orderbooks: Vec<MarketEntry>,
}

impl TradingEngine {
    /// The engine invariant: no pair is registered twice, and every book
    /// satisfies the book invariant.
    pub open spec fn wf(self) -> bool {
        &&& forall|i: int, j: int|
            0 <= i < j < self.orderbooks@.len() ==> (#[trigger] self.orderbooks@[i]).pair.key() != (
            #[trigger] self.orderbooks@[j]).pair.key()
        &&& forall|i: int| 0 <= i < self.orderbooks@.len() ==> (#[trigger] self.orderbooks@[i]).book.wf()
    }

    /// The position of `pair` in the registry, if it is registered.
    pub open spec fn pair_index(self, pair: TradingPair) -> int {
        choose|i: int| 0 <= i < self.orderbooks@.len() && (#[trigger] self.orderbooks@[i]).pair.key()
            == pair.key()
    }

    /// `pair` names a registered market.
    pub open spec fn has_pair(self, pair: TradingPair) -> bool {
        exists|i: int|
            0 <= i < self.orderbooks@.len() && (#[trigger] self.orderbooks@[i]).pair.key()
                == pair.key()
    }

    /// An engine with no markets.
    pub fn new() -> (r: TradingEngine)
        ensures
            r.wf(),
            r.orderbooks@.len() == 0,
    {
        TradingEngine { orderbooks: Vec::new() }
    }

    /// Looks a pair up in the registry.
    #[verifier::loop_isolation(false)]
    fn find_market(&self, trading_pair: &TradingPair) -> (r: Option<usize>)
        ensures
            r matches Some(i) ==> 0 <= i < self.orderbooks@.len() && self.orderbooks@[
                i as int
            ].pair.key() == trading_pair.key(),
            r is None ==> !self.has_pair(*trading_pair),
    {
        let mut i: usize = 0;
        while i < self.orderbooks.len()
            invariant
                i <= self.orderbooks@.len(),
                forall|j: int|
                    0 <= j < i ==> (#[trigger] self.orderbooks@[j]).pair.key()
                        != trading_pair.key(),
            decreases self.orderbooks@.len() - i,
        {
            if self.orderbooks[i].pair == *trading_pair {
                return Some(i);
            }
            i = i + 1;
        }
        None
    }

    /// Whether a market for the pair exists.
    fn check_if_market_exists(&self, trading_pair: &TradingPair) -> (r: bool)
        ensures
            r == self.has_pair(*trading_pair),
    {
        self.find_market(trading_pair).is_some()
    }

    /// Registers a fresh empty market for the pair, or fails when the pair
    /// is already registered (and then changes nothing).
    pub fn create_market(&mut self, trading_pair: TradingPair) -> (r: Result<
        (),
        TradingEngineError,
    >)
        requires
            old(self).wf(),
        ensures
            final(self).wf(),
            old(self).has_pair(trading_pair) ==> r == Err::<(), TradingEngineError>(
                TradingEngineError::TradingPairAlreadyExists,
            ) && final(self).orderbooks@ == old(self).orderbooks@,
            !old(self).has_pair(trading_pair) ==> {
                &&& r == Ok::<(), TradingEngineError>(())
                &&& final(self).orderbooks@.len() == old(self).orderbooks@.len() + 1
                &&& forall|i: int|
                    0 <= i < old(self).orderbooks@.len() ==> final(self).orderbooks@[i] == old(
                        self,
                    ).orderbooks@[i]
                &&& final(self).orderbooks@.last().pair.key() == trading_pair.key()
                &&& final(self).orderbooks@.last().book.asks@.len() == 0
                &&& final(self).orderbooks@.last().book.bids@.len() == 0
                &&& final(self).orderbooks@.last().book.order_id_index == 0
                &&& final(self).orderbooks@.last().book.order_map@.len() == 0
            },
    {
        if self.check_if_market_exists(&trading_pair) {
            return Err(TradingEngineError::TradingPairAlreadyExists);
        }
        self.orderbooks.push(MarketEntry { pair: trading_pair, book: Orderbook::new() });
        Ok(())
    }

    /// The registry's lookup agrees with `pair_index` on a well-formed
    /// engine: registered keys are unique.
    proof fn lemma_found_is_index(self, trading_pair: TradingPair, i: int)
        requires
            self.wf(),
            0 <= i < self.orderbooks@.len(),
            self.orderbooks@[i].pair.key() == trading_pair.key(),
        ensures
            self.has_pair(trading_pair),
            self.pair_index(trading_pair) == i,
    {
        assert(self.has_pair(trading_pair));
        let j = self.pair_index(trading_pair);
        if i < j {
            assert(self.orderbooks@[i].pair.key() != self.orderbooks@[j].pair.key());
        } else if j < i {
            assert(self.orderbooks@[j].pair.key() != self.orderbooks@[i].pair.key());
        }
    }

    /// Admits a limit order into the pair's market, or fails `TradingPair
    /// DoesNotExist` (leaving the engine unchanged) when the pair is
    /// unknown. On success the pair's book changes exactly as
    /// `limit_admission_rel` says; every other market is untouched.
    pub fn add_limit_order_into_market(&mut self, trading_pair: TradingPair, order: LimitOrder)
        -> (r: Result<OpenOrder, TradingEngineError>)
        requires
            old(self).wf(),
            order.price.units > 0,
            order.quantity.units > 0,
            old(self).has_pair(trading_pair) ==> old(self).orderbooks@[old(self).pair_index(
                trading_pair,
            )].book.order_id_index < u64::MAX,
        ensures
            final(self).wf(),
            !old(self).has_pair(trading_pair) ==> r == Err::<OpenOrder, TradingEngineError>(
                TradingEngineError::TradingPairDoesNotExist,
            ) && final(self).orderbooks@ == old(self).orderbooks@,
            old(self).has_pair(trading_pair) ==> {
                let i = old(self).pair_index(trading_pair);
                &&& r matches Ok(o)
                &&& limit_admission_rel(
                    old(self).orderbooks@[i].book,
                    final(self).orderbooks@[i].book,
                    order,
                    r->Ok_0,
                )
                &&& final(self).orderbooks@.len() == old(self).orderbooks@.len()
                &&& final(self).orderbooks@[i].pair.key() == trading_pair.key()
                &&& forall|j: int|
                    0 <= j < old(self).orderbooks@.len() && j != i ==> final(self).orderbooks@[j]
                        == old(self).orderbooks@[j]
            },
    {
        match self.find_market(&trading_pair) {
            None => Err(TradingEngineError::TradingPairDoesNotExist),
            Some(i) => {
                proof {
                    old(self).lemma_found_is_index(trading_pair, i as int);
                }
                let o = self.orderbooks[i].book.add_limit_order(order);
                Ok(o)
            },
        }
    }

    /// Admits a market order into the pair's market, or fails when the
    /// pair is unknown. On success the pair's book changes exactly as
    /// `market_admission_rel` says; every other market is untouched.
    pub fn add_market_order_into_market(&mut self, trading_pair: TradingPair, order: MarketOrder)
        -> (r: Result<MarketOrderResponse, TradingEngineError>)
        requires
            old(self).wf(),
            order.quantity.units > 0,
        ensures
            final(self).wf(),
            !old(self).has_pair(trading_pair) ==> r == Err::<
                MarketOrderResponse,
                TradingEngineError,
            >(TradingEngineError::TradingPairDoesNotExist) && final(self).orderbooks@ == old(
                self,
            ).orderbooks@,
            old(self).has_pair(trading_pair) ==> {
                let i = old(self).pair_index(trading_pair);
                &&& r matches Ok(resp)
                &&& market_admission_rel(
                    old(self).orderbooks@[i].book,
                    final(self).orderbooks@[i].book,
                    order,
                    r->Ok_0,
                )
                &&& final(self).orderbooks@.len() == old(self).orderbooks@.len()
                &&& final(self).orderbooks@[i].pair.key() == trading_pair.key()
                &&& forall|j: int|
                    0 <= j < old(self).orderbooks@.len() && j != i ==> final(self).orderbooks@[j]
                        == old(self).orderbooks@[j]
            },
    {
        match self.find_market(&trading_pair) {
            None => Err(TradingEngineError::TradingPairDoesNotExist),
            Some(i) => {
                proof {
                    old(self).lemma_found_is_index(trading_pair, i as int);
                }
                let resp = self.orderbooks[i].book.add_market_order(order);
                Ok(resp)
            },
        }
    }

    /// Cancels an order in the pair's market, or fails when the pair is
    /// unknown. The inner result is the book's, per `cancel_rel`.
    pub fn delete_order_for_market(&mut self, trading_pair: TradingPair, order_id: u64) -> (r:
        Result<Result<DeleteResponse, ErrorResponse>, TradingEngineError>)
        requires
            old(self).wf(),
        ensures
            final(self).wf(),
            !old(self).has_pair(trading_pair) ==> r == Err::<
                Result<DeleteResponse, ErrorResponse>,
                TradingEngineError,
            >(TradingEngineError::TradingPairDoesNotExist) && final(self).orderbooks@ == old(
                self,
            ).orderbooks@,
            old(self).has_pair(trading_pair) ==> {
                let i = old(self).pair_index(trading_pair);
                &&& r matches Ok(inner)
                &&& cancel_rel(
                    old(self).orderbooks@[i].book,
                    final(self).orderbooks@[i].book,
                    order_id,
                    r->Ok_0,
                )
                &&& final(self).orderbooks@.len() == old(self).orderbooks@.len()
                &&& final(self).orderbooks@[i].pair.key() == trading_pair.key()
                &&& forall|j: int|
                    0 <= j < old(self).orderbooks@.len() && j != i ==> final(self).orderbooks@[j]
                        == old(self).orderbooks@[j]
            },
    {
        match self.find_market(&trading_pair) {
            None => Err(TradingEngineError::TradingPairDoesNotExist),
            Some(i) => {
                proof {
                    old(self).lemma_found_is_index(trading_pair, i as int);
                }
                let inner = self.orderbooks[i].book.delete_order(order_id);
                Ok(inner)
            },
        }
    }

    /// Modifies an order in the pair's market, or fails when the pair is
    /// unknown. The inner result is the book's, per `modify_rel`.
    pub fn modify_order_for_market(&mut self, trading_pair: TradingPair, order: ModifyOrderRequest)
        -> (r: Result<Result<ModifyOrderResponse, ErrorResponse>, TradingEngineError>)
        requires
            old(self).wf(),
            order.price matches Some(p) ==> p.units > 0,
            order.quantity matches Some(q) ==> q.units > 0,
        ensures
            final(self).wf(),
            !old(self).has_pair(trading_pair) ==> r == Err::<
                Result<ModifyOrderResponse, ErrorResponse>,
                TradingEngineError,
            >(TradingEngineError::TradingPairDoesNotExist) && final(self).orderbooks@ == old(
                self,
            ).orderbooks@,
            old(self).has_pair(trading_pair) ==> {
                let i = old(self).pair_index(trading_pair);
                &&& r matches Ok(inner)
                &&& modify_rel(
                    old(self).orderbooks@[i].book,
                    final(self).orderbooks@[i].book,
                    order,
                    r->Ok_0,
                )
                &&& final(self).orderbooks@.len() == old(self).orderbooks@.len()
                &&& final(self).orderbooks@[i].pair.key() == trading_pair.key()
                &&& forall|j: int|
                    0 <= j < old(self).orderbooks@.len() && j != i ==> final(self).orderbooks@[j]
                        == old(self).orderbooks@[j]
            },
    {
        match self.find_market(&trading_pair) {
            None => Err(TradingEngineError::TradingPairDoesNotExist),
            Some(i) => {
                proof {
                    old(self).lemma_found_is_index(trading_pair, i as int);
                }
                let inner = self.orderbooks[i].book.modify_order(order);
                Ok(inner)
            },
        }
    }

    /// The depth snapshot of the pair's market, or an unknown-pair error.
    pub fn get_market_depth(&mut self, trading_pair: TradingPair) -> (r: Result<
        Depth,
        TradingEngineError,
    >)
        requires
            old(self).wf(),
        ensures
            final(self).wf(),
            final(self).orderbooks@ == old(self).orderbooks@,
            !old(self).has_pair(trading_pair) ==> r == Err::<Depth, TradingEngineError>(
                TradingEngineError::TradingPairDoesNotExist,
            ),
            old(self).has_pair(trading_pair) ==> {
                let b = old(self).orderbooks@[old(self).pair_index(trading_pair)].book;
                &&& r matches Ok(d)
                &&& r->Ok_0.asks@ == crate::model::depth_rows(b.asks@)
                &&& r->Ok_0.bids@ == crate::model::depth_rows(b.bids@)
            },
    {
        match self.find_market(&trading_pair) {
            None => Err(TradingEngineError::TradingPairDoesNotExist),
            Some(i) => {
                proof {
                    old(self).lemma_found_is_index(trading_pair, i as int);
                }
                Ok(self.orderbooks[i].book.depth())
            },
        }
    }

    /// The canonical record of an order id in the pair's market, or an
    /// unknown-pair error; the inner result is the book's.
    pub fn get_order_by_id_for_market(&mut self, trading_pair: TradingPair, order_id: u64) -> (r:
        Result<Result<OpenOrder, ErrorResponse>, TradingEngineError>)
        requires
            old(self).wf(),
        ensures
            final(self).wf(),
            final(self).orderbooks@ == old(self).orderbooks@,
            !old(self).has_pair(trading_pair) ==> r == Err::<
                Result<OpenOrder, ErrorResponse>,
                TradingEngineError,
            >(TradingEngineError::TradingPairDoesNotExist),
            old(self).has_pair(trading_pair) ==> {
                let b = old(self).orderbooks@[old(self).pair_index(trading_pair)].book;
                &&& r matches Ok(inner)
                &&& (1 <= order_id <= b.order_map@.len() ==> r->Ok_0 == Ok::<
                    OpenOrder,
                    ErrorResponse,
                >(b.order_map@[order_id - 1].order))
                &&& (!(1 <= order_id <= b.order_map@.len()) ==> r->Ok_0 == Err::<
                    OpenOrder,
                    ErrorResponse,
                >(ErrorResponse { error: crate::response::CustomError::OrderDoesNotExist }))
            },
    {
        match self.find_market(&trading_pair) {
            None => Err(TradingEngineError::TradingPairDoesNotExist),
            Some(i) => {
                proof {
                    old(self).lemma_found_is_index(trading_pair, i as int);
                }
                Ok(self.orderbooks[i].book.get_order(order_id))
            },
        }
    }

    /// The mid price of the pair's market, or an unknown-pair error.
    pub fn get_mid_price_for_market(&mut self, trading_pair: TradingPair) -> (r: Result<
        Option<Amount>,
        TradingEngineError,
    >)
        requires
            old(self).wf(),
        ensures
            final(self).wf(),
            final(self).orderbooks@ == old(self).orderbooks@,
            !old(self).has_pair(trading_pair) ==> r == Err::<Option<Amount>, TradingEngineError>(
                TradingEngineError::TradingPairDoesNotExist,
            ),
            old(self).has_pair(trading_pair) ==> {
                let b = old(self).orderbooks@[old(self).pair_index(trading_pair)].book;
                &&& (b.asks@.len() == 0 || b.bids@.len() == 0 ==> r == Ok::<
                    Option<Amount>,
                    TradingEngineError,
                >(None))
                &&& (b.asks@.len() > 0 && b.bids@.len() > 0 ==> r == Ok::<
                    Option<Amount>,
                    TradingEngineError,
                >(
                    Some(
                        Amount {
                            units: ((b.asks@[0].price.units + b.bids@[0].price.units) as int
                                / 2) as u64,
                        },
                    ),
                ))
            },
    {
        match self.find_market(&trading_pair) {
            None => Err(TradingEngineError::TradingPairDoesNotExist),
            Some(i) => {
                proof {
                    old(self).lemma_found_is_index(trading_pair, i as int);
                }
                Ok(self.orderbooks[i].book.mid_price())
            },
        }
    }

    /// The registered pairs, in creation order.
    #[verifier::loop_isolation(false)]
    pub fn get_markets(&self) -> (r: Markets)
        ensures
            r.markets@.len() == self.orderbooks@.len(),
            forall|i: int|
                0 <= i < r.markets@.len() ==> (#[trigger] r.markets@[i]).key()
                    == self.orderbooks@[i].pair.key(),
    {
        let mut v: Vec<TradingPair> = Vec::new();
        let mut i: usize = 0;
        while i < self.orderbooks.len()
            invariant
                i <= self.orderbooks@.len(),
                v@.len() == i,
                forall|j: int|
                    0 <= j < i ==> (#[trigger] v@[j]).key() == self.orderbooks@[j].pair.key(),
            decreases self.orderbooks@.len() - i,
        {
            v.push(self.orderbooks[i].pair.clone());
            i = i + 1;
        }
        Markets::new(v)
    }
}

} // verus!
