use orderbook::{Amount, CustomError, DeleteResponse, ErrorResponse, LimitOrder, MarketOrder,
    MarketOrderResponse, ModifyOrderRequest, ModifyOrderResponse, OpenOrder, Order, Orderbook,
    Side, TradingEngine, TradingEngineError, TradingPair};
use orderbook::facade;

fn amt(mantissa: u64, places: u32) -> Amount {
    Amount::from_scaled(mantissa, places).unwrap()
}

fn ask(price: Amount, quantity: Amount, user_id: u64) -> LimitOrder {
    LimitOrder { price, quantity, side: Side::Asks, user_id }
}

fn bid(price: Amount, quantity: Amount, user_id: u64) -> LimitOrder {
    LimitOrder { price, quantity, side: Side::Bids, user_id }
}

#[test]
fn amount_equality_is_numeric() {
    // 100.0, 100.00 and 100 are one value
    assert_eq!(Amount::from_scaled(1000, 1).unwrap(), Amount::from_scaled(10000, 2).unwrap());
    assert_eq!(Amount::from_scaled(1000, 1).unwrap(), Amount::from_int(100).unwrap());
    assert_ne!(Amount::from_scaled(1001, 1).unwrap(), Amount::from_int(100).unwrap());
    // beyond the carried scale, construction fails rather than rounding
    assert_eq!(Amount::from_scaled(5, 10), None);
}

#[test]
fn simple_equal_price_cross() {
    let mut engine = TradingEngine::new();
    let pair = TradingPair::new("BTC".to_string(), "USDT".to_string());
    assert_eq!(engine.create_market(pair.clone()), Ok(()));

    let r1 = engine.add_limit_order_into_market(pair.clone(), ask(amt(105, 0), amt(200, 0), 1));
    assert_eq!(r1, Ok(OpenOrder::new(amt(105, 0), amt(200, 0), Side::Asks, amt(0, 0), 1, 1)));

    let r2 = engine.add_limit_order_into_market(pair.clone(), bid(amt(105, 0), amt(100, 0), 2));
    assert_eq!(r2, Ok(OpenOrder::new(amt(105, 0), amt(100, 0), Side::Bids, amt(100, 0), 2, 2)));

    let depth = engine.get_market_depth(pair.clone()).unwrap();
    assert_eq!(depth.asks, vec![Order::new(amt(105, 0), amt(100, 0), 1)]);
    assert_eq!(depth.bids, vec![]);

    let o1 = engine.get_order_by_id_for_market(pair, 1).unwrap().unwrap();
    assert_eq!(o1.quantity_filled, amt(100, 0));
}

#[test]
fn walk_through_the_book() {
    let mut book = Orderbook::new();
    for p in [1051u64, 1052, 1055, 1058, 1059] {
        book.add_limit_order(ask(amt(p, 1), amt(200, 0), 1));
    }

    let r6 = book.add_limit_order(bid(amt(1055, 1), amt(100, 0), 1));
    assert_eq!(r6.order_id, 6);
    assert_eq!(r6.quantity_filled, amt(100, 0));
    assert_eq!(book.get_order(1).unwrap().quantity_filled, amt(100, 0));
    // structurally unchanged: five ask levels, no bids
    assert_eq!(book.depth().asks.len(), 5);
    assert_eq!(book.depth().bids.len(), 0);

    let r7 = book.add_limit_order(bid(amt(1055, 1), amt(600, 0), 1));
    assert_eq!(r7.order_id, 7);
    assert_eq!(r7.quantity_filled, amt(500, 0));
    // orders 1, 2 and 3 are gone from the asks
    assert!(book.asks.iter().all(|o| o.order_id > 3));
    // 100 rests on the bid side at 105.5
    assert_eq!(book.depth().bids, vec![Order::new(amt(1055, 1), amt(100, 0), 1)]);
}

#[test]
fn market_order_averages_over_touched_orders() {
    let mut book = Orderbook::new();
    book.add_limit_order(ask(amt(105, 0), amt(200, 0), 1));
    book.add_limit_order(ask(amt(107, 0), amt(200, 0), 1));

    let r = book.add_market_order(MarketOrder::new(amt(300, 0), Side::Bids, 2));
    // equal-weighted over the two touched orders, not size-weighted
    assert_eq!(r, MarketOrderResponse::new(true, Some(amt(106, 0)), Some(amt(300, 0)), None));
    assert_eq!(book.depth().asks, vec![Order::new(amt(107, 0), amt(100, 0), 1)]);
}

#[test]
fn cancel_an_active_order() {
    let mut book = Orderbook::new();
    let o = book.add_limit_order(ask(amt(105, 0), amt(200, 0), 1));
    let r = book.delete_order(o.order_id);
    assert_eq!(r, Ok(DeleteResponse::new(amt(105, 0), amt(200, 0), amt(0, 0), o.order_id)));
    assert_eq!(book.depth().asks, vec![]);
    // cancelling again: the order is no longer reachable as active
    let again = book.delete_order(o.order_id);
    assert_eq!(again, Err(ErrorResponse::new(CustomError::OrderDoesNotExist)));
    // the record itself stays queryable
    assert_eq!(book.get_order(o.order_id).unwrap().quantity, amt(200, 0));
}

#[test]
fn cancel_a_fully_matched_order() {
    let mut book = Orderbook::new();
    let a = book.add_limit_order(ask(amt(105, 0), amt(200, 0), 1));
    book.add_limit_order(bid(amt(105, 0), amt(200, 0), 2));
    let r = book.delete_order(a.order_id);
    assert_eq!(r, Err(ErrorResponse::new(CustomError::OrderAlreadyMatched)));
    assert_eq!(book.depth().asks, vec![]);
    assert_eq!(book.depth().bids, vec![]);
}

#[test]
fn modify_with_quantity_below_fill() {
    let mut book = Orderbook::new();
    book.add_limit_order(bid(amt(105, 0), amt(200, 0), 1));
    book.add_limit_order(ask(amt(105, 0), amt(100, 0), 2));
    assert_eq!(book.get_order(1).unwrap().quantity_filled, amt(100, 0));

    let too_small = ModifyOrderRequest { price: None, quantity: Some(amt(50, 0)), order_id: 1 };
    assert_eq!(
        book.modify_order(too_small),
        Err(ErrorResponse::new(CustomError::ModifyQuantityCannotBeLesserThanFilledQuantity))
    );

    let ok = ModifyOrderRequest { price: None, quantity: Some(amt(150, 0)), order_id: 1 };
    assert_eq!(book.modify_order(ok), Ok(ModifyOrderResponse::new(amt(105, 0), amt(150, 0), 1)));
    let o = book.get_order(1).unwrap();
    assert_eq!(o.quantity, amt(150, 0));
    assert_eq!(o.quantity_filled, amt(100, 0));
}

#[test]
fn limit_order_for_exactly_all_liquidity_drains_the_side() {
    let mut book = Orderbook::new();
    book.add_limit_order(ask(amt(105, 0), amt(200, 0), 1));
    book.add_limit_order(ask(amt(106, 0), amt(300, 0), 1));

    let r = book.add_limit_order(bid(amt(106, 0), amt(500, 0), 2));
    // fills entirely, leaves the opposing side empty, nothing rests
    assert_eq!(r.quantity_filled, amt(500, 0));
    assert!(book.asks.is_empty());
    assert!(book.bids.is_empty());
}

#[test]
fn market_order_beyond_liquidity_partially_fills() {
    let mut book = Orderbook::new();
    book.add_limit_order(ask(amt(105, 0), amt(200, 0), 1));
    book.add_limit_order(ask(amt(106, 0), amt(100, 0), 1));

    let r = book.add_market_order(MarketOrder::new(amt(500, 0), Side::Bids, 2));
    // success with filled_quantity below the request; the side is empty
    assert_eq!(r.success, true);
    assert_eq!(r.quantity, Some(amt(300, 0)));
    assert!(book.asks.is_empty());
}

#[test]
fn market_order_without_liquidity_changes_nothing() {
    let mut book = Orderbook::new();
    book.add_limit_order(bid(amt(100, 0), amt(50, 0), 1));
    let before_bids = book.bids.clone();

    let r = book.add_market_order(MarketOrder::new(amt(10, 0), Side::Bids, 2));
    assert_eq!(r, MarketOrderResponse::new(false, None, None, Some(CustomError::LimitOrderDoesNotExist)));
    assert_eq!(book.bids, before_bids);
    assert!(book.asks.is_empty());
}

#[test]
fn admit_and_cancel_round_trip() {
    let mut book = Orderbook::new();
    book.add_limit_order(ask(amt(110, 0), amt(10, 0), 1));
    book.add_limit_order(bid(amt(100, 0), amt(10, 0), 1));
    let asks_before = book.asks.clone();
    let bids_before = book.bids.clone();

    // a bid that cannot cross rests, and cancelling it restores the book
    let o = book.add_limit_order(bid(amt(105, 0), amt(7, 0), 2));
    assert_eq!(o.quantity_filled, amt(0, 0));
    book.delete_order(o.order_id).unwrap();

    assert_eq!(book.asks, asks_before);
    assert_eq!(book.bids, bids_before);
    // the index retains the cancelled record, and the counter advanced
    assert_eq!(book.get_order(o.order_id).unwrap().quantity, amt(7, 0));
    assert_eq!(book.order_id_index, 3);
}

#[test]
fn depth_is_a_pure_function_of_state() {
    let mut book = Orderbook::new();
    book.add_limit_order(ask(amt(105, 0), amt(200, 0), 1));
    book.add_limit_order(ask(amt(105, 0), amt(50, 0), 2));
    book.add_limit_order(bid(amt(104, 0), amt(70, 0), 3));

    let d1 = book.depth();
    let d2 = book.depth();
    assert_eq!(d1, d2);
    // levels aggregate remaining quantity and order count
    assert_eq!(d1.asks, vec![Order::new(amt(105, 0), amt(250, 0), 2)]);
    assert_eq!(d1.bids, vec![Order::new(amt(104, 0), amt(70, 0), 1)]);
}

#[test]
fn earlier_order_at_a_price_fills_first() {
    let mut book = Orderbook::new();
    book.add_limit_order(ask(amt(105, 0), amt(100, 0), 1));
    book.add_limit_order(ask(amt(105, 0), amt(100, 0), 2));

    book.add_limit_order(bid(amt(105, 0), amt(150, 0), 3));
    // order 1 arrived first: consumed whole; order 2 only partially
    assert_eq!(book.get_order(1).unwrap().quantity_filled, amt(100, 0));
    assert_eq!(book.get_order(2).unwrap().quantity_filled, amt(50, 0));
    assert_eq!(book.asks.len(), 1);
    assert_eq!(book.asks[0].order_id, 2);
}

#[test]
fn ids_increase_from_one() {
    let mut book = Orderbook::new();
    let a = book.add_limit_order(ask(amt(105, 0), amt(10, 0), 1));
    let b = book.add_limit_order(ask(amt(106, 0), amt(10, 0), 1));
    let c = book.add_limit_order(bid(amt(99, 0), amt(10, 0), 1));
    assert_eq!((a.order_id, b.order_id, c.order_id), (1, 2, 3));
    // market orders are ephemeral: no id is consumed
    book.add_market_order(MarketOrder::new(amt(5, 0), Side::Bids, 2));
    let d = book.add_limit_order(bid(amt(98, 0), amt(10, 0), 1));
    assert_eq!(d.order_id, 4);
}

#[test]
fn modify_price_moves_to_the_tail_of_the_new_level() {
    let mut book = Orderbook::new();
    book.add_limit_order(ask(amt(105, 0), amt(100, 0), 1));
    book.add_limit_order(ask(amt(106, 0), amt(100, 0), 2));

    // repricing order 2 to 105 puts it behind order 1
    let req = ModifyOrderRequest { price: Some(amt(105, 0)), quantity: None, order_id: 2 };
    assert_eq!(book.modify_order(req), Ok(ModifyOrderResponse::new(amt(105, 0), amt(100, 0), 2)));
    assert_eq!(book.asks[0].order_id, 1);
    assert_eq!(book.asks[1].order_id, 2);

    book.add_limit_order(bid(amt(105, 0), amt(150, 0), 3));
    assert_eq!(book.get_order(1).unwrap().quantity_filled, amt(100, 0));
    assert_eq!(book.get_order(2).unwrap().quantity_filled, amt(50, 0));
}

#[test]
fn modify_price_cannot_cross_the_book() {
    let mut book = Orderbook::new();
    book.add_limit_order(ask(amt(105, 0), amt(100, 0), 1));
    book.add_limit_order(bid(amt(100, 0), amt(100, 0), 2));

    // repricing the bid to meet or beat the best ask is rejected
    let cross = ModifyOrderRequest { price: Some(amt(105, 0)), quantity: None, order_id: 2 };
    assert_eq!(
        book.modify_order(cross),
        Err(ErrorResponse::new(CustomError::ModifyPriceWouldCrossBook))
    );
    // an improvement below the best ask is accepted
    let ok = ModifyOrderRequest { price: Some(amt(104, 0)), quantity: None, order_id: 2 };
    assert_eq!(book.modify_order(ok), Ok(ModifyOrderResponse::new(amt(104, 0), amt(100, 0), 2)));
    assert_eq!(book.get_best_bid(), Some(amt(104, 0)));
}

#[test]
fn modify_to_the_filled_quantity_closes_the_order() {
    let mut book = Orderbook::new();
    book.add_limit_order(bid(amt(105, 0), amt(200, 0), 1));
    book.add_limit_order(ask(amt(105, 0), amt(100, 0), 2));

    let req = ModifyOrderRequest { price: None, quantity: Some(amt(100, 0)), order_id: 1 };
    assert_eq!(book.modify_order(req), Ok(ModifyOrderResponse::new(amt(105, 0), amt(100, 0), 1)));
    // the order is now fully matched and out of its queue
    assert!(book.bids.is_empty());
    assert_eq!(
        book.delete_order(1),
        Err(ErrorResponse::new(CustomError::OrderAlreadyMatched))
    );
}

#[test]
fn worst_prices_are_the_far_ends() {
    let mut book = Orderbook::new();
    book.add_limit_order(ask(amt(105, 0), amt(10, 0), 1));
    book.add_limit_order(ask(amt(110, 0), amt(10, 0), 1));
    book.add_limit_order(bid(amt(100, 0), amt(10, 0), 1));
    book.add_limit_order(bid(amt(95, 0), amt(10, 0), 1));
    assert_eq!(book.get_worst_ask(), Some(amt(110, 0)));
    assert_eq!(book.get_worst_bid(), Some(amt(95, 0)));
    assert_eq!(Orderbook::new().get_worst_ask(), None);
    assert_eq!(Orderbook::new().get_worst_bid(), None);
}

#[test]
fn engine_errors_are_distinct_from_book_errors() {
    let mut engine = TradingEngine::new();
    let pair = TradingPair::new("ETH".to_string(), "USDT".to_string());

    // unknown market: engine error
    let r = engine.delete_order_for_market(pair.clone(), 1);
    assert_eq!(r, Err(TradingEngineError::TradingPairDoesNotExist));

    assert_eq!(engine.create_market(pair.clone()), Ok(()));
    // duplicate market
    assert_eq!(
        engine.create_market(TradingPair::new("ETH".to_string(), "USDT".to_string())),
        Err(TradingEngineError::TradingPairAlreadyExists)
    );

    // known market, unknown order: book error inside an engine success
    let r = engine.delete_order_for_market(pair.clone(), 1);
    assert_eq!(r, Ok(Err(ErrorResponse::new(CustomError::OrderDoesNotExist))));

    // the facade keeps the two domains in separate fields
    let envelope = facade::delete_order_envelope(
        engine.delete_order_for_market(pair.clone(), 1),
    );
    assert_eq!(envelope.engine_error, None);
    assert_eq!(envelope.orderbook_error, Some(CustomError::OrderDoesNotExist));

    let envelope = facade::delete_order_envelope(
        engine.delete_order_for_market(TradingPair::new("X".to_string(), "Y".to_string()), 1),
    );
    assert_eq!(envelope.engine_error, Some(TradingEngineError::TradingPairDoesNotExist));
    assert_eq!(envelope.orderbook_error, None);
}

#[test]
fn facade_envelopes_carry_the_payload() {
    let mut engine = TradingEngine::new();
    let pair = TradingPair::new("BTC".to_string(), "USDT".to_string());
    let created = facade::create_market_envelope(engine.create_market(pair.clone()), pair.clone());
    assert!(created.created);

    let r = engine.add_limit_order_into_market(pair.clone(), ask(amt(105, 0), amt(200, 0), 1));
    let env = facade::limit_order_envelope(r);
    assert_eq!(env.open_order.unwrap().order_id, 1);
    assert_eq!(env.error, None);

    let env = facade::mid_price_envelope(engine.get_mid_price_for_market(pair.clone()));
    assert_eq!(env.price, None);
    assert_eq!(env.error, None);

    let r = engine.add_limit_order_into_market(pair.clone(), bid(amt(103, 0), amt(50, 0), 2));
    assert!(r.is_ok());
    let env = facade::mid_price_envelope(engine.get_mid_price_for_market(pair.clone()));
    assert_eq!(env.price, Some(amt(104, 0)));

    let env = facade::depth_envelope(engine.get_market_depth(pair.clone()));
    assert_eq!(env.depth.unwrap().asks, vec![Order::new(amt(105, 0), amt(200, 0), 1)]);

    let env = facade::market_order_envelope(
        engine.add_market_order_into_market(pair.clone(), MarketOrder::new(amt(10, 0), Side::Bids, 3)),
    );
    assert_eq!(env.response.unwrap().quantity, Some(amt(10, 0)));

    let env = facade::modify_order_envelope(engine.modify_order_for_market(
        pair.clone(),
        ModifyOrderRequest { price: None, quantity: Some(amt(210, 0)), order_id: 1 },
    ));
    assert_eq!(env.response.unwrap().quantity, amt(210, 0));

    let env = facade::get_order_envelope(engine.get_order_by_id_for_market(pair.clone(), 1));
    assert_eq!(env.response.unwrap().quantity, amt(210, 0));

    let markets = facade::GetMarketsResponse::new(engine.get_markets());
    assert_eq!(markets.markets, vec![pair]);
}

#[test]
fn mid_price_rounds_toward_zero_at_the_fixed_scale() {
    let mut book = Orderbook::new();
    book.add_limit_order(ask(amt(106, 0), amt(10, 0), 1));
    book.add_limit_order(bid(amt(105, 0), amt(10, 0), 1));
    // (106 + 105) / 2 = 105.5 exactly at the carried scale
    assert_eq!(book.mid_price(), Some(amt(1055, 1)));
    assert_eq!(book.get_spread(), Some(amt(1, 0)));
}
