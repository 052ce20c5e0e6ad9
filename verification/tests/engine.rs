use orderbook::{Amount, CustomError, LimitOrder, MarketOrder, MarketOrderResponse, Markets,
    OpenOrder, Side, TradingEngine, TradingEngineError, TradingPair};

fn amt(mantissa: u64, places: u32) -> Amount {
    Amount::from_scaled(mantissa, places).unwrap()
}

#[test]
fn test_create_trade_engine() {
    let mut engine = TradingEngine::new();
    let trading_pair = TradingPair::new("BTC".to_string(), "USDT".to_string());
    let _ = engine.create_market(trading_pair.clone());
    let limit_order = LimitOrder {
        price: amt(105, 0),
        quantity: amt(200, 0),
        side: Side::Asks,
        user_id: 1,
    };
    let result = engine.add_limit_order_into_market(trading_pair, limit_order);

    assert_ne!(result, Err(TradingEngineError::TradingPairDoesNotExist));

    let open_order = OpenOrder::new(amt(105, 0), amt(200, 0), Side::Asks, amt(0, 0), 1, 1);

    assert_eq!(result, Ok(open_order));
}

#[test]
fn test_get_markets() {
    let mut engine = TradingEngine::new();
    let td1 = TradingPair::new("BTC".to_string(), "USDC".to_string());
    let td2 = TradingPair::new("BTC".to_string(), "USDT".to_string());
    let _ = engine.create_market(td1.clone());
    let _ = engine.create_market(td2.clone());
    let mut v = Vec::<TradingPair>::new();
    v.push(td1);
    v.push(td2);
    let markets = engine.get_markets();
    let expected_markets = Markets::new(v);
    assert_eq!(markets, expected_markets);
}

#[test]
fn test_add_limit_order() {
    let mut engine = TradingEngine::new();
    let trading_pair = TradingPair::new("BTC".to_string(), "USDT".to_string());
    let _ = engine.create_market(trading_pair.clone());
    let limit_order = LimitOrder {
        price: amt(105, 0),
        quantity: amt(200, 0),
        side: Side::Asks,
        user_id: 1,
    };
    let result = engine.add_limit_order_into_market(trading_pair, limit_order);

    assert_ne!(result, Err(TradingEngineError::TradingPairDoesNotExist));

    let open_order = OpenOrder::new(amt(105, 0), amt(200, 0), Side::Asks, amt(0, 0), 1, 1);

    assert_eq!(result, Ok(open_order));

    let trading_pair = TradingPair::new("BTC".to_string(), "SOL".to_string());
    let _ = engine.create_market(trading_pair.clone());
    let limit_order = LimitOrder {
        price: amt(105, 0),
        quantity: amt(200, 0),
        side: Side::Asks,
        user_id: 1,
    };
    let result = engine.add_limit_order_into_market(trading_pair, limit_order);

    assert_ne!(result, Err(TradingEngineError::TradingPairDoesNotExist));

    let open_order = OpenOrder::new(amt(105, 0), amt(200, 0), Side::Asks, amt(0, 0), 1, 1);

    assert_eq!(result, Ok(open_order));
}

#[test]
fn test_market_order_if_orderbook_is_empty() {
    let mut engine = TradingEngine::new();
    let trading_pair = TradingPair::new("BTC".to_string(), "USDT".to_string());
    let _ = engine.create_market(trading_pair.clone());
    let market_order = MarketOrder::new(amt(100, 0), Side::Asks, 1);
    let result = engine.add_market_order_into_market(trading_pair, market_order);
    let expected_response =
        MarketOrderResponse::new(false, None, None, Some(CustomError::LimitOrderDoesNotExist));
    assert_eq!(result, Ok(expected_response));
}
