use orderbook::{Amount, CustomError, LimitOrder, MarketOrder, MarketOrderResponse, OpenOrder,
    Orderbook, Side};

fn amt(mantissa: u64, places: u32) -> Amount {
    Amount::from_scaled(mantissa, places).unwrap()
}

#[test]
fn create_market_order() {
    let mut orderbook = Orderbook::new();
    let limit_order = LimitOrder {
        price: amt(105, 0),
        quantity: amt(200, 0),
        side: Side::Asks,
        user_id: 1,
    };
    orderbook.add_limit_order(limit_order);
    let market_order = MarketOrder::new(amt(10, 0), Side::Bids, 1);
    let market_order_response = orderbook.add_market_order(market_order);
    let expected_market_order_response =
        MarketOrderResponse::new(true, Some(amt(105, 0)), Some(amt(10, 0)), None);
    assert_eq!(market_order_response, expected_market_order_response);
}

#[test]
fn if_there_is_no_order() {
    let mut orderbook = Orderbook::new();
    // There is no BIDS
    let market_order = MarketOrder::new(amt(10, 0), Side::Asks, 1);
    let market_order_response = orderbook.add_market_order(market_order);
    let expected_market_order_response =
        MarketOrderResponse::new(false, None, None, Some(CustomError::LimitOrderDoesNotExist));
    assert_eq!(market_order_response, expected_market_order_response);

    // There is no ASKS
    let market_order = MarketOrder::new(amt(10, 0), Side::Bids, 1);
    let market_order_response = orderbook.add_market_order(market_order);
    let expected_market_order_response =
        MarketOrderResponse::new(false, None, None, Some(CustomError::LimitOrderDoesNotExist));
    assert_eq!(market_order_response, expected_market_order_response);
}

#[test]
fn if_there_is_not_enough_quantity_in_orderbook() {
    let mut orderbook = Orderbook::new();
    let limit_order = LimitOrder {
        price: amt(105, 0),
        quantity: amt(200, 0),
        side: Side::Asks,
        user_id: 1,
    };
    orderbook.add_limit_order(limit_order);
    let market_order = MarketOrder::new(amt(300, 0), Side::Bids, 1);
    let market_order_response = orderbook.add_market_order(market_order);
    let expected_market_order_response =
        MarketOrderResponse::new(true, Some(amt(105, 0)), Some(amt(200, 0)), None);
    assert_eq!(market_order_response, expected_market_order_response);

    drop(orderbook);

    let mut orderbook = Orderbook::new();
    let limit_order = LimitOrder {
        price: amt(105, 0),
        quantity: amt(200, 0),
        side: Side::Bids,
        user_id: 1,
    };
    orderbook.add_limit_order(limit_order);
    let market_order = MarketOrder::new(amt(300, 0), Side::Asks, 1);
    let market_order_response = orderbook.add_market_order(market_order);
    let expected_market_order_response =
        MarketOrderResponse::new(true, Some(amt(105, 0)), Some(amt(200, 0)), None);
    assert_eq!(market_order_response, expected_market_order_response);
}

#[test]
fn filling_multiple_orders_on_orderbook() {
    // Asks order
    let mut orderbook = Orderbook::new();
    let limit_order_1 = LimitOrder {
        price: amt(105, 0),
        quantity: amt(200, 0),
        side: Side::Asks,
        user_id: 1,
    };
    let limit_order_2 = LimitOrder {
        price: amt(107, 0),
        quantity: amt(200, 0),
        side: Side::Asks,
        user_id: 1,
    };
    orderbook.add_limit_order(limit_order_1);
    orderbook.add_limit_order(limit_order_2);
    let market_order = MarketOrder::new(amt(300, 0), Side::Bids, 1);
    let market_order_response = orderbook.add_market_order(market_order);
    let expected_market_order_response =
        MarketOrderResponse::new(true, Some(amt(106, 0)), Some(amt(300, 0)), None);
    assert_eq!(market_order_response, expected_market_order_response);

    let expected_asks = vec![OpenOrder::new(amt(107, 0), amt(200, 0), Side::Asks, amt(100, 0), 1, 2)];
    assert_eq!(orderbook.asks, expected_asks);

    // Bids Order
    let mut orderbook = Orderbook::new();
    let limit_order_1 = LimitOrder {
        price: amt(105, 0),
        quantity: amt(200, 0),
        side: Side::Bids,
        user_id: 1,
    };
    let limit_order_2 = LimitOrder {
        price: amt(107, 0),
        quantity: amt(200, 0),
        side: Side::Bids,
        user_id: 1,
    };
    orderbook.add_limit_order(limit_order_1);
    orderbook.add_limit_order(limit_order_2);
    let market_order = MarketOrder::new(amt(300, 0), Side::Asks, 1);
    let market_order_response = orderbook.add_market_order(market_order);
    let expected_market_order_response =
        MarketOrderResponse::new(true, Some(amt(106, 0)), Some(amt(300, 0)), None);
    assert_eq!(market_order_response, expected_market_order_response);

    let expected_bids = vec![OpenOrder::new(amt(105, 0), amt(200, 0), Side::Bids, amt(100, 0), 1, 1)];
    assert_eq!(orderbook.bids, expected_bids);
}
