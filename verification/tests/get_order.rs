use orderbook::{Amount, CustomError, ErrorResponse, LimitOrder, OpenOrder, Orderbook, Side};

fn amt(mantissa: u64, places: u32) -> Amount {
    Amount::from_scaled(mantissa, places).unwrap()
}

#[test]
fn test_get_existing_order() {
    let mut orderbook = Orderbook::new();

    let limit_order_1 = LimitOrder {
        price: amt(105, 0),
        quantity: amt(200, 0),
        side: Side::Bids,
        user_id: 1,
    };
    let open_order_1 = orderbook.add_limit_order(limit_order_1);
    let result = orderbook.get_order(open_order_1.order_id);
    assert_eq!(result, Ok(open_order_1));
}

#[test]
fn test_get_matched_order() {
    let mut orderbook = Orderbook::new();

    let limit_order_1 = LimitOrder {
        price: amt(105, 0),
        quantity: amt(200, 0),
        side: Side::Bids,
        user_id: 1,
    };
    let limit_order_2 = LimitOrder {
        price: amt(105, 0),
        quantity: amt(200, 0),
        side: Side::Asks,
        user_id: 1,
    };
    let open_order_1 = orderbook.add_limit_order(limit_order_1);
    orderbook.add_limit_order(limit_order_2);
    let result = orderbook.get_order(open_order_1.order_id);
    let expected_result = OpenOrder::new(amt(105, 0), amt(200, 0), Side::Bids, amt(200, 0), 1, 1);
    assert_eq!(result, Ok(expected_result));
}

#[test]
fn test_get_partially_filled_order() {
    let mut orderbook = Orderbook::new();

    let limit_order_1 = LimitOrder {
        price: amt(105, 0),
        quantity: amt(200, 0),
        side: Side::Bids,
        user_id: 1,
    };
    let limit_order_2 = LimitOrder {
        price: amt(105, 0),
        quantity: amt(100, 0),
        side: Side::Asks,
        user_id: 1,
    };
    let open_order_1 = orderbook.add_limit_order(limit_order_1);
    orderbook.add_limit_order(limit_order_2);
    let result = orderbook.get_order(open_order_1.order_id);
    let expected_result = OpenOrder::new(amt(105, 0), amt(200, 0), Side::Bids, amt(100, 0), 1, 1);
    assert_eq!(result, Ok(expected_result));
}

#[test]
fn test_non_existent_order() {
    let orderbook = Orderbook::new();
    let result = orderbook.get_order(1);
    assert_eq!(result, Err(ErrorResponse::new(CustomError::OrderDoesNotExist)));
}
