use orderbook::{Amount, LimitOrder, OpenOrder, Order, Orderbook, Side};

fn amt(mantissa: u64, places: u32) -> Amount {
    Amount::from_scaled(mantissa, places).unwrap()
}

#[test]
fn create_limit_order() {
    let mut orderbook = Orderbook::new();
    let limit_order = LimitOrder {
        price: amt(105, 0),
        quantity: amt(200, 0),
        side: Side::Asks,
        user_id: 1,
    };
    let open_order = orderbook.add_limit_order(limit_order);

    // Wrong Side
    assert_ne!(open_order, OpenOrder::new(amt(105, 0), amt(200, 0), Side::Bids, amt(0, 0), 1, 1));
    // Wrong Filled Quantity
    assert_ne!(open_order, OpenOrder::new(amt(105, 0), amt(200, 0), Side::Asks, amt(100, 0), 1, 1));
    // Wrong UserID
    assert_ne!(open_order, OpenOrder::new(amt(105, 0), amt(200, 0), Side::Asks, amt(0, 0), 2, 1));
    // Wrong OrderID
    assert_ne!(open_order, OpenOrder::new(amt(105, 0), amt(200, 0), Side::Asks, amt(0, 0), 1, 23));
    // Everything Correct
    assert_eq!(open_order, OpenOrder::new(amt(105, 0), amt(200, 0), Side::Asks, amt(0, 0), 1, 1));
}

#[test]
fn adding_multiple_same_price_limit_order() {
    let mut orderbook = Orderbook::new();
    let limit_order = LimitOrder {
        price: amt(105, 0),
        quantity: amt(200, 0),
        side: Side::Asks,
        user_id: 1,
    };
    let open_order_1 = orderbook.add_limit_order(limit_order);
    // the ask side has gained exactly one price level
    assert!(orderbook.depth().asks.len() == 1);

    let limit_order_2 = LimitOrder {
        price: amt(105, 0),
        quantity: amt(800, 0),
        side: Side::Asks,
        user_id: 1,
    };
    let open_order_2 = orderbook.add_limit_order(limit_order_2);
    // still one price level after a second order at the same price
    assert!(orderbook.depth().asks.len() == 1);

    // the level queues the two orders in arrival order
    assert_eq!(orderbook.asks, vec![open_order_1, open_order_2]);

    // Do the same "BIDS"
    let limit_order = LimitOrder {
        price: amt(100, 0),
        quantity: amt(200, 0),
        side: Side::Bids,
        user_id: 1,
    };
    let open_order_1 = orderbook.add_limit_order(limit_order);
    assert!(orderbook.depth().bids.len() == 1);

    let limit_order_2 = LimitOrder {
        price: amt(100, 0),
        quantity: amt(800, 0),
        side: Side::Bids,
        user_id: 1,
    };
    let open_order_2 = orderbook.add_limit_order(limit_order_2);
    assert!(orderbook.depth().bids.len() == 1);

    assert_eq!(orderbook.bids, vec![open_order_1, open_order_2]);
}

#[test]
fn matching_limit_orders() {
    // Match an existing asks order with a bids order at the same price
    let mut orderbook = Orderbook::new();
    let limit_order = LimitOrder {
        price: amt(105, 0),
        quantity: amt(200, 0),
        side: Side::Asks,
        user_id: 1,
    };
    orderbook.add_limit_order(limit_order);
    assert!(orderbook.depth().asks.len() == 1);

    let limit_order = LimitOrder {
        price: amt(105, 0),
        quantity: amt(100, 0),
        side: Side::Bids,
        user_id: 1,
    };
    let open_order_2 = orderbook.add_limit_order(limit_order);
    let expected_open_order = OpenOrder::new(amt(105, 0), amt(100, 0), Side::Bids, amt(100, 0), 1, 2);
    assert_eq!(open_order_2, expected_open_order);

    drop(orderbook);

    // Match an existing bids order with an asks order at the same price
    let mut orderbook = Orderbook::new();
    let limit_order = LimitOrder {
        price: amt(105, 0),
        quantity: amt(200, 0),
        side: Side::Bids,
        user_id: 1,
    };
    orderbook.add_limit_order(limit_order);
    assert!(orderbook.depth().bids.len() == 1);

    let limit_order = LimitOrder {
        price: amt(105, 0),
        quantity: amt(100, 0),
        side: Side::Asks,
        user_id: 1,
    };
    let open_order_2 = orderbook.add_limit_order(limit_order);
    let expected_open_order = OpenOrder::new(amt(105, 0), amt(100, 0), Side::Asks, amt(100, 0), 1, 2);
    assert_eq!(open_order_2, expected_open_order);

    drop(orderbook);

    // A bid priced better than several asks matches level by level until
    // its own price stops it
    let mut orderbook = Orderbook::new();
    let prices: [u64; 5] = [1051, 1052, 1055, 1058, 1059];
    for p in prices {
        let o = LimitOrder { price: amt(p, 1), quantity: amt(200, 0), side: Side::Asks, user_id: 1 };
        orderbook.add_limit_order(o);
    }

    let limit_order_6 = LimitOrder {
        price: amt(1055, 1),
        quantity: amt(100, 0),
        side: Side::Bids,
        user_id: 1,
    };
    let open_order = orderbook.add_limit_order(limit_order_6);
    let expected_open_order = OpenOrder::new(amt(1055, 1), amt(100, 0), Side::Bids, amt(100, 0), 1, 6);
    assert_eq!(open_order, expected_open_order);
    // the first ask is partially filled
    let entry = orderbook.asks.iter().find(|v| v.order_id == 1).unwrap();
    assert_eq!(entry.quantity_filled, amt(100, 0));

    let limit_order_7 = LimitOrder {
        price: amt(1055, 1),
        quantity: amt(600, 0),
        side: Side::Bids,
        user_id: 1,
    };
    let open_order = orderbook.add_limit_order(limit_order_7);
    let expected_open_order = OpenOrder::new(amt(1055, 1), amt(600, 0), Side::Bids, amt(500, 0), 1, 7);
    assert_eq!(open_order, expected_open_order);

    let bids = orderbook.get_bids();
    let expected_bids = vec![Order { price: open_order.price, quantity: amt(100, 0), order_count: 1 }];
    assert_eq!(bids, expected_bids);

    drop(orderbook);

    // Symmetrically: an ask priced better than several bids
    let mut orderbook = Orderbook::new();
    for p in prices {
        let o = LimitOrder { price: amt(p, 1), quantity: amt(200, 0), side: Side::Bids, user_id: 1 };
        orderbook.add_limit_order(o);
    }

    let limit_order_6 = LimitOrder {
        price: amt(1055, 1),
        quantity: amt(100, 0),
        side: Side::Asks,
        user_id: 1,
    };
    let open_order = orderbook.add_limit_order(limit_order_6);
    let expected_open_order = OpenOrder::new(amt(1055, 1), amt(100, 0), Side::Asks, amt(100, 0), 1, 6);
    assert_eq!(open_order, expected_open_order);
    // the best (highest) bid is partially filled
    let entry = orderbook.bids.iter().find(|v| v.order_id == 5).unwrap();
    assert_eq!(entry.quantity_filled, amt(100, 0));

    let limit_order_7 = LimitOrder {
        price: amt(1055, 1),
        quantity: amt(600, 0),
        side: Side::Asks,
        user_id: 1,
    };
    let open_order = orderbook.add_limit_order(limit_order_7);
    let expected_open_order = OpenOrder::new(amt(1055, 1), amt(600, 0), Side::Asks, amt(500, 0), 1, 7);
    assert_eq!(open_order, expected_open_order);

    let asks = orderbook.get_asks();
    let expected_asks = vec![Order { price: open_order.price, quantity: amt(100, 0), order_count: 1 }];
    assert_eq!(asks, expected_asks);
}
