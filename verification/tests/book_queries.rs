use orderbook::{Amount, LimitOrder, Orderbook, Side};

fn amt(mantissa: u64, places: u32) -> Amount {
    Amount::from_scaled(mantissa, places).unwrap()
}

#[test]
fn test_get_best_ask() {
    let mut orderbook = Orderbook::new();

    assert!(orderbook.get_best_ask() == None);

    let limit_order = LimitOrder {
        price: amt(105, 0),
        quantity: amt(200, 0),
        side: Side::Asks,
        user_id: 1,
    };
    orderbook.add_limit_order(limit_order.clone());
    assert_ne!(orderbook.get_best_ask(), None);
    assert_eq!(orderbook.get_best_ask(), Some(limit_order.price));

    let limit_order_2 = LimitOrder {
        price: amt(110, 0),
        quantity: amt(200, 0),
        side: Side::Asks,
        user_id: 1,
    };
    orderbook.add_limit_order(limit_order_2.clone());
    assert_ne!(orderbook.get_best_ask(), Some(limit_order_2.price));
    assert_eq!(orderbook.get_best_ask(), Some(limit_order.price));

    let limit_order_3 = LimitOrder {
        price: amt(100, 0),
        quantity: amt(200, 0),
        side: Side::Asks,
        user_id: 1,
    };
    orderbook.add_limit_order(limit_order_3.clone());
    assert_ne!(orderbook.get_best_ask(), Some(limit_order.price));
    assert_eq!(orderbook.get_best_ask(), Some(limit_order_3.price));
}

#[test]
fn test_get_best_bid() {
    let mut orderbook = Orderbook::new();

    assert!(orderbook.get_best_bid() == None);

    let limit_order = LimitOrder {
        price: amt(105, 0),
        quantity: amt(200, 0),
        side: Side::Bids,
        user_id: 1,
    };
    orderbook.add_limit_order(limit_order.clone());
    assert_ne!(orderbook.get_best_bid(), None);
    assert_eq!(orderbook.get_best_bid(), Some(limit_order.price));

    let limit_order_2 = LimitOrder {
        price: amt(1055, 1),
        quantity: amt(200, 0),
        side: Side::Bids,
        user_id: 1,
    };
    orderbook.add_limit_order(limit_order_2.clone());
    assert_ne!(orderbook.get_best_bid(), Some(limit_order.price));
    assert_eq!(orderbook.get_best_bid(), Some(limit_order_2.price));

    let limit_order_3 = LimitOrder {
        price: amt(1045, 1),
        quantity: amt(200, 0),
        side: Side::Bids,
        user_id: 1,
    };
    orderbook.add_limit_order(limit_order_3.clone());
    assert_ne!(orderbook.get_best_bid(), Some(limit_order_3.price));
    assert_eq!(orderbook.get_best_bid(), Some(limit_order_2.price));
}

#[test]
fn test_get_spread() {
    let mut orderbook = Orderbook::new();
    let limit_order = LimitOrder {
        price: amt(105, 0),
        quantity: amt(200, 0),
        side: Side::Asks,
        user_id: 1,
    };
    orderbook.add_limit_order(limit_order.clone());
    let limit_order_2 = LimitOrder {
        price: amt(104, 0),
        quantity: amt(200, 0),
        side: Side::Bids,
        user_id: 1,
    };
    orderbook.add_limit_order(limit_order_2.clone());

    let result = orderbook.get_spread();
    assert_eq!(result, Some(amt(1, 0)));

    drop(orderbook);

    let orderbook = Orderbook::new();
    let result = orderbook.get_spread();
    assert_eq!(result, None);
}

#[test]
fn test_get_mid_price() {
    let mut orderbook = Orderbook::new();
    let limit_order = LimitOrder {
        price: amt(105, 0),
        quantity: amt(200, 0),
        side: Side::Asks,
        user_id: 1,
    };
    orderbook.add_limit_order(limit_order.clone());
    let limit_order_2 = LimitOrder {
        price: amt(104, 0),
        quantity: amt(200, 0),
        side: Side::Bids,
        user_id: 1,
    };
    orderbook.add_limit_order(limit_order_2.clone());

    let result = orderbook.mid_price();
    assert_eq!(result, Some(amt(1045, 1)));

    drop(orderbook);

    let orderbook = Orderbook::new();
    let result = orderbook.get_spread();
    assert_eq!(result, None);
}
