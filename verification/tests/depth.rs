use orderbook::{Amount, Depth, LimitOrder, Order, Orderbook, Side};

fn amt(mantissa: u64, places: u32) -> Amount {
    Amount::from_scaled(mantissa, places).unwrap()
}

#[test]
fn test_get_depth() {
    let mut orderbook = Orderbook::new();
    for p in [105u64, 106, 107, 108] {
        let o = LimitOrder { price: amt(p, 0), quantity: amt(200, 0), side: Side::Asks, user_id: 1 };
        orderbook.add_limit_order(o);
    }

    let depth = orderbook.depth();
    let expected_bids = Vec::<Order>::new();
    let expected_asks = vec![
        Order::new(amt(105, 0), amt(200, 0), 1),
        Order::new(amt(106, 0), amt(200, 0), 1),
        Order::new(amt(107, 0), amt(200, 0), 1),
        Order::new(amt(108, 0), amt(200, 0), 1),
    ];
    let expected_depth = Depth { asks: expected_asks, bids: expected_bids };
    assert_eq!(depth, expected_depth);

    for p in [103u64, 102, 101, 100] {
        let o = LimitOrder { price: amt(p, 0), quantity: amt(200, 0), side: Side::Bids, user_id: 1 };
        orderbook.add_limit_order(o);
    }

    let depth = orderbook.depth();

    let expected_asks = vec![
        Order::new(amt(105, 0), amt(200, 0), 1),
        Order::new(amt(106, 0), amt(200, 0), 1),
        Order::new(amt(107, 0), amt(200, 0), 1),
        Order::new(amt(108, 0), amt(200, 0), 1),
    ];
    let expected_bids = vec![
        Order::new(amt(103, 0), amt(200, 0), 1),
        Order::new(amt(102, 0), amt(200, 0), 1),
        Order::new(amt(101, 0), amt(200, 0), 1),
        Order::new(amt(100, 0), amt(200, 0), 1),
    ];

    let expected_depth = Depth { asks: expected_asks, bids: expected_bids };
    assert_eq!(depth, expected_depth);
}
