use matcher::orderbook::OrderBookSimulator;
use matcher::u256::U256;

#[test]
fn test_insert_single_order() {
    let mut sim = OrderBookSimulator::new();

    let insert_after = sim.simulate_insert_order(
        U256::from(1),
        U256::from(100),
        U256::from(10),
        false, // bid
    );

    assert_eq!(insert_after, U256::zero());
    assert_eq!(sim.bid_head, U256::from(100));
    assert_eq!(sim.get_price_levels(false), vec![U256::from(100)]);
}

#[test]
fn test_insert_multiple_orders_same_side() {
    let mut sim = OrderBookSimulator::new();

    let insert1 = sim.simulate_insert_order(
        U256::from(1),
        U256::from(100),
        U256::from(10),
        false,
    );
    assert_eq!(insert1, U256::zero());

    let insert2 = sim.simulate_insert_order(
        U256::from(2),
        U256::from(90),
        U256::from(10),
        false,
    );
    assert_eq!(insert2, U256::from(100));

    let insert3 = sim.simulate_insert_order(
        U256::from(3),
        U256::from(110),
        U256::from(10),
        false,
    );
    assert_eq!(insert3, U256::zero());

    assert_eq!(sim.get_price_levels(false), vec![
        U256::from(110),
        U256::from(100),
        U256::from(90),
    ]);
}

#[test]
fn test_insert_ask_orders() {
    let mut sim = OrderBookSimulator::new();

    let insert1 = sim.simulate_insert_order(
        U256::from(1),
        U256::from(100),
        U256::from(10),
        true, // ask
    );
    assert_eq!(insert1, U256::zero());

    let insert2 = sim.simulate_insert_order(
        U256::from(2),
        U256::from(110),
        U256::from(10),
        true,
    );
    assert_eq!(insert2, U256::from(100));

    let insert3 = sim.simulate_insert_order(
        U256::from(3),
        U256::from(90),
        U256::from(10),
        true,
    );
    assert_eq!(insert3, U256::zero());

    assert_eq!(sim.get_price_levels(true), vec![
        U256::from(90),
        U256::from(100),
        U256::from(110),
    ]);
}

#[test]
fn test_matching_after_insertion() {
    let mut sim = OrderBookSimulator::new();

    sim.simulate_insert_order(
        U256::from(1),
        U256::from(100),
        U256::from(10),
        false,
    );

    sim.simulate_insert_order(
        U256::from(2),
        U256::from(100),
        U256::from(5),
        true,
    );

    assert!(!sim.contains_order(U256::from(2)));

    let bid_order = sim.get_order(U256::from(1)).unwrap();
    assert_eq!(bid_order.filled_amount, U256::from(5));
}

#[test]
fn test_full_match_removes_price_level() {
    let mut sim = OrderBookSimulator::new();

    sim.simulate_insert_order(
        U256::from(1),
        U256::from(100),
        U256::from(10),
        false,
    );

    sim.simulate_insert_order(
        U256::from(2),
        U256::from(100),
        U256::from(10),
        true,
    );

    assert_eq!(sim.bid_head, U256::zero());
    assert!(sim.get_price_levels(false).is_empty());

    assert_eq!(sim.ask_head, U256::zero());
    assert!(sim.get_price_levels(true).is_empty());
}

#[test]
fn test_cross_price_matching() {
    let mut sim = OrderBookSimulator::new();

    sim.simulate_insert_order(
        U256::from(1),
        U256::from(100),
        U256::from(10),
        false,
    );

    let insert_after = sim.simulate_insert_order(
        U256::from(2),
        U256::from(90),
        U256::from(5),
        true,
    );

    assert_eq!(insert_after, U256::zero());

    assert!(!sim.contains_order(U256::from(2)));

    let bid_order = sim.get_order(U256::from(1)).unwrap();
    assert_eq!(bid_order.filled_amount, U256::from(5));
}

#[test]
fn test_batch_orders_with_matching() {
    let mut sim = OrderBookSimulator::new();

    sim.simulate_insert_order(U256::from(1), U256::from(100), U256::from(10), false);
    sim.simulate_insert_order(U256::from(2), U256::from(100), U256::from(10), true);

    assert!(sim.get_price_levels(false).is_empty());

    let insert_after = sim.simulate_insert_order(U256::from(3), U256::from(95), U256::from(10), false);
    assert_eq!(insert_after, U256::zero());
}

#[test]
fn test_market_order_insertion() {
    let mut sim = OrderBookSimulator::new();

    sim.simulate_insert_order(U256::from(1), U256::from(100), U256::from(10), true);

    sim.simulate_insert_market_order(U256::from(2), U256::from(5), false);

    assert!(!sim.contains_order(U256::from(2)));

    let ask_order = sim.get_order(U256::from(1)).unwrap();
    assert_eq!(ask_order.filled_amount, U256::from(5));
}

#[test]
fn test_market_order_fully_matches_limit() {
    let mut sim = OrderBookSimulator::new();

    sim.simulate_insert_order(U256::from(1), U256::from(100), U256::from(10), true);

    sim.simulate_insert_market_order(U256::from(2), U256::from(10), false);

    assert!(!sim.contains_order(U256::from(1)));
    assert!(!sim.contains_order(U256::from(2)));

    assert!(sim.get_price_levels(true).is_empty());
}

#[test]
fn test_market_order_partial_fill() {
    let mut sim = OrderBookSimulator::new();

    sim.simulate_insert_order(U256::from(1), U256::from(100), U256::from(5), true);

    sim.simulate_insert_market_order(U256::from(2), U256::from(10), false);

    assert!(!sim.contains_order(U256::from(1)));

    let market_order = sim.get_order(U256::from(2)).unwrap();
    assert_eq!(market_order.filled_amount, U256::from(5));
    assert_eq!(market_order.is_market_order, true);

    assert_eq!(sim.get_market_orders(false), vec![U256::from(2)]);
}

#[test]
fn test_market_sell_order() {
    let mut sim = OrderBookSimulator::new();

    sim.simulate_insert_order(U256::from(1), U256::from(100), U256::from(10), false);

    sim.simulate_insert_market_order(U256::from(2), U256::from(5), true);

    assert!(!sim.contains_order(U256::from(2)));

    let bid_order = sim.get_order(U256::from(1)).unwrap();
    assert_eq!(bid_order.filled_amount, U256::from(5));
}

#[test]
fn test_market_order_affects_subsequent_limit_order() {
    let mut sim = OrderBookSimulator::new();

    // Asks: [100, 101, 102]

    sim.simulate_insert_order(U256::from(1), U256::from(100), U256::from(10), true); // ask@100
    sim.simulate_insert_order(U256::from(2), U256::from(101), U256::from(10), true); // ask@101
    sim.simulate_insert_order(U256::from(3), U256::from(102), U256::from(10), true); // ask@102

    assert_eq!(sim.get_price_levels(true), vec![
        U256::from(100),
        U256::from(101),
        U256::from(102),
    ]);

    sim.simulate_insert_market_order(U256::from(10), U256::from(10), false);

    assert_eq!(sim.get_price_levels(true), vec![
        U256::from(101),
        U256::from(102),
    ]);

    let insert_after = sim.simulate_insert_order(
        U256::from(11),
        U256::from(100),
        U256::from(10),
        true,
    );
    assert_eq!(insert_after, U256::zero());

    assert_eq!(sim.get_price_levels(true), vec![
        U256::from(100),
        U256::from(101),
        U256::from(102),
    ]);
}

#[test]
fn test_market_order_queue_fifo() {
    let mut sim = OrderBookSimulator::new();

    sim.simulate_insert_market_order(U256::from(1), U256::from(10), false);
    sim.simulate_insert_market_order(U256::from(2), U256::from(10), false);
    sim.simulate_insert_market_order(U256::from(3), U256::from(10), false);

    assert_eq!(sim.get_market_orders(false), vec![
        U256::from(1),
        U256::from(2),
        U256::from(3),
    ]);
    assert_eq!(sim.market_bid_head, U256::from(1));
    assert_eq!(sim.market_bid_tail, U256::from(3));
}

#[test]
fn test_multiple_market_orders_match_one_limit() {
    let mut sim = OrderBookSimulator::new();

    sim.simulate_insert_order(U256::from(1), U256::from(100), U256::from(30), true);

    sim.simulate_insert_market_order(U256::from(10), U256::from(10), false);
    sim.simulate_insert_market_order(U256::from(11), U256::from(10), false);
    sim.simulate_insert_market_order(U256::from(12), U256::from(10), false);

    assert!(!sim.contains_order(U256::from(10)));
    assert!(!sim.contains_order(U256::from(11)));
    assert!(!sim.contains_order(U256::from(12)));

    assert!(!sim.contains_order(U256::from(1)));

    assert!(sim.get_price_levels(true).is_empty());
}
