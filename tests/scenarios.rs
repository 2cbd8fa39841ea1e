use matcher::dispatch::calculate_insert_positions_with_simulator;
use matcher::orderbook::OrderBookSimulator;
use matcher::types::{OrderType, QueuedRequest, RequestType};
use matcher::u256::U256;

fn u(x: u64) -> U256 {
    U256::from(x)
}

fn request(id: u64, kind: RequestType, order_type: OrderType, is_ask: bool, price: u64, amount: u64, remove: u64) -> QueuedRequest {
    QueuedRequest {
        request_id: u(id),
        request_type: kind,
        trading_pair: [7u8; 32],
        trader: [9u8; 20],
        order_type,
        is_ask,
        price: u(price),
        amount: u(amount),
        order_id_to_remove: u(remove),
        next_request_id: U256::zero(),
    }
}

#[test]
fn first_bid_goes_to_head() {
    let mut sim = OrderBookSimulator::new();
    assert_eq!(sim.simulate_insert_order(u(1), u(100), u(10), false), U256::zero());
    assert_eq!(sim.get_price_levels(false), vec![u(100)]);
    assert_eq!(sim.bid_head, u(100));
    assert_eq!(sim.bid_tail, u(100));
}

#[test]
fn bids_keep_descending_order() {
    let mut sim = OrderBookSimulator::new();
    sim.simulate_insert_order(u(1), u(100), u(10), false);
    assert_eq!(sim.simulate_insert_order(u(2), u(90), u(10), false), u(100));
    assert_eq!(sim.get_price_levels(false), vec![u(100), u(90)]);
    assert_eq!(sim.simulate_insert_order(u(3), u(110), u(10), false), U256::zero());
    assert_eq!(sim.get_price_levels(false), vec![u(110), u(100), u(90)]);
    assert_eq!(sim.bid_tail, u(90));
}

#[test]
fn existing_level_hint_is_its_price() {
    let mut sim = OrderBookSimulator::new();
    sim.simulate_insert_order(u(1), u(100), u(10), true);
    sim.simulate_insert_order(u(2), u(110), u(10), true);
    assert_eq!(sim.simulate_insert_order(u(3), u(110), u(4), true), u(110));
    assert_eq!(sim.get_orders_at_price(u(110), true), vec![u(2), u(3)]);
    assert_eq!(sim.get_price_level(u(110), true).unwrap().total_volume, u(14));
}

#[test]
fn partial_cross_fills_resting_bid() {
    let mut sim = OrderBookSimulator::new();
    sim.simulate_insert_order(u(1), u(100), u(10), false);
    sim.simulate_insert_order(u(2), u(100), u(5), true);
    assert_eq!(sim.get_order(u(1)).unwrap().filled_amount, u(5));
    assert!(!sim.contains_order(u(2)));
    assert!(sim.get_price_levels(true).is_empty());
    assert_eq!(sim.get_price_level(u(100), false).unwrap().total_volume, u(5));
}

#[test]
fn full_cross_destroys_both_levels() {
    let mut sim = OrderBookSimulator::new();
    sim.simulate_insert_order(u(1), u(100), u(10), false);
    sim.simulate_insert_order(u(2), u(100), u(10), true);
    assert!(sim.get_price_levels(true).is_empty());
    assert!(sim.get_price_levels(false).is_empty());
    assert!(sim.get_price_level(u(100), true).is_none());
    assert!(sim.get_price_level(u(100), false).is_none());
}

#[test]
fn market_bid_clears_best_ask_then_hint_is_head() {
    let mut sim = OrderBookSimulator::new();
    sim.simulate_insert_order(u(1), u(100), u(10), true);
    sim.simulate_insert_order(u(2), u(101), u(10), true);
    sim.simulate_insert_order(u(3), u(102), u(10), true);
    sim.simulate_insert_market_order(u(99), u(10), false);
    assert_eq!(sim.get_price_levels(true), vec![u(101), u(102)]);
    assert_eq!(sim.simulate_insert_order(u(11), u(100), u(10), true), U256::zero());
    assert_eq!(sim.get_price_levels(true), vec![u(100), u(101), u(102)]);
}

#[test]
fn market_bids_drain_single_ask() {
    let mut sim = OrderBookSimulator::new();
    sim.simulate_insert_market_order(u(11), u(10), false);
    sim.simulate_insert_market_order(u(12), u(10), false);
    sim.simulate_insert_market_order(u(13), u(10), false);
    assert_eq!(sim.get_market_orders(false), vec![u(11), u(12), u(13)]);
    sim.simulate_insert_order(u(1), u(100), u(30), true);
    assert!(!sim.contains_order(u(1)));
    assert!(!sim.contains_order(u(11)));
    assert!(!sim.contains_order(u(12)));
    assert!(!sim.contains_order(u(13)));
    assert!(sim.get_price_levels(true).is_empty());
    assert!(sim.get_market_orders(false).is_empty());
    assert!(sim.market_bid_head.is_zero());
    assert!(sim.market_bid_tail.is_zero());
}

#[test]
fn batch_place_then_cancel() {
    let mut sim = OrderBookSimulator::new();
    let batch = vec![
        request(1, RequestType::PlaceOrder, OrderType::Limit, false, 100, 10, 0),
        request(2, RequestType::RemoveOrder, OrderType::Limit, false, 0, 0, 1),
    ];
    let result = calculate_insert_positions_with_simulator(&mut sim, &batch);
    assert_eq!(result.order_ids, vec![u(1), u(2)]);
    assert_eq!(result.insert_after_price_levels, vec![U256::zero(), U256::zero()]);
    assert_eq!(result.insert_after_orders, vec![U256::zero(), U256::zero()]);
    assert!(sim.get_price_levels(false).is_empty());
    assert!(!sim.contains_order(u(1)));
}

#[test]
fn batch_hints_see_earlier_requests() {
    let mut sim = OrderBookSimulator::new();
    sim.simulate_insert_order(u(1), u(100), u(10), true);
    sim.simulate_insert_order(u(2), u(101), u(10), true);
    let batch = vec![
        request(10, RequestType::PlaceOrder, OrderType::Market, false, 0, 10, 0),
        request(11, RequestType::PlaceOrder, OrderType::Limit, true, 102, 10, 0),
        request(12, RequestType::PlaceOrder, OrderType::Limit, true, 100, 10, 0),
    ];
    let result = calculate_insert_positions_with_simulator(&mut sim, &batch);
    assert_eq!(result.len(), 3);
    assert_eq!(result.insert_after_price_levels, vec![U256::zero(), u(101), U256::zero()]);
    assert_eq!(sim.get_price_levels(true), vec![u(100), u(101), u(102)]);
}

#[test]
fn remove_unknown_order_is_false() {
    let mut sim = OrderBookSimulator::new();
    sim.simulate_insert_order(u(1), u(100), u(10), false);
    assert!(!sim.simulate_remove_order(u(5), false));
    assert!(sim.simulate_remove_order(u(1), false));
    assert!(sim.get_price_levels(false).is_empty());
    assert!(sim.bid_head.is_zero());
    assert!(sim.bid_tail.is_zero());
}

#[test]
fn remove_middle_level_relinks_neighbours() {
    let mut sim = OrderBookSimulator::new();
    sim.simulate_insert_order(u(1), u(90), u(10), true);
    sim.simulate_insert_order(u(2), u(100), u(10), true);
    sim.simulate_insert_order(u(3), u(110), u(10), true);
    assert!(sim.simulate_remove_order(u(2), true));
    assert_eq!(sim.get_price_levels(true), vec![u(90), u(110)]);
    assert_eq!(sim.get_price_level(u(110), true).unwrap().prev_price, u(90));
    assert_eq!(sim.get_price_level(u(90), true).unwrap().next_price, u(110));
}

#[test]
fn same_price_on_both_sides_is_two_levels() {
    let mut sim = OrderBookSimulator::new();
    sim.simulate_insert_order(u(1), u(100), u(10), true);
    sim.simulate_insert_order(u(2), u(90), u(10), false);
    assert!(sim.get_price_level(u(100), true).is_some());
    assert!(sim.get_price_level(u(100), false).is_none());
    assert_eq!(sim.find_insert_position(u(100), false), U256::zero());
    assert_eq!(sim.find_insert_position(u(80), false), u(90));
}

#[test]
fn fill_totals_match_across_sides() {
    let mut sim = OrderBookSimulator::new();
    sim.simulate_insert_order(u(1), u(100), u(10), false);
    sim.simulate_insert_order(u(2), u(99), u(7), false);
    sim.simulate_insert_order(u(3), u(98), u(12), true);
    // the ask fills 10 against bid 1 and 2 against bid 2
    assert!(!sim.contains_order(u(1)));
    assert!(!sim.contains_order(u(3)));
    assert_eq!(sim.get_order(u(2)).unwrap().filled_amount, u(2));
    assert_eq!(sim.get_price_levels(false), vec![u(99)]);
    assert_eq!(sim.get_price_level(u(99), false).unwrap().total_volume, u(5));
}

#[test]
fn matching_stops_after_fifty_trades() {
    let mut sim = OrderBookSimulator::new();
    for id in 1..=51u64 {
        sim.simulate_insert_order(u(id), u(100), u(1), false);
    }
    sim.simulate_insert_order(u(1000), u(100), u(51), true);
    // fifty one-unit trades, then the loop stops with the book still crossed
    assert_eq!(sim.get_orders_at_price(u(100), false), vec![u(51)]);
    assert_eq!(sim.get_order(u(1000)).unwrap().filled_amount, u(50));
    assert_eq!(sim.bid_head, u(100));
    assert_eq!(sim.ask_head, u(100));
}

#[test]
fn fills_balance_between_sides() {
    let mut sim = OrderBookSimulator::new();
    sim.simulate_insert_order(u(1), u(100), u(10), false);
    sim.simulate_insert_order(u(2), u(99), u(10), false);
    sim.simulate_insert_market_order(u(3), u(4), true);
    sim.simulate_insert_order(u(4), u(99), u(13), true);
    // bid 1 filled 10 (4 market + 6 limit) and is gone, bid 2 filled 7;
    // market ask 3 filled 4 and is gone, ask 4 filled 13 and is gone
    assert!(!sim.contains_order(u(1)));
    assert!(!sim.contains_order(u(3)));
    assert!(!sim.contains_order(u(4)));
    assert_eq!(sim.get_order(u(2)).unwrap().filled_amount, u(7));
    assert_eq!(sim.get_price_level(u(99), false).unwrap().total_volume, u(3));
    assert!(sim.get_price_levels(true).is_empty());
}

#[test]
fn resting_orders_when_other_side_is_empty() {
    let mut sim = OrderBookSimulator::new();
    sim.simulate_insert_market_order(u(7), u(5), true);
    assert_eq!(sim.market_ask_tail, u(7));
    let o = sim.get_order(u(7)).unwrap();
    assert!(o.is_market_order);
    assert_eq!(o.amount, u(5));
    assert!(o.filled_amount.is_zero());
    sim.simulate_insert_order(u(8), u(50), u(2), true);
    assert_eq!(sim.get_orders_at_price(u(50), true), vec![u(8)]);
    assert!(sim.get_order(u(8)).unwrap().filled_amount.is_zero());
}

#[test]
fn cancel_lowers_level_volume_by_remainder() {
    let mut sim = OrderBookSimulator::new();
    sim.simulate_insert_order(u(1), u(100), u(10), false);
    sim.simulate_insert_order(u(2), u(100), u(6), false);
    sim.simulate_insert_order(u(3), u(100), u(4), true);
    // the ask fills 4 of bid 1, which keeps 6
    assert_eq!(sim.get_price_level(u(100), false).unwrap().total_volume, u(12));
    assert!(sim.simulate_remove_order(u(1), false));
    assert_eq!(sim.get_price_level(u(100), false).unwrap().total_volume, u(6));
    assert_eq!(sim.get_orders_at_price(u(100), false), vec![u(2)]);
    let level = sim.get_price_level(u(100), false).unwrap();
    assert_eq!(level.head_order_id, u(2));
    assert_eq!(level.tail_order_id, u(2));
    assert!(sim.simulate_remove_order(u(2), false));
    assert!(sim.get_price_level(u(100), false).is_none());
}

#[test]
fn append_then_cancel_restores_the_level() {
    let mut sim = OrderBookSimulator::new();
    sim.simulate_insert_order(u(1), u(100), u(10), false);
    sim.simulate_insert_order(u(2), u(100), u(5), false);
    let before = sim.get_price_level(u(100), false).unwrap();
    assert_eq!(sim.simulate_insert_order(u(3), u(100), u(7), false), u(100));
    assert_eq!(sim.get_orders_at_price(u(100), false), vec![u(1), u(2), u(3)]);
    assert_eq!(sim.get_price_level(u(100), false).unwrap().total_volume, u(22));
    assert!(sim.simulate_remove_order(u(3), false));
    assert_eq!(sim.get_price_level(u(100), false).unwrap(), before);
    assert_eq!(sim.get_orders_at_price(u(100), false), vec![u(1), u(2)]);
    assert_eq!(sim.get_order(u(2)).unwrap().next_order_id, U256::zero());
}

#[test]
fn order_never_trades_with_itself() {
    let mut sim = OrderBookSimulator::new();
    sim.simulate_insert_order(u(1), u(100), u(10), false);
    // the same id placed on the ask side replaces the stored order instead of trading
    sim.simulate_insert_order(u(1), u(90), u(10), true);
    assert!(sim.contains_order(u(1)));
    assert!(sim.get_order(u(1)).unwrap().filled_amount.is_zero());
}
