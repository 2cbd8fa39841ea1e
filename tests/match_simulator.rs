use matcher::match_simulator::{LocalOrder, MatchSimulator, StateChange};
use matcher::u256::U256;

fn limit(id: u64, price: u64, amount: u64) -> LocalOrder {
    LocalOrder {
        id: U256::from(id),
        price: U256::from(price),
        amount: U256::from(amount),
        filled_amount: U256::zero(),
        is_market: false,
    }
}

#[test]
fn test_predict_simple_match() {
    let mut simulator = MatchSimulator::new();

    simulator.add_order(
        LocalOrder {
            id: U256::from(1),
            price: U256::from(100),
            amount: U256::from(10),
            filled_amount: U256::zero(),
            is_market: false,
        },
        false,
    );

    let prediction = simulator.predict_limit_order_match(
        U256::from(100),
        U256::from(5),
        true,
    );

    assert!(prediction.will_match);
    assert_eq!(prediction.expected_filled_amount, U256::from(5));
    assert!(prediction.will_fully_fill);
    assert_eq!(prediction.matched_order_ids.len(), 1);
}

#[test]
fn test_predict_no_match() {
    let mut simulator = MatchSimulator::new();

    simulator.add_order(
        LocalOrder {
            id: U256::from(1),
            price: U256::from(100),
            amount: U256::from(10),
            filled_amount: U256::zero(),
            is_market: false,
        },
        false,
    );

    let prediction = simulator.predict_limit_order_match(
        U256::from(101),
        U256::from(5),
        true,
    );

    assert!(!prediction.will_match);
    assert_eq!(prediction.expected_filled_amount, U256::zero());
}

#[test]
fn test_market_order_always_matches() {
    let mut simulator = MatchSimulator::new();

    simulator.add_order(
        LocalOrder {
            id: U256::from(1),
            price: U256::from(100),
            amount: U256::from(10),
            filled_amount: U256::zero(),
            is_market: false,
        },
        true,
    );

    let prediction = simulator.predict_market_order_match(U256::from(5), false);

    assert!(prediction.will_match);
    assert_eq!(prediction.expected_filled_amount, U256::from(5));
    assert!(prediction.will_fully_fill);
}

#[test]
fn prediction_walks_levels_in_price_order() {
    let mut simulator = MatchSimulator::new();
    simulator.add_order(limit(1, 100, 4), true);
    simulator.add_order(limit(2, 98, 3), true);
    simulator.add_order(limit(3, 102, 5), true);
    simulator.add_order(limit(4, 98, 2), true);
    let ids: Vec<U256> = simulator.local_orderbook.asks.iter().map(|o| o.id).collect();
    assert_eq!(ids, vec![U256::from(2), U256::from(4), U256::from(1), U256::from(3)]);
    let p = simulator.predict_limit_order_match(U256::from(100), U256::from(20), false);
    assert_eq!(p.expected_filled_amount, U256::from(9));
    assert!(!p.will_fully_fill);
    assert_eq!(p.matched_order_ids, vec![U256::from(2), U256::from(4), U256::from(1)]);
    assert_eq!(p.match_prices, vec![U256::from(98), U256::from(98), U256::from(100)]);
}

#[test]
fn market_queue_is_taken_before_limits() {
    let mut simulator = MatchSimulator::new();
    simulator.add_order(limit(1, 100, 10), false);
    let mut m = limit(7, 0, 3);
    m.is_market = true;
    simulator.add_order(m, false);
    let p = simulator.predict_limit_order_match(U256::from(90), U256::from(5), true);
    assert_eq!(p.matched_order_ids, vec![U256::from(7), U256::from(1)]);
    assert_eq!(p.match_prices, vec![U256::from(90), U256::from(100)]);
    assert!(p.will_fully_fill);
}

#[test]
fn pending_entries_confirm_rollback_and_expire() {
    let mut simulator = MatchSimulator::new();
    simulator.add_order(limit(1, 100, 10), false);
    let p = simulator.predict_limit_order_match(U256::from(100), U256::from(10), true);
    simulator.apply_prediction_pending(&p, [1u8; 32], true, 1_000);
    simulator.apply_prediction_pending(&p, [2u8; 32], true, 5_000);
    assert_eq!(simulator.pending_changes_count(), 2);
    assert!(simulator.is_pending_change([1u8; 32]));
    assert!(!simulator.is_pending_change([3u8; 32]));
    assert_eq!(simulator.get_pending_tx_hashes(), vec![[1u8; 32], [2u8; 32]]);
    let changes = &simulator.pending_changes[0].changes;
    assert_eq!(changes.len(), 2);
    assert!(matches!(changes[0], StateChange::UpdateFilledAmount { is_ask: false, .. }));
    assert!(matches!(changes[1], StateChange::RemoveOrder { is_ask: false, is_market: false, .. }));

    simulator.rollback_changes([2u8; 32]);
    assert_eq!(simulator.pending_changes_count(), 1);
    assert_eq!(simulator.local_orderbook.bids.len(), 1);

    simulator.confirm_changes([1u8; 32]);
    assert_eq!(simulator.pending_changes_count(), 0);
    assert!(simulator.local_orderbook.bids.is_empty());

    simulator.apply_prediction_pending(&p, [4u8; 32], true, 1_000);
    simulator.apply_prediction_pending(&p, [5u8; 32], true, 50_000);
    assert_eq!(simulator.cleanup_expired_changes(70_000, 60_000), 1);
    assert_eq!(simulator.get_pending_tx_hashes(), vec![[5u8; 32]]);
}

#[test]
fn no_match_records_nothing_and_head_check() {
    let mut simulator = MatchSimulator::new();
    assert!(simulator.will_be_at_head(U256::from(5), true, false));
    simulator.add_order(limit(1, 100, 10), true);
    assert!(simulator.will_be_at_head(U256::from(100), true, false));
    assert!(!simulator.will_be_at_head(U256::from(101), true, false));
    assert!(simulator.will_be_at_head(U256::from(101), true, true));
    let p = simulator.predict_limit_order_match(U256::from(90), U256::from(5), false);
    assert!(!p.will_match);
    simulator.apply_prediction_pending(&p, [1u8; 32], false, 0);
    assert_eq!(simulator.pending_changes_count(), 0);
    let hit = simulator.predict_limit_order_match(U256::from(100), U256::from(4), false);
    simulator.apply_prediction(&hit, false);
    assert_eq!(simulator.local_orderbook.asks[0].filled_amount, U256::from(10));
    simulator.remove_order(U256::from(1), true, false);
    assert!(simulator.local_orderbook.asks.is_empty());
}

#[test]
fn pending_changes_carry_each_counterpartys_fill() {
    let mut simulator = MatchSimulator::new();
    simulator.add_order(limit(1, 100, 4), true);
    simulator.add_order(limit(2, 98, 3), true);
    let p = simulator.predict_limit_order_match(U256::from(100), U256::from(5), false);
    assert_eq!(p.matched_order_ids, vec![U256::from(2), U256::from(1)]);
    assert_eq!(p.matched_fills, vec![U256::from(3), U256::from(2)]);
    assert_eq!(p.matched_full, vec![true, false]);
    simulator.apply_prediction_pending(&p, [9u8; 32], false, 0);
    let changes = &simulator.pending_changes[0].changes;
    assert_eq!(changes.len(), 3);
    assert!(matches!(changes[0], StateChange::UpdateFilledAmount { is_ask: true, .. }));
    match changes[1] {
        StateChange::UpdateFilledAmount { order_id, filled_amount, .. } => {
            assert_eq!(order_id, U256::from(1));
            assert_eq!(filled_amount, U256::from(2));
        }
        _ => panic!("expected a fill update"),
    }
    match changes[2] {
        StateChange::RemoveOrder { order_id, .. } => assert_eq!(order_id, U256::from(2)),
        _ => panic!("expected a removal"),
    }
}
