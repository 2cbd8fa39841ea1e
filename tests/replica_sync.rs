use matcher::orderbook::{OrderBookSimulator, SimOrder, SimPriceLevel};
use matcher::state::GlobalState;
use matcher::sync::{decode_queued_request, place_order_request, remove_order_request, ChainRequest};
use matcher::types::{OrderType, QueuedRequest, RequestType};
use matcher::u256::U256;

fn u(x: u64) -> U256 {
    U256::from(x)
}

fn place(id: u64, next: u64) -> QueuedRequest {
    QueuedRequest {
        request_id: u(id),
        request_type: RequestType::PlaceOrder,
        trading_pair: [1u8; 32],
        trader: [2u8; 20],
        order_type: OrderType::Limit,
        is_ask: true,
        price: u(100),
        amount: u(1),
        order_id_to_remove: U256::zero(),
        next_request_id: u(next),
    }
}

fn raw(kind: u8, order_type: u8) -> ChainRequest {
    ChainRequest {
        trading_pair: [3u8; 32],
        trader: [4u8; 20],
        kind,
        order_type,
        is_ask: true,
        price: u(55),
        amount: u(6),
        next_id: u(8),
        prev_id: U256::zero(),
    }
}

#[test]
fn head_walk_follows_links_and_stops_at_gaps() {
    let mut state = GlobalState::new();
    state.add_request(place(1, 2));
    state.add_request(place(2, 4));
    state.add_request(place(4, 0));
    state.update_queue_head(u(1));
    let ids: Vec<U256> = state.get_head_requests(10).iter().map(|r| r.request_id).collect();
    assert_eq!(ids, vec![u(1), u(2), u(4)]);
    assert_eq!(state.get_head_requests(2).len(), 2);
    state.remove_request(&u(2));
    let ids: Vec<U256> = state.get_head_requests(10).iter().map(|r| r.request_id).collect();
    assert_eq!(ids, vec![u(1)]);
}

#[test]
fn complete_batch_moves_head_past_batch() {
    let mut state = GlobalState::new();
    state.add_request(place(1, 2));
    state.add_request(place(2, 3));
    state.add_request(place(3, 0));
    state.update_queue_head(u(1));
    let batch = state.get_head_requests(2);
    state.complete_batch(&batch);
    assert_eq!(state.queue_head, u(3));
    assert_eq!(state.get_head_requests(5).len(), 1);
    let rest = state.get_head_requests(5);
    state.complete_batch(&rest);
    assert!(state.queue_head.is_zero());
    assert!(state.get_head_requests(5).is_empty());
}

#[test]
fn appended_requests_keep_arrival_order() {
    let mut state = GlobalState::new();
    state.apply_request_event(place(5, 0));
    state.apply_request_event(place(6, 0));
    state.apply_request_event(remove_order_request(u(7), [0u8; 32], [0u8; 20], u(5)));
    let ids: Vec<U256> = state.get_head_requests(10).iter().map(|r| r.request_id).collect();
    assert_eq!(ids, vec![u(5), u(6), u(7)]);
    assert_eq!(state.queue_tail, u(7));
}

#[test]
fn decode_known_and_unknown_tags() {
    let placed = decode_queued_request(u(9), &raw(0, 1)).unwrap();
    assert_eq!(placed.request_type, RequestType::PlaceOrder);
    assert_eq!(placed.order_type, OrderType::Market);
    assert!(placed.order_id_to_remove.is_zero());
    assert_eq!(placed.next_request_id, u(8));
    let cancel = decode_queued_request(u(9), &raw(1, 0)).unwrap();
    assert_eq!(cancel.request_type, RequestType::RemoveOrder);
    assert_eq!(cancel.order_id_to_remove, u(55));
    assert!(decode_queued_request(u(9), &raw(2, 0)).is_none());
    assert!(decode_queued_request(u(9), &raw(0, 5)).is_none());
    assert!(place_order_request(u(1), [0u8; 32], [0u8; 20], 3, true, u(1), u(1)).is_none());
    assert_eq!(
        place_order_request(u(1), [0u8; 32], [0u8; 20], 1, true, u(1), u(1)).unwrap().order_type,
        OrderType::Market
    );
}

#[test]
fn events_rebuild_what_simulation_built() {
    let mut simulated = OrderBookSimulator::new();
    simulated.simulate_insert_order(u(1), u(100), u(10), true);
    simulated.simulate_insert_order(u(2), u(90), u(10), true);
    simulated.simulate_insert_order(u(3), u(110), u(10), true);

    let mut replayed = OrderBookSimulator::new();
    replayed.apply_price_level_created(u(100), true);
    replayed.apply_order_inserted(u(1), u(100), u(10), true);
    replayed.apply_price_level_created(u(90), true);
    replayed.apply_order_inserted(u(2), u(90), u(10), true);
    replayed.apply_price_level_created(u(110), true);
    replayed.apply_order_inserted(u(3), u(110), u(10), true);

    assert_eq!(replayed.get_price_levels(true), simulated.get_price_levels(true));
    assert_eq!(replayed.ask_head, simulated.ask_head);
    assert_eq!(replayed.ask_tail, simulated.ask_tail);
    for p in [90u64, 100, 110] {
        assert_eq!(replayed.get_price_level(u(p), true), simulated.get_price_level(u(p), true));
    }
    for id in [1u64, 2, 3] {
        assert_eq!(replayed.get_order(u(id)), simulated.get_order(u(id)));
    }
}

#[test]
fn fill_and_removal_events() {
    let mut book = OrderBookSimulator::new();
    book.apply_price_level_created(u(100), false);
    book.apply_order_inserted(u(1), u(100), u(10), false);
    book.apply_order_inserted(u(2), u(100), u(10), false);
    assert_eq!(book.get_orders_at_price(u(100), false), vec![u(1), u(2)]);
    assert_eq!(book.get_price_level(u(100), false).unwrap().total_volume, u(20));
    book.apply_order_filled(u(1), u(4), false);
    assert_eq!(book.get_order(u(1)).unwrap().filled_amount, u(4));
    book.apply_order_filled(u(1), u(10), true);
    assert!(!book.contains_order(u(1)));
    book.apply_order_removed(u(2));
    assert!(!book.contains_order(u(2)));
    book.apply_price_level_removed(u(100));
    assert!(book.get_price_levels(false).is_empty());
    assert!(book.bid_head.is_zero());
    book.apply_order_filled(u(77), u(1), false);
    book.apply_price_level_removed(u(77));
    assert!(book.get_price_levels(true).is_empty());
}

#[test]
fn cold_sync_pieces_are_stored_as_read() {
    let mut book = OrderBookSimulator::from_chain_state(u(100), u(100), U256::zero(), U256::zero());
    let level = SimPriceLevel {
        price: u(100),
        total_volume: u(3),
        head_order_id: u(4),
        tail_order_id: u(4),
        next_price: U256::zero(),
        prev_price: U256::zero(),
    };
    let order = SimOrder {
        id: u(4),
        amount: u(5),
        filled_amount: u(2),
        is_market_order: false,
        price_level: u(100),
        next_order_id: U256::zero(),
        prev_order_id: U256::zero(),
    };
    book.add_existing_price_level(level, true);
    book.add_existing_order(order);
    assert_eq!(book.get_price_levels(true), vec![u(100)]);
    assert_eq!(book.get_orders_at_price(u(100), true), vec![u(4)]);
    assert_eq!(book.get_order(u(4)), Some(order));
    assert_eq!(book.find_insert_position(u(120), true), u(100));
}

#[test]
fn market_order_removed_event_unlinks_fifo() {
    let mut book = OrderBookSimulator::new();
    book.simulate_insert_market_order(u(1), u(5), true);
    book.simulate_insert_market_order(u(2), u(5), true);
    book.simulate_insert_market_order(u(3), u(5), true);
    book.apply_market_order_removed(u(2));
    assert_eq!(book.get_market_orders(true), vec![u(1), u(3)]);
    book.apply_market_order_removed(u(1));
    assert_eq!(book.get_market_orders(true), vec![u(3)]);
    assert_eq!(book.market_ask_head, u(3));
    book.apply_market_order_removed(u(3));
    assert!(book.get_market_orders(true).is_empty());
    assert!(book.market_ask_tail.is_zero());
}

#[test]
fn order_inserted_for_missing_level_is_skipped() {
    let mut book = OrderBookSimulator::new();
    book.apply_order_inserted(u(1), u(100), u(10), true);
    assert!(!book.contains_order(u(1)));
    assert!(book.get_price_levels(true).is_empty());
    book.apply_price_level_created(u(100), true);
    book.apply_order_inserted(u(1), u(100), u(10), true);
    assert!(book.contains_order(u(1)));
    assert_eq!(book.get_price_level(u(100), true).unwrap().total_volume, u(10));
}
