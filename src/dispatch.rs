use vstd::prelude::*;
use crate::book_invariant::hint_ok;
use crate::orderbook::{
    limit_placed, lists_after_take_out, market_placed, matched, order_taken_out, OrderBookSimulator, MAX_MATCH_ITERATIONS,
};
use crate::types::{MatchResult, OrderType, QueuedRequest, RequestType};
use crate::u256::{key_of, price_bound, zero_u256, U256};

verus! {

/// Whether a request places a limit order, the only kind that carries a price hint.
pub open spec fn is_limit_placement(r: QueuedRequest) -> bool {
    r.request_type == RequestType::PlaceOrder && r.order_type == OrderType::Limit
}

/// What running request `r` on the scratch replica does, taking `before` to `after` and
/// yielding the batch entry's price hint.
pub open spec fn request_step(
    before: OrderBookSimulator,
    r: QueuedRequest,
    after: OrderBookSimulator,
    hint: U256,
) -> bool {
    match r.request_type {
        RequestType::RemoveOrder => {
            &&& hint == zero_u256()
            &&& before.has_order(r.order_id_to_remove) ==> after.orders@.dom()
                == before.orders@.dom().remove(key_of(r.order_id_to_remove))
            &&& !before.has_order(r.order_id_to_remove) ==> after == before
            &&& before.has_order(r.order_id_to_remove) ==> order_taken_out(
                before,
                after,
                r.order_id_to_remove,
                r.is_ask,
            )
            &&& before.has_order(r.order_id_to_remove) && before.order_at(
                r.order_id_to_remove,
            ).price_level@ < price_bound() ==> lists_after_take_out(
                before,
                after,
                before.order_at(r.order_id_to_remove).price_level,
                r.is_ask,
            )
            &&& before.wf() ==> after.wf()
            &&& before.levels_occupied() ==> after.levels_occupied()
        },
        RequestType::PlaceOrder => match r.order_type {
            OrderType::Limit => {
                &&& hint == before.insert_position(r.price, r.is_ask)
                &&& hint_ok(before, r.price, r.is_ask, hint)
                &&& before.wf() && 0 < r.price@ < price_bound() ==> after.wf()
                &&& before.levels_occupied() && r.request_id@ != 0 ==> after.levels_occupied()
                &&& exists|ins: OrderBookSimulator|
                    #[trigger] limit_placed(before, ins, r.request_id, r.price, r.amount, r.is_ask)
                        && matched(ins, after, MAX_MATCH_ITERATIONS as nat)
            },
            OrderType::Market => {
                &&& hint == zero_u256()
                &&& before.wf() ==> after.wf()
                &&& before.levels_occupied() ==> after.levels_occupied()
                &&& exists|ins: OrderBookSimulator|
                    #[trigger] market_placed(before, ins, r.request_id, r.amount, r.is_ask)
                        && matched(ins, after, MAX_MATCH_ITERATIONS as nat)
            },
        },
    }
}

/// The simulation pass of one batch: runs each request, in queue order, through the
/// scratch replica `sim`, so that each sees the state the chain will have after the
/// ones before it, and collects the batch payload. Cancellations and market orders get
/// zero hints; a limit order gets the hint that `simulate_insert_order` returns.
pub fn calculate_insert_positions_with_simulator(
    sim: &mut OrderBookSimulator,
    requests: &Vec<QueuedRequest>,
) -> (r: MatchResult)
    ensures
        r.wf(),
        r.order_ids@.len() == requests@.len(),
        forall|i: int|
            0 <= i < requests@.len() ==> #[trigger] r.order_ids@[i] == requests@[i].request_id,
        forall|i: int| 0 <= i < requests@.len() ==> #[trigger] r.insert_after_orders@[i] == zero_u256(),
        forall|i: int|
            0 <= i < requests@.len() && !is_limit_placement(requests@[i])
                ==> #[trigger] r.insert_after_price_levels@[i] == zero_u256(),
        exists|states: Seq<OrderBookSimulator>|
            {
                &&& states.len() == requests@.len() + 1
                &&& states[0] == *old(sim)
                &&& states[requests@.len() as int] == *final(sim)
                &&& forall|i: int|
                    0 <= i < requests@.len() ==> #[trigger] request_step(
                        states[i],
                        requests@[i],
                        states[i + 1],
                        r.insert_after_price_levels@[i],
                    )
            },
{
    let mut result = MatchResult::new();
    let ghost mut states: Seq<OrderBookSimulator> = seq![*sim];
    let mut i: usize = 0;
    while i < requests.len()
        invariant
            0 <= i <= requests@.len(),
            result.wf(),
            result.order_ids@.len() == i,
            forall|j: int| 0 <= j < i ==> #[trigger] result.order_ids@[j] == requests@[j].request_id,
            forall|j: int| 0 <= j < i ==> #[trigger] result.insert_after_orders@[j] == zero_u256(),
            forall|j: int|
                0 <= j < i && !is_limit_placement(requests@[j])
                    ==> #[trigger] result.insert_after_price_levels@[j] == zero_u256(),
            states.len() == i + 1,
            states[0] == *old(sim),
            states[i as int] == *sim,
            forall|j: int|
                0 <= j < i ==> #[trigger] request_step(
                    states[j],
                    requests@[j],
                    states[j + 1],
                    result.insert_after_price_levels@[j],
                ),
        decreases requests@.len() - i,
    {
        let request = requests[i];
        let ghost before = *sim;
        match request.request_type {
            RequestType::RemoveOrder => {
                sim.simulate_remove_order(request.order_id_to_remove, request.is_ask);
                result.add_order(request.request_id, U256::zero(), U256::zero());
            },
            RequestType::PlaceOrder => {
                match request.order_type {
                    OrderType::Limit => {
                        let hint = sim.simulate_insert_order(
                            request.request_id,
                            request.price,
                            request.amount,
                            request.is_ask,
                        );
                        result.add_order(request.request_id, hint, U256::zero());
                    },
                    OrderType::Market => {
                        sim.simulate_insert_market_order(
                            request.request_id,
                            request.amount,
                            request.is_ask,
                        );
                        result.add_order(request.request_id, U256::zero(), U256::zero());
                    },
                }
            },
        }
        proof {
            assert(request_step(
                before,
                request,
                *sim,
                result.insert_after_price_levels@[i as int],
            ));
            states = states.push(*sim);
        }
        i = i + 1;
    }
    result
}

} // verus!
