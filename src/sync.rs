use vstd::prelude::*;
use crate::orderbook::{OrderBookSimulator, SimOrder, SimPriceLevel};
use crate::state::{appended, queue_linked, GlobalState};
use crate::types::{OrderType, QueuedRequest, RequestType};
use crate::u256::{key_of, level_key, price_bound, price_level_key, u256_bound, zero_u256, U256};
use crate::book_invariant::{heads_of, lemma_links_kept_wf, links_of, orders_bounded, tails_of, volumes_of};
use crate::orderbook::{new_level_spliced, unlink_ready};

verus! {

broadcast use vstd::std_specs::btree::group_btree_axioms, vstd::laws_cmp::group_laws_cmp;

/// One entry of the Sequencer's queue as its read call returns it. For a cancellation
/// the `price` field carries the id of the order to remove.
#[derive(Clone, Copy, Debug)]
pub struct ChainRequest {
    pub trading_pair: [u8; 32],
    pub trader: [u8; 20],
    pub kind: u8,
    pub order_type: u8,
    pub is_ask: bool,
    pub price: U256,
    pub amount: U256,
    pub next_id: U256,
    pub prev_id: U256,
}

/// What `decode_queued_request` makes of a well-tagged entry.
pub open spec fn decoded_request(
    request_id: U256,
    raw: ChainRequest,
    kind: RequestType,
    order_type: OrderType,
) -> QueuedRequest {
    QueuedRequest {
        request_id,
        request_type: kind,
        trading_pair: raw.trading_pair,
        trader: raw.trader,
        order_type,
        is_ask: raw.is_ask,
        price: raw.price,
        amount: raw.amount,
        order_id_to_remove: if kind == RequestType::RemoveOrder {
            raw.price
        } else {
            zero_u256()
        },
        next_request_id: raw.next_id,
    }
}

/// Turns a queue entry read during cold sync into a request. `None` where the kind or
/// the order type is an unknown tag: the walk of the queue stops there.
pub fn decode_queued_request(request_id: U256, raw: &ChainRequest) -> (r: Option<QueuedRequest>)
    ensures
        r == if raw.kind <= 1 && raw.order_type <= 1 {
            Some(
                decoded_request(
                    request_id,
                    *raw,
                    if raw.kind == 0 {
                        RequestType::PlaceOrder
                    } else {
                        RequestType::RemoveOrder
                    },
                    if raw.order_type == 0 {
                        OrderType::Limit
                    } else {
                        OrderType::Market
                    },
                ),
            )
        } else {
            None::<QueuedRequest>
        },
{
    let kind = match RequestType::from_tag(raw.kind) {
        Some(k) => k,
        None => {
            return None;
        },
    };
    let order_type = match OrderType::from_tag(raw.order_type) {
        Some(t) => t,
        None => {
            return None;
        },
    };
    let order_id_to_remove = match kind {
        RequestType::RemoveOrder => raw.price,
        RequestType::PlaceOrder => U256::zero(),
    };
    Some(
        QueuedRequest {
            request_id,
            request_type: kind,
            trading_pair: raw.trading_pair,
            trader: raw.trader,
            order_type,
            is_ask: raw.is_ask,
            price: raw.price,
            amount: raw.amount,
            order_id_to_remove,
            next_request_id: raw.next_id,
        },
    )
}

/// The request a `PlaceOrderRequested` event announces; an unknown order type is `None`.
pub fn place_order_request(
    request_id: U256,
    trading_pair: [u8; 32],
    trader: [u8; 20],
    order_type: u8,
    is_ask: bool,
    price: U256,
    amount: U256,
) -> (r: Option<QueuedRequest>)
    ensures
        order_type > 1 <==> r.is_none(),
        r matches Some(q) ==> q.request_id == request_id && q.request_type == RequestType::PlaceOrder
            && q.order_type == (if order_type == 0 {
            OrderType::Limit
        } else {
            OrderType::Market
        }) && q.trading_pair == trading_pair && q.trader == trader && q.is_ask == is_ask
            && q.price == price && q.amount == amount && q.order_id_to_remove == zero_u256()
            && q.next_request_id == zero_u256(),
{
    match OrderType::from_tag(order_type) {
        Some(t) => Some(
            QueuedRequest {
                request_id,
                request_type: RequestType::PlaceOrder,
                trading_pair,
                trader,
                order_type: t,
                is_ask,
                price,
                amount,
                order_id_to_remove: U256::zero(),
                next_request_id: U256::zero(),
            },
        ),
        None => None,
    }
}

/// The request a `RemoveOrderRequested` event announces.
pub fn remove_order_request(
    request_id: U256,
    trading_pair: [u8; 32],
    trader: [u8; 20],
    order_id_to_remove: U256,
) -> (r: QueuedRequest)
    ensures
        r.request_id == request_id,
        r.request_type == RequestType::RemoveOrder,
        r.trading_pair == trading_pair && r.trader == trader,
        r.order_id_to_remove == order_id_to_remove,
        r.order_type == OrderType::Limit && !r.is_ask,
        r.price == zero_u256() && r.amount == zero_u256() && r.next_request_id == zero_u256(),
{
    QueuedRequest {
        request_id,
        request_type: RequestType::RemoveOrder,
        trading_pair,
        trader,
        order_type: OrderType::Limit,
        is_ask: false,
        price: U256::zero(),
        amount: U256::zero(),
        order_id_to_remove,
        next_request_id: U256::zero(),
    }
}

impl OrderBookSimulator {
    /// `OrderInserted`: creates the order and appends it at the tail of its level,
    /// adding its amount to the level's volume. An event for a level that is not stored
    /// is skipped.
    pub fn apply_order_inserted(&mut self, order_id: U256, price: U256, amount: U256, is_ask: bool)
        ensures
            !old(self).has_level(price, is_ask) ==> *final(self) == *old(self),
            old(self).has_level(price, is_ask) ==> {
                let key = level_key(price, is_ask);
                let l = old(self).level_at(price, is_ask);
                let ot = l.tail_order_id;
                let linked = if ot@ != 0 && old(self).has_order(ot) {
                    old(self).orders@.insert(
                        key_of(ot),
                        SimOrder { next_order_id: order_id, ..old(self).order_at(ot) },
                    )
                } else {
                    old(self).orders@
                };
                &&& final(self).orders@ == linked.insert(
                    key_of(order_id),
                    SimOrder {
                        id: order_id,
                        amount,
                        filled_amount: zero_u256(),
                        is_market_order: false,
                        price_level: price,
                        next_order_id: zero_u256(),
                        prev_order_id: ot,
                    },
                )
                &&& final(self).price_levels@ == old(self).price_levels@.insert(
                    key,
                    SimPriceLevel {
                        head_order_id: if ot@ == 0 {
                            order_id
                        } else {
                            l.head_order_id
                        },
                        tail_order_id: order_id,
                        total_volume: final(self).level_at(price, is_ask).total_volume,
                        ..l
                    },
                )
                &&& final(self).level_at(price, is_ask).total_volume@ == if l.total_volume@ + amount@
                    < u256_bound() {
                    l.total_volume@ + amount@
                } else {
                    (u256_bound() - 1) as nat
                }
            },
            final(self).ask_head == old(self).ask_head && final(self).bid_head == old(self).bid_head,
            final(self).ask_tail == old(self).ask_tail && final(self).bid_tail == old(self).bid_tail,
            final(self).market_ends_kept(old(self)),
            old(self).wf() && price@ < price_bound() ==> final(self).wf(),
    {
        let ghost start_state = *self;
        let key = price_level_key(price, is_ask);
        let level = match self.price_levels.get(&key) {
            Some(l) => *l,
            None => {
                return;
            },
        };
        let old_tail = level.tail_order_id;
        if !old_tail.is_zero() {
            match self.orders.get(&old_tail.key()) {
                Some(t) => {
                    let mut t2 = *t;
                    t2.next_order_id = order_id;
                    self.orders.insert(old_tail.key(), t2);
                },
                None => {},
            }
        }
        let mut l2 = level;
        if old_tail.is_zero() {
            l2.head_order_id = order_id;
        }
        l2.tail_order_id = order_id;
        l2.total_volume = l2.total_volume.saturating_add(&amount);
        self.price_levels.insert(key, l2);
        assert(links_of(self.price_levels@) =~= links_of(start_state.price_levels@));
        let order = SimOrder {
            id: order_id,
            amount,
            filled_amount: U256::zero(),
            is_market_order: false,
            price_level: price,
            next_order_id: U256::zero(),
            prev_order_id: old_tail,
        };
        self.orders.insert(order_id.key(), order);
        proof {
            crate::u256::lemma_zero_view(old_tail);
            if start_state.wf() && price@ < price_bound() {
                assert(orders_bounded(self.orders@));
                lemma_links_kept_wf(start_state, *self);
            }
        }
    }

    /// `PriceLevelCreated`: creates the empty level and splices it into its side's list
    /// at the place its price gives. A level that exists already is left as it is.
    pub fn apply_price_level_created(&mut self, price: U256, is_ask: bool)
        ensures
            final(self).has_level(price, is_ask),
            old(self).has_level(price, is_ask) ==> final(self).price_levels@ == old(
                self,
            ).price_levels@,
            final(self).price_levels@.dom() == old(self).price_levels@.dom().insert(
                level_key(price, is_ask),
            ),
            final(self).orders@ == old(self).orders@,
            old(self).wf() && 0 < price@ < price_bound() ==> final(self).wf(),
            !old(self).has_level(price, is_ask) ==> {
                &&& new_level_spliced(
                    *old(self),
                    *final(self),
                    price,
                    is_ask,
                    old(self).insert_position(price, is_ask),
                )
                &&& final(self).level_at(price, is_ask).total_volume@ == 0
                &&& final(self).level_at(price, is_ask).head_order_id == zero_u256()
                &&& final(self).level_at(price, is_ask).tail_order_id == zero_u256()
            },
            volumes_of(final(self).price_levels@).remove(level_key(price, is_ask)) == volumes_of(
                old(self).price_levels@,
            ).remove(level_key(price, is_ask)),
            heads_of(final(self).price_levels@).remove(level_key(price, is_ask)) == heads_of(
                old(self).price_levels@,
            ).remove(level_key(price, is_ask)),
            tails_of(final(self).price_levels@).remove(level_key(price, is_ask)) == tails_of(
                old(self).price_levels@,
            ).remove(level_key(price, is_ask)),
            final(self).market_ends_kept(old(self)),
            final(self).head_of(!is_ask) == old(self).head_of(!is_ask),
            final(self).tail_of(!is_ask) == old(self).tail_of(!is_ask),
    {
        let after = self.find_insert_position(price, is_ask);
        self.find_or_create_price_level(price, is_ask, after);
        proof {
            let key = level_key(price, is_ask);
            assert(heads_of(self.price_levels@)[key] == self.price_levels@[key].head_order_id);
            assert(tails_of(self.price_levels@)[key] == self.price_levels@[key].tail_order_id);
            if !old(self).has_level(price, is_ask) {
                assert(heads_of(old(self).price_levels@).insert(key, zero_u256())[key] == zero_u256());
                assert(heads_of(self.price_levels@).remove(key) =~= heads_of(
                    old(self).price_levels@,
                ).remove(key));
            }
        }
    }

    /// `PriceLevelRemoved`: the event names no side, so the ask level of that price is
    /// tried first, then the bid level; the one found is unlinked and deleted.
    pub fn apply_price_level_removed(&mut self, price: U256)
        ensures
            final(self).price_levels@.dom() == if old(self).has_level(price, true) {
                old(self).price_levels@.dom().remove(level_key(price, true))
            } else {
                old(self).price_levels@.dom().remove(level_key(price, false))
            },
            final(self).orders@ == old(self).orders@,
            old(self).wf() && price@ < price_bound() ==> final(self).wf(),
            !old(self).has_level(price, true) && !old(self).has_level(price, false) ==> *final(self)
                == *old(self),
            final(self).market_ends_kept(old(self)),
            ({
                let side = old(self).has_level(price, true);
                let key = level_key(price, side);
                &&& heads_of(final(self).price_levels@) == heads_of(old(self).price_levels@).remove(key)
                &&& volumes_of(final(self).price_levels@) == volumes_of(
                    old(self).price_levels@,
                ).remove(key)
                &&& price@ < price_bound() ==> forall|a: Seq<U256>, b: Seq<U256>, i: int|
                    #[trigger] unlink_ready(*old(self), a, b, price, side, i) ==> final(self).linked_as(
                        if side {
                            a.remove(i)
                        } else {
                            a
                        },
                        if side {
                            b
                        } else {
                            b.remove(i)
                        },
                    )
            }),
    {
        if self.price_levels.contains_key(&price_level_key(price, true)) {
            self.remove_price_level(price, true);
        } else {
            self.remove_price_level(price, false);
        }
    }

    /// `OrderFilled`: drops a fully filled order (the removal events that follow mend
    /// the lists), else records its filled amount. Unknown orders are skipped.
    pub fn apply_order_filled(&mut self, order_id: U256, filled_amount: U256, is_fully_filled: bool)
        ensures
            is_fully_filled ==> final(self).orders@ == old(self).orders@.remove(key_of(order_id)),
            !is_fully_filled ==> final(self).orders@ == if old(self).has_order(order_id) {
                old(self).orders@.insert(
                    key_of(order_id),
                    SimOrder { filled_amount, ..old(self).order_at(order_id) },
                )
            } else {
                old(self).orders@
            },
            final(self).price_levels@ == old(self).price_levels@,
            old(self).wf() ==> final(self).wf(),
            final(self).links_kept(old(self)),
            final(self).market_ends_kept(old(self)),
            !old(self).has_order(order_id) ==> *final(self) == *old(self),
    {
        let ghost start_state = *self;
        if !self.orders.contains_key(&order_id.key()) {
            return;
        }
        if is_fully_filled {
            self.orders.remove(&order_id.key());
        } else {
            match self.orders.get(&order_id.key()) {
                Some(o) => {
                    let mut o2 = *o;
                    o2.filled_amount = filled_amount;
                    self.orders.insert(order_id.key(), o2);
                },
                None => {},
            }
        }
        proof {
            if start_state.wf() {
                assert(orders_bounded(self.orders@));
                lemma_links_kept_wf(start_state, *self);
            }
        }
    }

    /// `OrderRemoved`: drops the order.
    pub fn apply_order_removed(&mut self, order_id: U256)
        ensures
            final(self).orders@ == old(self).orders@.remove(key_of(order_id)),
            final(self).price_levels@ == old(self).price_levels@,
            old(self).wf() ==> final(self).wf(),
            final(self).links_kept(old(self)),
            final(self).market_ends_kept(old(self)),
            !old(self).has_order(order_id) ==> *final(self) == *old(self),
    {
        let ghost start_state = *self;
        if !self.orders.contains_key(&order_id.key()) {
            assert(self.orders@.remove(key_of(order_id)) =~= self.orders@);
            return;
        }
        self.orders.remove(&order_id.key());
        proof {
            if start_state.wf() {
                assert(orders_bounded(self.orders@));
                lemma_links_kept_wf(start_state, *self);
            }
        }
    }

    /// `MarketOrderRemoved`: unlinks the order from the market FIFO it heads, ends or
    /// sits inside, and drops it.
    pub fn apply_market_order_removed(&mut self, order_id: U256)
        ensures
            old(self).has_order(order_id) ==> crate::orderbook::fifo_taken_out(
                *old(self),
                *final(self),
                order_id,
                old(self).market_ask_head == order_id || old(self).market_ask_tail == order_id,
            ),
            final(self).orders@.dom() == old(self).orders@.dom().remove(key_of(order_id)),
            final(self).price_levels@ == old(self).price_levels@,
            old(self).wf() ==> final(self).wf(),
    {
        let ghost start_state = *self;
        let is_ask = self.market_ask_head == order_id || self.market_ask_tail == order_id;
        self.remove_market_order_from_list(order_id, is_ask);
        let ghost mid = *self;
        self.orders.remove(&order_id.key());
        proof {
            if start_state.has_order(order_id) {
                assert(crate::orderbook::unlinked_from_fifo(
                    start_state,
                    mid,
                    start_state.order_at(order_id),
                    is_ask,
                ));
            }
        }
        proof {
            if start_state.wf() {
                assert(orders_bounded(self.orders@));
                lemma_links_kept_wf(start_state, *self);
            }
        }
    }
}

impl GlobalState {
    /// A request event of the Sequencer: appends the request to the queue.
    pub fn apply_request_event(&mut self, request: QueuedRequest)
        ensures
            forall|s: Seq<QueuedRequest>|
                #[trigger] queue_linked(old(self).requests(), old(self).queue_head, old(self).queue_tail, s)
                    && request.request_id@ != 0 && !old(self).requests().contains_key(
                    key_of(request.request_id),
                ) && request.next_request_id@ == 0 ==> queue_linked(
                    final(self).requests(),
                    final(self).queue_head,
                    final(self).queue_tail,
                    appended(s, request),
                ),
            final(self).requests().contains_key(key_of(request.request_id)),
            final(self).requests()[key_of(request.request_id)] == request,
            final(self).queue_tail == request.request_id,
    {
        self.append_request(request);
    }
}

} // verus!
