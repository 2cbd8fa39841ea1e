use vstd::prelude::*;
use std::collections::BTreeMap;
use crate::u256::{key_of, U256};

verus! {

broadcast use vstd::std_specs::btree::group_btree_axioms, vstd::laws_cmp::group_laws_cmp;

/// The kind of a queued request.
#[derive(Clone, Copy, Debug, PartialEq, Eq, Structural)]
pub enum RequestType {
    PlaceOrder,
    RemoveOrder,
}

/// The type of an order to place.
#[derive(Clone, Copy, Debug, PartialEq, Eq, Structural)]
pub enum OrderType {
    Limit,
    Market,
}

impl RequestType {
    /// The kind for its on-chain tag; `None` for an unknown tag.
    pub fn from_tag(tag: u8) -> (r: Option<RequestType>)
        ensures
            r == if tag == 0 {
                Some(RequestType::PlaceOrder)
            } else if tag == 1 {
                Some(RequestType::RemoveOrder)
            } else {
                None::<RequestType>
            },
    {
        if tag == 0 {
            Some(RequestType::PlaceOrder)
        } else if tag == 1 {
            Some(RequestType::RemoveOrder)
        } else {
            None
        }
    }
}

impl OrderType {
    /// The order type for its on-chain tag; `None` for an unknown tag.
    pub fn from_tag(tag: u8) -> (r: Option<OrderType>)
        ensures
            r == if tag == 0 {
                Some(OrderType::Limit)
            } else if tag == 1 {
                Some(OrderType::Market)
            } else {
                None::<OrderType>
            },
    {
        if tag == 0 {
            Some(OrderType::Limit)
        } else if tag == 1 {
            Some(OrderType::Market)
        } else {
            None
        }
    }
}

/// A request waiting in the Sequencer's queue.
#[derive(Clone, Copy, Debug)]
pub struct QueuedRequest {
    pub request_id: U256,
    pub request_type: RequestType,
    pub trading_pair: [u8; 32],
    /// The trader's 20-byte address.
    pub trader: [u8; 20],
    pub order_type: OrderType,
    pub is_ask: bool,
    pub price: U256,
    pub amount: U256,
    pub order_id_to_remove: U256,
    pub next_request_id: U256,
}

/// A price level as the chain stores it.
#[derive(Clone, Copy, Debug, PartialEq, Eq, Structural)]
pub struct PriceLevel {
    pub price: U256,
    pub total_volume: U256,
    pub head_order_id: U256,
    pub tail_order_id: U256,
    pub next_price: U256,
    pub prev_price: U256,
}

/// An order as the chain stores it.
#[derive(Clone, Copy, Debug)]
pub struct Order {
    pub id: U256,
    pub trader: [u8; 20],
    pub amount: U256,
    pub filled_amount: U256,
    pub is_market_order: bool,
    pub price_level: U256,
    pub next_order_id: U256,
    pub prev_order_id: U256,
}

/// The boundary pointers of one trading pair's book as the chain stores them.
#[derive(Clone, Copy, Debug, PartialEq, Eq, Structural)]
pub struct OrderBookData {
    pub ask_head: U256,
    pub ask_tail: U256,
    pub bid_head: U256,
    pub bid_tail: U256,
    pub market_ask_head: U256,
    pub market_ask_tail: U256,
    pub market_bid_head: U256,
    pub market_bid_tail: U256,
}

/// The payload of a batch transaction: three parallel arrays, one entry per request.
#[derive(Clone, Debug)]
pub struct MatchResult {
    pub order_ids: Vec<U256>,
    pub insert_after_price_levels: Vec<U256>,
    pub insert_after_orders: Vec<U256>,
}

impl MatchResult {
    /// The three arrays have one length.
    pub open spec fn wf(&self) -> bool {
        &&& self.order_ids@.len() == self.insert_after_price_levels@.len()
        &&& self.order_ids@.len() == self.insert_after_orders@.len()
    }

    pub fn new() -> (r: Self)
        ensures
            r.wf(),
            r.order_ids@.len() == 0,
    {
        MatchResult {
            order_ids: Vec::new(),
            insert_after_price_levels: Vec::new(),
            insert_after_orders: Vec::new(),
        }
    }

    pub fn is_empty(&self) -> (r: bool)
        ensures
            r == (self.order_ids@.len() == 0),
    {
        self.order_ids.len() == 0
    }

    pub fn len(&self) -> (r: usize)
        ensures
            r == self.order_ids@.len(),
    {
        self.order_ids.len()
    }

    /// Appends one entry to each array.
    pub fn add_order(&mut self, order_id: U256, price_level: U256, order: U256)
        ensures
            final(self).order_ids@ == old(self).order_ids@.push(order_id),
            final(self).insert_after_price_levels@ == old(
                self,
            ).insert_after_price_levels@.push(price_level),
            final(self).insert_after_orders@ == old(self).insert_after_orders@.push(order),
    {
        self.order_ids.push(order_id);
        self.insert_after_price_levels.push(price_level);
        self.insert_after_orders.push(order);
    }
}

/// Levels by id, with an index from price to level id.
#[derive(Clone, Debug)]
pub struct PriceLevelCache {
    pub price_to_level: BTreeMap<(u128, u128), U256>,
    pub levels: BTreeMap<(u128, u128), PriceLevel>,
}

impl PriceLevelCache {
    pub fn new() -> (r: Self)
        ensures
            r.price_to_level@.is_empty(),
            r.levels@.is_empty(),
    {
        PriceLevelCache { price_to_level: BTreeMap::new(), levels: BTreeMap::new() }
    }

    pub fn insert(&mut self, level_id: U256, level: PriceLevel)
        ensures
            final(self).price_to_level@ == old(self).price_to_level@.insert(
                key_of(level.price),
                level_id,
            ),
            final(self).levels@ == old(self).levels@.insert(key_of(level_id), level),
    {
        self.price_to_level.insert(level.price.key(), level_id);
        self.levels.insert(level_id.key(), level);
    }

    pub fn get_level_by_price(&self, price: &U256) -> (r: Option<U256>)
        ensures
            r == if self.price_to_level@.contains_key(key_of(*price)) {
                Some(self.price_to_level@[key_of(*price)])
            } else {
                None::<U256>
            },
    {
        match self.price_to_level.get(&price.key()) {
            Some(id) => Some(*id),
            None => None,
        }
    }

    pub fn get_level(&self, level_id: &U256) -> (r: Option<PriceLevel>)
        ensures
            r == if self.levels@.contains_key(key_of(*level_id)) {
                Some(self.levels@[key_of(*level_id)])
            } else {
                None::<PriceLevel>
            },
    {
        match self.levels.get(&level_id.key()) {
            Some(l) => Some(*l),
            None => None,
        }
    }
}

} // verus!
