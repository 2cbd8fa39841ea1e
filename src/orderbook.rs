use vstd::prelude::*;
use std::collections::BTreeMap;
use crate::u256::{key_of, level_key, price_level_key, zero_u256, U256};
use crate::match_simulator::min_nat;
use crate::book_invariant::{
    heads_of, hint_ok, lemma_data_at, lemma_vol_at, lemma_insert_position_slot, lemma_occupied_heads, lemma_occupied_same_heads,
    occupied_but, tails_of, fills_of, order_core_of, vol_views, cut, olinks_of, volumes_of, set_at, set_onext, set_oprev, data_of, lemma_links_kept_wf, lemma_locate, side_of, slot_hint, slot_ok, lemma_splice, lemma_unlink, link_ok, link_of, links_of, next_in,
    order_data_of, orders_bounded, splice_ready, spliced_links, unlinked_links, with_next, with_prev,
};
use crate::u256::{price_bound, u256_bound};

verus! {

broadcast use vstd::std_specs::btree::group_btree_axioms, vstd::laws_cmp::group_laws_cmp;

/// An order of the replica: a node of its level's order list, or of a market FIFO.
#[derive(Clone, Copy, Debug, PartialEq, Eq, Structural)]
pub struct SimOrder {
    pub id: U256,
    pub amount: U256,
    pub filled_amount: U256,
    pub is_market_order: bool,
    /// The price of the level that holds the order; zero for a market order.
    pub price_level: U256,
    pub next_order_id: U256,
    pub prev_order_id: U256,
}

/// A price level: a node of its side's price list, holding a FIFO list of orders.
#[derive(Clone, Copy, Debug, PartialEq, Eq, Structural)]
pub struct SimPriceLevel {
    pub price: U256,
    pub total_volume: U256,
    pub head_order_id: U256,
    pub tail_order_id: U256,
    pub next_price: U256,
    pub prev_price: U256,
}

/// The replica of one trading pair's on-chain order book. Levels and orders live in
/// two tables; the links between them are keys, never references.
#[derive(Clone, Debug)]
pub struct OrderBookSimulator {
    pub ask_head: U256,
    pub ask_tail: U256,
    pub bid_head: U256,
    pub bid_tail: U256,
    pub market_ask_head: U256,
    pub market_ask_tail: U256,
    pub market_bid_head: U256,
    pub market_bid_tail: U256,
    /// Levels by `level_key(price, is_ask)`.
    pub price_levels: BTreeMap<(u128, u128), SimPriceLevel>,
    /// Orders by `key_of(id)`.
    pub orders: BTreeMap<(u128, u128), SimOrder>,
}

pub type LevelTable = Map<(u128, u128), SimPriceLevel>;

pub type OrderTable = Map<(u128, u128), SimOrder>;

/// Whether a new order at `price` goes before the level priced `level_price`.
pub open spec fn goes_before(price: U256, level_price: U256, is_ask: bool) -> bool {
    if is_ask {
        price@ <= level_price@
    } else {
        price@ >= level_price@
    }
}

/// The walk of the insertion-position search from level `cur`, with `prev` the price
/// visited last; `fuel` bounds the number of levels visited.
pub open spec fn walk_position(
    levels: LevelTable,
    price: U256,
    is_ask: bool,
    cur: U256,
    prev: U256,
    fuel: nat,
) -> U256
    decreases fuel,
{
    if fuel == 0 || cur@ == 0 || !levels.contains_key(level_key(cur, is_ask)) {
        prev
    } else if goes_before(price, levels[level_key(cur, is_ask)].price, is_ask) {
        prev
    } else {
        walk_position(
            levels,
            price,
            is_ask,
            levels[level_key(cur, is_ask)].next_price,
            cur,
            (fuel - 1) as nat,
        )
    }
}

/// The prices met by following `next_price` from `cur`.
pub open spec fn walk_prices(levels: LevelTable, cur: U256, is_ask: bool, fuel: nat) -> Seq<U256>
    decreases fuel,
{
    if fuel == 0 || cur@ == 0 {
        Seq::empty()
    } else if !levels.contains_key(level_key(cur, is_ask)) {
        seq![cur]
    } else {
        seq![cur] + walk_prices(
            levels,
            levels[level_key(cur, is_ask)].next_price,
            is_ask,
            (fuel - 1) as nat,
        )
    }
}

/// The order ids met by following `next_order_id` from `cur`.
pub open spec fn walk_orders(orders: OrderTable, cur: U256, fuel: nat) -> Seq<U256>
    decreases fuel,
{
    if fuel == 0 || cur@ == 0 {
        Seq::empty()
    } else if !orders.contains_key(key_of(cur)) {
        seq![cur]
    } else {
        seq![cur] + walk_orders(orders, orders[key_of(cur)].next_order_id, (fuel - 1) as nat)
    }
}

impl OrderBookSimulator {
    pub open spec fn head_of(&self, is_ask: bool) -> U256 {
        if is_ask {
            self.ask_head
        } else {
            self.bid_head
        }
    }

    pub open spec fn tail_of(&self, is_ask: bool) -> U256 {
        if is_ask {
            self.ask_tail
        } else {
            self.bid_tail
        }
    }

    pub open spec fn market_head_of(&self, is_ask: bool) -> U256 {
        if is_ask {
            self.market_ask_head
        } else {
            self.market_bid_head
        }
    }

    pub open spec fn market_tail_of(&self, is_ask: bool) -> U256 {
        if is_ask {
            self.market_ask_tail
        } else {
            self.market_bid_tail
        }
    }

    pub open spec fn has_level(&self, price: U256, is_ask: bool) -> bool {
        self.price_levels@.contains_key(level_key(price, is_ask))
    }

    pub open spec fn level_at(&self, price: U256, is_ask: bool) -> SimPriceLevel {
        self.price_levels@[level_key(price, is_ask)]
    }

    pub open spec fn has_order(&self, id: U256) -> bool {
        self.orders@.contains_key(key_of(id))
    }

    pub open spec fn order_at(&self, id: U256) -> SimOrder {
        self.orders@[key_of(id)]
    }

    /// The insertion hint for a new order at `(price, is_ask)`: the price itself where
    /// its level exists, else the price of the level it goes after, zero for the head.
    pub open spec fn insert_position(&self, price: U256, is_ask: bool) -> U256 {
        if self.has_level(price, is_ask) {
            price
        } else {
            walk_position(
                self.price_levels@,
                price,
                is_ask,
                self.head_of(is_ask),
                zero_u256(),
                self.price_levels@.len(),
            )
        }
    }

    /// The prices of one side, from its head along `next_price`.
    pub open spec fn side_prices(&self, is_ask: bool) -> Seq<U256> {
        walk_prices(self.price_levels@, self.head_of(is_ask), is_ask, self.price_levels@.len())
    }

    /// The ids of one market FIFO, from its head along `next_order_id`.
    pub open spec fn market_queue(&self, is_ask: bool) -> Seq<U256> {
        walk_orders(self.orders@, self.market_head_of(is_ask), self.orders@.len())
    }

    /// The ids of the orders at one level, from its head along `next_order_id`;
    /// empty where the level does not exist.
    pub open spec fn level_orders(&self, price: U256, is_ask: bool) -> Seq<U256> {
        if self.has_level(price, is_ask) {
            walk_orders(
                self.orders@,
                self.level_at(price, is_ask).head_order_id,
                self.orders@.len(),
            )
        } else {
            Seq::empty()
        }
    }

    pub open spec fn is_empty_book(&self) -> bool {
        &&& self.ask_head@ == 0 && self.ask_tail@ == 0
        &&& self.bid_head@ == 0 && self.bid_tail@ == 0
        &&& self.market_ask_head@ == 0 && self.market_ask_tail@ == 0
        &&& self.market_bid_head@ == 0 && self.market_bid_tail@ == 0
        &&& self.price_levels@ == LevelTable::empty()
        &&& self.orders@ == OrderTable::empty()
    }

    /// Same pointers and same tables.
    pub open spec fn same_state(&self, o: &Self) -> bool {
        &&& self.ask_head == o.ask_head && self.ask_tail == o.ask_tail
        &&& self.bid_head == o.bid_head && self.bid_tail == o.bid_tail
        &&& self.market_ask_head == o.market_ask_head && self.market_ask_tail == o.market_ask_tail
        &&& self.market_bid_head == o.market_bid_head && self.market_bid_tail == o.market_bid_tail
        &&& self.price_levels@ == o.price_levels@
        &&& self.orders@ == o.orders@
    }

    /// An independent copy of the replica.
    pub fn snapshot(&self) -> (r: Self)
        ensures
            r.same_state(self),
    {
        OrderBookSimulator {
            ask_head: self.ask_head,
            ask_tail: self.ask_tail,
            bid_head: self.bid_head,
            bid_tail: self.bid_tail,
            market_ask_head: self.market_ask_head,
            market_ask_tail: self.market_ask_tail,
            market_bid_head: self.market_bid_head,
            market_bid_tail: self.market_bid_tail,
            price_levels: self.price_levels.clone(),
            orders: self.orders.clone(),
        }
    }

    pub fn new() -> (r: Self)
        ensures
            r.is_empty_book(),
            r.wf(),
            r.levels_occupied(),
    {
        let r = Self::from_chain_state(U256::zero(), U256::zero(), U256::zero(), U256::zero());
        assert(r.linked_as(Seq::empty(), Seq::empty()));
        r
    }

    /// A replica with the given boundary pointers and empty tables, to be filled by
    /// `add_existing_price_level` and `add_existing_order`.
    pub fn from_chain_state(ask_head: U256, ask_tail: U256, bid_head: U256, bid_tail: U256) -> (r:
        Self)
        ensures
            r.ask_head == ask_head && r.ask_tail == ask_tail,
            r.bid_head == bid_head && r.bid_tail == bid_tail,
            r.market_ask_head@ == 0 && r.market_ask_tail@ == 0,
            r.market_bid_head@ == 0 && r.market_bid_tail@ == 0,
            r.price_levels@ == LevelTable::empty(),
            r.orders@ == OrderTable::empty(),
    {
        OrderBookSimulator {
            ask_head,
            ask_tail,
            bid_head,
            bid_tail,
            market_ask_head: U256::zero(),
            market_ask_tail: U256::zero(),
            market_bid_head: U256::zero(),
            market_bid_tail: U256::zero(),
            price_levels: BTreeMap::new(),
            orders: BTreeMap::new(),
        }
    }

    /// Sets the four boundary pointers of the price lists to the chain's.
    pub fn set_boundaries(&mut self, ask_head: U256, ask_tail: U256, bid_head: U256, bid_tail: U256)
        ensures
            final(self).ask_head == ask_head && final(self).ask_tail == ask_tail,
            final(self).bid_head == bid_head && final(self).bid_tail == bid_tail,
            final(self).market_ends_kept(old(self)),
            final(self).price_levels@ == old(self).price_levels@,
            final(self).orders@ == old(self).orders@,
    {
        self.ask_head = ask_head;
        self.ask_tail = ask_tail;
        self.bid_head = bid_head;
        self.bid_tail = bid_tail;
    }

    /// Stores a level read from the chain, as it is: its links are the chain's.
    pub fn add_existing_price_level(&mut self, level: SimPriceLevel, is_ask: bool)
        ensures
            final(self).price_levels@ == old(self).price_levels@.insert(
                level_key(level.price, is_ask),
                level,
            ),
            final(self).orders@ == old(self).orders@,
            final(self).ask_head == old(self).ask_head && final(self).bid_head == old(self).bid_head,
            final(self).ask_tail == old(self).ask_tail && final(self).bid_tail == old(self).bid_tail,
    {
        let key = price_level_key(level.price, is_ask);
        self.price_levels.insert(key, level);
    }

    /// Stores an order read from the chain, as it is: its links are the chain's.
    pub fn add_existing_order(&mut self, order: SimOrder)
        ensures
            final(self).orders@ == old(self).orders@.insert(key_of(order.id), order),
            final(self).price_levels@ == old(self).price_levels@,
            final(self).ask_head == old(self).ask_head && final(self).bid_head == old(self).bid_head,
            final(self).ask_tail == old(self).ask_tail && final(self).bid_tail == old(self).bid_tail,
    {
        self.orders.insert(order.id.key(), order);
    }

    /// The order stored under `order_id`, if any.
    pub fn get_order(&self, order_id: U256) -> (r: Option<SimOrder>)
        ensures
            r == if self.has_order(order_id) {
                Some(self.order_at(order_id))
            } else {
                None::<SimOrder>
            },
    {
        match self.orders.get(&order_id.key()) {
            Some(o) => Some(*o),
            None => None,
        }
    }

    pub fn contains_order(&self, order_id: U256) -> (r: bool)
        ensures
            r == self.has_order(order_id),
    {
        self.orders.contains_key(&order_id.key())
    }

    /// The level of `(price, is_ask)`, if any.
    pub fn get_price_level(&self, price: U256, is_ask: bool) -> (r: Option<SimPriceLevel>)
        ensures
            r == if self.has_level(price, is_ask) {
                Some(self.level_at(price, is_ask))
            } else {
                None::<SimPriceLevel>
            },
    {
        match self.price_levels.get(&price_level_key(price, is_ask)) {
            Some(l) => Some(*l),
            None => None,
        }
    }

    /// The insertion hint for a new order at `(price, is_ask)` against the current state.
    pub fn find_insert_position(&self, price: U256, is_ask: bool) -> (r: U256)
        ensures
            r == self.insert_position(price, is_ask),
            r@ == 0 || self.has_level(r, is_ask),
            hint_ok(*self, price, is_ask, r),
    {
        proof {
            assert(self.price_levels@.dom().finite());
            lemma_insert_position_slot(*self, price, is_ask);
        }
        if self.price_levels.contains_key(&price_level_key(price, is_ask)) {
            return price;
        }
        let ghost levels = self.price_levels@;
        let mut cur = if is_ask {
            self.ask_head
        } else {
            self.bid_head
        };
        let mut prev = U256::zero();
        let mut fuel: usize = self.price_levels.len();
        while !cur.is_zero() && fuel > 0
            invariant
                levels == self.price_levels@,
                walk_position(levels, price, is_ask, cur, prev, fuel as nat) == self.insert_position(
                    price,
                    is_ask,
                ),
                prev@ == 0 || self.has_level(prev, is_ask),
                hint_ok(*self, price, is_ask, self.insert_position(price, is_ask)),
            decreases fuel,
        {
            match self.price_levels.get(&price_level_key(cur, is_ask)) {
                Some(level) => {
                    let here = if is_ask {
                        price.le(&level.price)
                    } else {
                        level.price.le(&price)
                    };
                    if here {
                        return prev;
                    }
                    prev = cur;
                    cur = level.next_price;
                    fuel = fuel - 1;
                },
                None => {
                    return prev;
                },
            }
        }
        prev
    }

    /// The prices of one side in list order.
    pub fn get_price_levels(&self, is_ask: bool) -> (r: Vec<U256>)
        ensures
            r@ == self.side_prices(is_ask),
    {
        let ghost levels = self.price_levels@;
        let mut out: Vec<U256> = Vec::new();
        let mut cur = if is_ask {
            self.ask_head
        } else {
            self.bid_head
        };
        let mut fuel: usize = self.price_levels.len();
        while !cur.is_zero() && fuel > 0
            invariant
                levels == self.price_levels@,
                out@ + walk_prices(levels, cur, is_ask, fuel as nat) == self.side_prices(is_ask),
            decreases fuel,
        {
            let ghost before = out@;
            out.push(cur);
            match self.price_levels.get(&price_level_key(cur, is_ask)) {
                Some(level) => {
                    assert(before + walk_prices(levels, cur, is_ask, fuel as nat) == out@
                        + walk_prices(levels, level.next_price, is_ask, (fuel - 1) as nat));
                    cur = level.next_price;
                    fuel = fuel - 1;
                },
                None => {
                    assert(out@ == before + walk_prices(levels, cur, is_ask, fuel as nat));
                    return out;
                },
            }
        }
        assert(walk_prices(levels, cur, is_ask, fuel as nat) =~= Seq::empty());
        assert(out@ + Seq::<U256>::empty() =~= out@);
        out
    }

    /// Collects the ids along `next_order_id` from `start`.
    fn collect_orders(&self, start: U256) -> (r: Vec<U256>)
        ensures
            r@ == walk_orders(self.orders@, start, self.orders@.len()),
    {
        let ghost orders = self.orders@;
        let mut out: Vec<U256> = Vec::new();
        let mut cur = start;
        let mut fuel: usize = self.orders.len();
        while !cur.is_zero() && fuel > 0
            invariant
                orders == self.orders@,
                out@ + walk_orders(orders, cur, fuel as nat) == walk_orders(
                    orders,
                    start,
                    orders.len(),
                ),
            decreases fuel,
        {
            let ghost before = out@;
            out.push(cur);
            match self.orders.get(&cur.key()) {
                Some(order) => {
                    assert(before + walk_orders(orders, cur, fuel as nat) == out@ + walk_orders(
                        orders,
                        order.next_order_id,
                        (fuel - 1) as nat,
                    ));
                    cur = order.next_order_id;
                    fuel = fuel - 1;
                },
                None => {
                    assert(out@ == before + walk_orders(orders, cur, fuel as nat));
                    return out;
                },
            }
        }
        assert(walk_orders(orders, cur, fuel as nat) =~= Seq::empty());
        assert(out@ + Seq::<U256>::empty() =~= out@);
        out
    }

    /// The order ids at one level in list order; empty where the level does not exist.
    pub fn get_orders_at_price(&self, price: U256, is_ask: bool) -> (r: Vec<U256>)
        ensures
            r@ == self.level_orders(price, is_ask),
    {
        match self.price_levels.get(&price_level_key(price, is_ask)) {
            Some(level) => self.collect_orders(level.head_order_id),
            None => Vec::new(),
        }
    }

    /// The ids of one side's market FIFO, oldest first.
    pub fn get_market_orders(&self, is_ask: bool) -> (r: Vec<U256>)
        ensures
            r@ == self.market_queue(is_ask),
    {
        let head = if is_ask {
            self.market_ask_head
        } else {
            self.market_bid_head
        };
        self.collect_orders(head)
    }
}


/// `after` is `before` with order `o` unlinked from the order list of level `lk`: its
/// neighbours point past it, or the level's head and tail move where it stood at an end.
pub open spec fn unlinked_from_level(
    before: OrderBookSimulator,
    after: OrderBookSimulator,
    o: SimOrder,
    lk: (u128, u128),
) -> bool {
    let ol0 = olinks_of(before.orders@);
    let ol1 = if o.prev_order_id@ != 0 {
        set_onext(ol0, key_of(o.prev_order_id), o.next_order_id)
    } else {
        ol0
    };
    &&& olinks_of(after.orders@) == if o.next_order_id@ != 0 {
        set_oprev(ol1, key_of(o.next_order_id), o.prev_order_id)
    } else {
        ol1
    }
    &&& heads_of(after.price_levels@) == if o.prev_order_id@ == 0 {
        set_at(heads_of(before.price_levels@), lk, o.next_order_id)
    } else {
        heads_of(before.price_levels@)
    }
    &&& tails_of(after.price_levels@) == if o.next_order_id@ == 0 {
        set_at(tails_of(before.price_levels@), lk, o.prev_order_id)
    } else {
        tails_of(before.price_levels@)
    }
}

/// `after` is `before` with the stored order `id` linked into the order list of level
/// `lk`: at the head for a zero `prev`, else right after order `prev`, with the
/// neighbours pointing back to it and the level's ends moved where it stands at one.
pub open spec fn linked_into_level(
    before: OrderBookSimulator,
    after: OrderBookSimulator,
    id: U256,
    prev: U256,
    lk: (u128, u128),
) -> bool {
    let ol0 = olinks_of(before.orders@);
    let heads0 = heads_of(before.price_levels@);
    let tails0 = tails_of(before.price_levels@);
    let old_head = if heads0.contains_key(lk) {
        heads0[lk]
    } else {
        zero_u256()
    };
    let nxt = if ol0.contains_key(key_of(prev)) {
        ol0[key_of(prev)].0
    } else {
        zero_u256()
    };
    if prev@ == 0 {
        &&& olinks_of(after.orders@) == if old_head@ != 0 {
            set_onext(set_oprev(ol0, key_of(old_head), id), key_of(id), old_head)
        } else {
            ol0
        }
        &&& heads_of(after.price_levels@) == set_at(heads0, lk, id)
        &&& tails_of(after.price_levels@) == if old_head@ != 0 {
            tails0
        } else {
            set_at(tails0, lk, id)
        }
    } else {
        let l2 = set_onext(set_at(ol0, key_of(id), (nxt, prev)), key_of(prev), id);
        &&& olinks_of(after.orders@) == if nxt@ != 0 {
            set_oprev(l2, key_of(nxt), id)
        } else {
            l2
        }
        &&& heads_of(after.price_levels@) == heads0
        &&& tails_of(after.price_levels@) == if nxt@ != 0 {
            tails0
        } else {
            set_at(tails0, lk, id)
        }
    }
}

/// `after` is `before` with order `id` taken out of side `is_ask`: the level's volume
/// drops by what was left of the order, the order is unlinked from the level's order
/// list and deleted, and the level is deleted exactly when that left it without a head.
pub open spec fn order_taken_out(
    before: OrderBookSimulator,
    after: OrderBookSimulator,
    id: U256,
    is_ask: bool,
) -> bool {
    let o = before.order_at(id);
    let lk = level_key(o.price_level, is_ask);
    let rem = if o.filled_amount@ <= o.amount@ {
        (o.amount@ - o.filled_amount@) as nat
    } else {
        0nat
    };
    let lv = before.price_levels@;
    let new_head = if o.prev_order_id@ == 0 {
        o.next_order_id
    } else {
        lv[lk].head_order_id
    };
    &&& order_data_of(after.orders@) == order_data_of(before.orders@).remove(key_of(id))
    &&& exists|mid: OrderBookSimulator|
        {
            &&& #[trigger] unlinked_from_level(before, mid, o, lk)
            &&& olinks_of(after.orders@) == olinks_of(mid.orders@).remove(key_of(id))
        }
    &&& after.price_levels@.contains_key(lk) == (lv.contains_key(lk) && new_head@ != 0)
    &&& volumes_of(after.price_levels@).remove(lk) == volumes_of(lv).remove(lk)
    &&& after.price_levels@.contains_key(lk) ==> {
        &&& after.price_levels@[lk].total_volume@ == if rem <= lv[lk].total_volume@ {
            lv[lk].total_volume@ - rem
        } else {
            0
        }
        &&& after.price_levels@[lk].head_order_id == new_head
        &&& after.price_levels@[lk].tail_order_id == if o.next_order_id@ == 0 {
            o.prev_order_id
        } else {
            lv[lk].tail_order_id
        }
        &&& after.links_kept(&before)
    }
    &&& heads_of(after.price_levels@).remove(lk) == heads_of(lv).remove(lk)
    &&& tails_of(after.price_levels@).remove(lk) == tails_of(lv).remove(lk)
    &&& after.market_ends_kept(&before)
}

/// What an order has left to fill.
pub open spec fn remaining_view(o: SimOrder) -> nat {
    cut(o.amount@, o.filled_amount@)
}

/// One trade of `t` before any removal: the orders under `ids` are filled `t` more, the
/// levels under `lks` lose `t` of volume, and nothing else changes.
pub open spec fn trade_step(
    before: OrderBookSimulator,
    after: OrderBookSimulator,
    ids: Set<(u128, u128)>,
    lks: Set<(u128, u128)>,
    t: nat,
) -> bool {
    &&& after.links_kept(&before)
    &&& after.market_ends_kept(&before)
    &&& after.orders@.dom() == before.orders@.dom()
    &&& olinks_of(after.orders@) == olinks_of(before.orders@)
    &&& order_core_of(after.orders@) == order_core_of(before.orders@)
    &&& forall|k: (u128, u128)|
        #[trigger] after.orders@.contains_key(k) ==> after.orders@[k].filled_amount@ == if ids.contains(
            k,
        ) {
            before.orders@[k].filled_amount@ + t
        } else {
            before.orders@[k].filled_amount@
        }
    &&& after.price_levels@.dom() == before.price_levels@.dom()
    &&& heads_of(after.price_levels@) == heads_of(before.price_levels@)
    &&& tails_of(after.price_levels@) == tails_of(before.price_levels@)
    &&& forall|k: (u128, u128)|
        #[trigger] after.price_levels@.contains_key(k) ==> after.price_levels@[k].total_volume@
            == if lks.contains(k) {
            cut(before.price_levels@[k].total_volume@, t)
        } else {
            before.price_levels@[k].total_volume@
        }
}

/// Whether a stored order is filled in full.
pub open spec fn is_full(book: OrderBookSimulator, id: U256) -> bool {
    book.has_order(id) && book.order_at(id).amount@ <= book.order_at(id).filled_amount@
}

/// A trade between resting orders `bid` and `ask`: the trade step, then each order that
/// is now filled in full taken out of its side.
pub open spec fn limit_trade_done(
    before: OrderBookSimulator,
    filled: OrderBookSimulator,
    between: OrderBookSimulator,
    after: OrderBookSimulator,
    bid: U256,
    ask: U256,
    t: nat,
) -> bool {
    &&& trade_step(
        before,
        filled,
        set![key_of(bid), key_of(ask)],
        set![
            level_key(before.order_at(bid).price_level, false),
            level_key(before.order_at(ask).price_level, true),
        ],
        t,
    )
    &&& if is_full(filled, bid) {
        order_taken_out(filled, between, bid, false)
    } else {
        between == filled
    }
    &&& if is_full(between, ask) {
        order_taken_out(between, after, ask, true)
    } else {
        after == between
    }
}

/// The order links once order `o` is unlinked: its neighbours point past it.
pub open spec fn olinks_without(ol0: Map<(u128, u128), (U256, U256)>, o: SimOrder) -> Map<
    (u128, u128),
    (U256, U256),
> {
    let ol1 = if o.prev_order_id@ != 0 {
        set_onext(ol0, key_of(o.prev_order_id), o.next_order_id)
    } else {
        ol0
    };
    if o.next_order_id@ != 0 {
        set_oprev(ol1, key_of(o.next_order_id), o.prev_order_id)
    } else {
        ol1
    }
}

/// `after` is `before` with order `o` unlinked from the market FIFO of side `is_ask`:
/// its neighbours point past it, and the FIFO's ends move where it stood at one.
pub open spec fn unlinked_from_fifo(
    before: OrderBookSimulator,
    after: OrderBookSimulator,
    o: SimOrder,
    is_ask: bool,
) -> bool {
    &&& olinks_of(after.orders@) == olinks_without(olinks_of(before.orders@), o)
    &&& order_data_of(after.orders@) == order_data_of(before.orders@)
    &&& after.orders@.dom() == before.orders@.dom()
    &&& after.market_head_of(is_ask) == if o.prev_order_id@ == 0 {
        o.next_order_id
    } else {
        before.market_head_of(is_ask)
    }
    &&& after.market_tail_of(is_ask) == if o.next_order_id@ == 0 {
        o.prev_order_id
    } else {
        before.market_tail_of(is_ask)
    }
    &&& after.market_head_of(!is_ask) == before.market_head_of(!is_ask)
    &&& after.market_tail_of(!is_ask) == before.market_tail_of(!is_ask)
    &&& after.price_levels@ == before.price_levels@
    &&& after.links_kept(&before)
}

/// `after` is `before` with the filled market order `id` of side `is_ask` unlinked
/// from its FIFO and deleted.
pub open spec fn fifo_taken_out(
    before: OrderBookSimulator,
    after: OrderBookSimulator,
    id: U256,
    is_ask: bool,
) -> bool {
    exists|mid: OrderBookSimulator|
        {
            &&& #[trigger] unlinked_from_fifo(before, mid, before.order_at(id), is_ask)
            &&& after.orders@ == mid.orders@.remove(key_of(id))
            &&& after.price_levels@ == mid.price_levels@
            &&& after.links_kept(&mid)
            &&& after.market_ends_kept(&mid)
        }
}

/// A trade between the market order `m` of side `is_market_ask` and the resting limit
/// order `l` of the other side: the trade step on both orders and the limit order's
/// level, then each order now filled in full taken out.
pub open spec fn market_trade_done(
    before: OrderBookSimulator,
    filled: OrderBookSimulator,
    between: OrderBookSimulator,
    after: OrderBookSimulator,
    m: U256,
    l: U256,
    is_market_ask: bool,
    t: nat,
) -> bool {
    &&& trade_step(
        before,
        filled,
        set![key_of(m), key_of(l)],
        set![level_key(before.order_at(l).price_level, !is_market_ask)],
        t,
    )
    &&& if is_full(filled, m) {
        fifo_taken_out(filled, between, m, is_market_ask)
    } else {
        between == filled
    }
    &&& if is_full(between, l) {
        order_taken_out(between, after, l, !is_market_ask)
    } else {
        after == between
    }
}

/// The head order of the best level of side `is_ask`.
pub open spec fn best_order(b: OrderBookSimulator, is_ask: bool) -> U256 {
    b.level_at(b.head_of(is_ask), is_ask).head_order_id
}

/// Both orders are stored and the smaller remainder is above zero.
pub open spec fn can_trade(b: OrderBookSimulator, x: U256, y: U256) -> bool {
    &&& b.has_order(x) && b.has_order(y)
    &&& key_of(x) != key_of(y)
    &&& min_nat(remaining_view(b.order_at(x)), remaining_view(b.order_at(y))) > 0
}

/// The best bid and best ask cross and their head orders can trade.
pub open spec fn limit_cross(b: OrderBookSimulator) -> bool {
    &&& b.bid_head@ != 0 && b.ask_head@ != 0
    &&& b.has_level(b.bid_head, false) && b.has_level(b.ask_head, true)
    &&& b.level_at(b.bid_head, false).price@ >= b.level_at(b.ask_head, true).price@
    &&& best_order(b, false)@ != 0 && best_order(b, true)@ != 0
    &&& can_trade(b, best_order(b, false), best_order(b, true))
    &&& level_key(b.order_at(best_order(b, false)).price_level, false) != level_key(
        b.order_at(best_order(b, true)).price_level,
        true,
    )
}

/// One limit-against-limit trade, between the head orders of the best levels.
pub open spec fn limit_match_step(b: OrderBookSimulator, a: OrderBookSimulator) -> bool {
    let x = best_order(b, false);
    let y = best_order(b, true);
    let t = min_nat(remaining_view(b.order_at(x)), remaining_view(b.order_at(y)));
    &&& limit_cross(b)
    &&& exists|f: OrderBookSimulator, btw: OrderBookSimulator|
        #[trigger] limit_trade_done(b, f, btw, a, x, y, t)
}

/// The head of the market FIFO of side `is_market_ask` and the head order of the best
/// level of the other side can trade.
pub open spec fn market_cross(b: OrderBookSimulator, is_market_ask: bool) -> bool {
    &&& b.market_head_of(is_market_ask)@ != 0 && b.head_of(!is_market_ask)@ != 0
    &&& b.has_level(b.head_of(!is_market_ask), !is_market_ask)
    &&& best_order(b, !is_market_ask)@ != 0
    &&& can_trade(b, b.market_head_of(is_market_ask), best_order(b, !is_market_ask))
}

/// One market-against-limit trade, between the head of the FIFO and the head order of
/// the other side's best level.
pub open spec fn market_match_step(b: OrderBookSimulator, a: OrderBookSimulator, is_market_ask: bool) -> bool {
    &&& market_cross(b, is_market_ask)
    &&& market_trade_between(
        b,
        a,
        b.market_head_of(is_market_ask),
        best_order(b, !is_market_ask),
        is_market_ask,
    )
}

/// `a` is `b` after the trade of market order `m` against
/// limit order `l`.
pub open spec fn market_trade_between(
    b: OrderBookSimulator,
    a: OrderBookSimulator,
    m: U256,
    l: U256,
    is_market_ask: bool,
) -> bool {
    let t = min_nat(remaining_view(b.order_at(m)), remaining_view(b.order_at(l)));
    exists|f: OrderBookSimulator, btw: OrderBookSimulator|
        #[trigger] market_trade_done(b, f, btw, a, m, l, is_market_ask, t)
}

pub open spec fn limit_step_at(trace: Seq<OrderBookSimulator>, j: int) -> bool {
    limit_match_step(trace[j], trace[j + 1])
}

pub open spec fn market_step_at(trace: Seq<OrderBookSimulator>, j: int, is_market_ask: bool) -> bool {
    market_match_step(trace[j], trace[j + 1], is_market_ask)
}

/// `trace` runs from `b` to `a` by limit trades, at most `max` of them, and stops only
/// at the bound or where no further limit trade can start.
pub open spec fn limit_run(trace: Seq<OrderBookSimulator>, b: OrderBookSimulator, a: OrderBookSimulator, max: nat) -> bool {
    &&& 1 <= trace.len() <= max + 1
    &&& trace[0] == b && trace[trace.len() - 1] == a
    &&& forall|j: int| 0 <= j < trace.len() - 1 ==> #[trigger] limit_step_at(trace, j)
    &&& trace.len() == max + 1 || !limit_cross(a)
}

/// `trace` runs from `b` to `a` by market trades of FIFO `is_market_ask`.
pub open spec fn market_run(
    trace: Seq<OrderBookSimulator>,
    b: OrderBookSimulator,
    a: OrderBookSimulator,
    is_market_ask: bool,
) -> bool {
    &&& 1 <= trace.len()
    &&& trace[0] == b && trace[trace.len() - 1] == a
    &&& forall|j: int| 0 <= j < trace.len() - 1 ==> #[trigger] market_step_at(trace, j, is_market_ask)
}

/// The two market loops as traces from `b` to `a`, with at most `max` trades in all,
/// each loop ending at the bound or where it can trade no more.
pub open spec fn market_runs(
    t1: Seq<OrderBookSimulator>,
    t2: Seq<OrderBookSimulator>,
    b: OrderBookSimulator,
    a: OrderBookSimulator,
    max: nat,
) -> bool {
    &&& market_run(t1, b, t1[t1.len() - 1], false)
    &&& market_run(t2, t1[t1.len() - 1], a, true)
    &&& (t1.len() - 1) + (t2.len() - 1) <= max
    &&& (t1.len() - 1) + (t2.len() - 1) == max || (!market_cross(t1[t1.len() - 1], false)
        && !market_cross(a, true))
}

/// Post-insertion matching from `b` to `a`: limit trades, then market bids against the
/// best ask, then market asks against the best bid, at most `max` trades in each
/// loop, each loop ending at its bound or where it can trade no more.
pub open spec fn matched(b: OrderBookSimulator, a: OrderBookSimulator, max: nat) -> bool {
    exists|mid: OrderBookSimulator| #[trigger] matched_via(b, mid, a, max)
}

/// Matching from `b` to `a` through the state `mid` left by the limit loop.
pub open spec fn matched_via(b: OrderBookSimulator, mid: OrderBookSimulator, a: OrderBookSimulator, max: nat) -> bool {
    &&& exists|t0: Seq<OrderBookSimulator>| #[trigger] limit_run(t0, b, mid, max)
    &&& exists|t1: Seq<OrderBookSimulator>, t2: Seq<OrderBookSimulator>|
        #[trigger] market_runs(t1, t2, mid, a, max)
}

/// `v + a`, or the largest 256-bit value where that does not fit.
pub open spec fn sat_add(v: nat, a: nat) -> nat {
    if v + a < u256_bound() {
        v + a
    } else {
        (u256_bound() - 1) as nat
    }
}

/// A level at `price` with no orders and no links.
pub open spec fn fresh_level(price: U256) -> SimPriceLevel {
    SimPriceLevel {
        price,
        total_volume: zero_u256(),
        head_order_id: zero_u256(),
        tail_order_id: zero_u256(),
        next_price: zero_u256(),
        prev_price: zero_u256(),
    }
}

/// `after` is `before` with a fresh level at `(price, is_ask)` stored and spliced into
/// its side's list after the level priced `anchor`.
pub open spec fn new_level_spliced(
    before: OrderBookSimulator,
    after: OrderBookSimulator,
    price: U256,
    is_ask: bool,
    anchor: U256,
) -> bool {
    exists|pre: OrderBookSimulator|
        #[trigger] spliced_after(pre, after, price, is_ask, anchor) && pre.price_levels@
            == before.price_levels@.insert(level_key(price, is_ask), fresh_level(price))
            && pre.ask_head == before.ask_head && pre.ask_tail == before.ask_tail
            && pre.bid_head == before.bid_head && pre.bid_tail == before.bid_tail
}

/// `ins` is `before` with limit order `id` placed before matching: the level of
/// `(price, is_ask)` exists, the order is stored unfilled, appended after the level's old
/// tail, and the level's volume has risen by `amount`.
pub open spec fn limit_placed(
    before: OrderBookSimulator,
    ins: OrderBookSimulator,
    id: U256,
    price: U256,
    amount: U256,
    is_ask: bool,
) -> bool {
    let had = before.has_level(price, is_ask);
    let v0 = if had {
        before.level_at(price, is_ask).total_volume@
    } else {
        0
    };
    let ot = if had {
        before.level_at(price, is_ask).tail_order_id
    } else {
        zero_u256()
    };
    let o = ins.order_at(id);
    let lk = level_key(price, is_ask);
    let appendable = (ot@ == 0 && (!had || before.level_at(price, is_ask).head_order_id@ == 0)) || (
    ot@ != 0 && before.has_order(ot) && before.order_at(ot).next_order_id@ == 0 && key_of(ot)
        != key_of(id));
    &&& ins.has_level(price, is_ask)
    &&& ins.price_levels@.dom() == before.price_levels@.dom().insert(lk)
    &&& volumes_of(ins.price_levels@).remove(lk) == volumes_of(before.price_levels@).remove(lk)
    &&& heads_of(ins.price_levels@).remove(lk) == heads_of(before.price_levels@).remove(lk)
    &&& tails_of(ins.price_levels@).remove(lk) == tails_of(before.price_levels@).remove(lk)
    &&& ins.market_ends_kept(&before)
    &&& ins.head_of(!is_ask) == before.head_of(!is_ask) && ins.tail_of(!is_ask) == before.tail_of(
        !is_ask,
    )
    &&& had ==> ins.links_kept(&before)
    &&& !had ==> new_level_spliced(before, ins, price, is_ask, before.insert_position(price, is_ask))
    &&& had && ot@ != 0 ==> ins.level_at(price, is_ask).head_order_id == before.level_at(
        price,
        is_ask,
    ).head_order_id
    &&& appendable ==> {
        &&& olinks_of(ins.orders@) == (if ot@ != 0 {
            set_onext(olinks_of(before.orders@), key_of(ot), id)
        } else {
            olinks_of(before.orders@)
        }).insert(key_of(id), (zero_u256(), ot))
        &&& ins.level_at(price, is_ask).tail_order_id == id
    }
    &&& ins.orders@.dom() == before.orders@.dom().insert(key_of(id))
    &&& o.id == id && o.amount == amount && o.filled_amount@ == 0
    &&& !o.is_market_order && o.price_level == price
    &&& order_data_of(ins.orders@).remove(key_of(id)) == order_data_of(before.orders@).remove(
        key_of(id),
    )
    &&& ins.level_at(price, is_ask).total_volume@ == sat_add(v0, amount@)
    &&& ot@ == 0 ==> ins.level_at(price, is_ask).head_order_id == id
    &&& !had ==> ins.level_at(price, is_ask).tail_order_id == id
    &&& ot@ != 0 && key_of(ot) != key_of(id) && before.has_order(ot)
        && before.order_at(ot).next_order_id@ == 0 ==> {
        &&& o.prev_order_id == ot && o.next_order_id@ == 0
        &&& ins.order_at(ot).next_order_id == id
        &&& ins.level_at(price, is_ask).tail_order_id == id
    }
}

/// `ins` is `before` with market order `id` placed before matching: stored unfilled
/// and appended to the FIFO of side `is_ask`.
pub open spec fn market_placed(
    before: OrderBookSimulator,
    ins: OrderBookSimulator,
    id: U256,
    amount: U256,
    is_ask: bool,
) -> bool {
    let ot = before.market_tail_of(is_ask);
    let o = ins.order_at(id);
    &&& ins.links_kept(&before)
    &&& ins.market_head_of(!is_ask) == before.market_head_of(!is_ask)
    &&& ins.market_tail_of(!is_ask) == before.market_tail_of(!is_ask)
    &&& ot@ == 0 || key_of(ot) != key_of(id) ==> o.next_order_id@ == 0
    &&& ot@ == 0 ==> olinks_of(ins.orders@) == olinks_of(before.orders@).insert(
        key_of(id),
        (zero_u256(), zero_u256()),
    )
    &&& ot@ != 0 && key_of(ot) != key_of(id) && before.has_order(ot) ==> olinks_of(ins.orders@)
        == set_onext(olinks_of(before.orders@), key_of(ot), id).insert(
        key_of(id),
        (zero_u256(), ot),
    )
    &&& ins.orders@.dom() == before.orders@.dom().insert(key_of(id))
    &&& o.id == id && o.amount == amount && o.filled_amount@ == 0
    &&& o.is_market_order && o.price_level@ == 0
    &&& order_data_of(ins.orders@).remove(key_of(id)) == order_data_of(before.orders@).remove(
        key_of(id),
    )
    &&& ins.price_levels@ == before.price_levels@
    &&& ins.market_tail_of(is_ask) == id
    &&& ot@ == 0 ==> ins.market_head_of(is_ask) == id
    &&& ot@ != 0 && key_of(ot) != key_of(id) && before.has_order(ot) ==> {
        &&& o.prev_order_id == ot
        &&& ins.order_at(ot).next_order_id == id
        &&& ins.market_head_of(is_ask) == before.market_head_of(is_ask)
    }
}

/// Price `p` sits at index `i` of side `is_ask`'s list, the book's lists being `a`
/// and `b`.
pub open spec fn unlink_ready(
    book: OrderBookSimulator,
    a: Seq<U256>,
    b: Seq<U256>,
    p: U256,
    is_ask: bool,
    i: int,
) -> bool {
    let s = side_of(a, b, is_ask);
    &&& book.linked_as(a, b)
    &&& 0 <= i < s.len()
    &&& s[i] == p
    &&& link_ok(links_of(book.price_levels@), s, i, is_ask)
}

/// The price lists after taking an order out of level `p` of side `is_ask`: unchanged
/// where the level stays, the old list without `p` where it went.
pub open spec fn lists_after_take_out(
    before: OrderBookSimulator,
    after: OrderBookSimulator,
    p: U256,
    is_ask: bool,
) -> bool {
    forall|a: Seq<U256>, b: Seq<U256>|
        #[trigger] before.linked_as(a, b) ==> {
            &&& after.has_level(p, is_ask) ==> after.linked_as(a, b)
            &&& !after.has_level(p, is_ask) && before.has_level(p, is_ask) ==> exists|i: int|
                #[trigger] unlink_ready(before, a, b, p, is_ask, i) && after.linked_as(
                    if is_ask {
                        a.remove(i)
                    } else {
                        a
                    },
                    if is_ask {
                        b
                    } else {
                        b.remove(i)
                    },
                )
        }
}

/// `after` is `before` with the level of `(price, is_ask)` spliced into its side's
/// list after the level priced `anchor`, or at the head for a zero `anchor`: the new
/// level and its neighbours point at each other, and the list's ends move where it
/// stands at one.
pub open spec fn spliced_after(
    before: OrderBookSimulator,
    after: OrderBookSimulator,
    price: U256,
    is_ask: bool,
    anchor: U256,
) -> bool {
    let links0 = links_of(before.price_levels@);
    let key = level_key(price, is_ask);
    let old_head = before.head_of(is_ask);
    let ak = level_key(anchor, is_ask);
    let nxt = if links0.contains_key(ak) {
        links0[ak].1
    } else {
        zero_u256()
    };
    let new_links = links_of(after.price_levels@);
    &&& after.head_of(!is_ask) == before.head_of(!is_ask)
    &&& after.tail_of(!is_ask) == before.tail_of(!is_ask)
    &&& anchor@ == 0 ==> {
        &&& new_links == if old_head@ != 0 {
            with_next(with_prev(links0, level_key(old_head, is_ask), price), key, old_head)
        } else {
            links0
        }
        &&& after.head_of(is_ask) == price
        &&& after.tail_of(is_ask) == if old_head@ != 0 {
            before.tail_of(is_ask)
        } else {
            price
        }
    }
    &&& anchor@ != 0 ==> {
        let l2 = with_next(with_prev(with_next(links0, key, nxt), key, anchor), ak, price);
        &&& new_links == if nxt@ != 0 {
            with_prev(l2, level_key(nxt, is_ask), price)
        } else {
            l2
        }
        &&& after.head_of(is_ask) == old_head
        &&& after.tail_of(is_ask) == if nxt@ != 0 {
            before.tail_of(is_ask)
        } else {
            price
        }
    }
}

/// At most this many trades follow one insertion.
pub const MAX_MATCH_ITERATIONS: usize = 50;

impl OrderBookSimulator {
    fn level_copy(&self, key: (u128, u128)) -> (r: Option<SimPriceLevel>)
        ensures
            r == if self.price_levels@.contains_key(key) {
                Some(self.price_levels@[key])
            } else {
                None::<SimPriceLevel>
            },
    {
        match self.price_levels.get(&key) {
            Some(l) => Some(*l),
            None => None,
        }
    }

    fn order_copy(&self, id: U256) -> (r: Option<SimOrder>)
        ensures
            r == if self.has_order(id) {
                Some(self.order_at(id))
            } else {
                None::<SimOrder>
            },
    {
        match self.orders.get(&id.key()) {
            Some(o) => Some(*o),
            None => None,
        }
    }

    /// Replaces a stored level; does nothing where the key is absent.
    fn put_level_if_present(&mut self, key: (u128, u128), level: SimPriceLevel)
        ensures
            final(self).price_levels@ == if old(self).price_levels@.contains_key(key) {
                old(self).price_levels@.insert(key, level)
            } else {
                old(self).price_levels@
            },
            final(self).orders@ == old(self).orders@,
            final(self).ask_head == old(self).ask_head && final(self).bid_head == old(self).bid_head,
            final(self).ask_tail == old(self).ask_tail && final(self).bid_tail == old(self).bid_tail,
            final(self).market_ask_head == old(self).market_ask_head,
            final(self).market_bid_head == old(self).market_bid_head,
            final(self).market_ask_tail == old(self).market_ask_tail,
            final(self).market_bid_tail == old(self).market_bid_tail,
            links_of(final(self).price_levels@) == if old(self).price_levels@.contains_key(key) {
                links_of(old(self).price_levels@).insert(key, link_of(level))
            } else {
                links_of(old(self).price_levels@)
            },
            (old(self).price_levels@.contains_key(key) ==> link_of(level) == link_of(
                old(self).price_levels@[key],
            )) ==> links_of(final(self).price_levels@) == links_of(old(self).price_levels@),
            (old(self).price_levels@.contains_key(key) ==> level.head_order_id == old(
                self,
            ).price_levels@[key].head_order_id) ==> heads_of(final(self).price_levels@) == heads_of(
                old(self).price_levels@,
            ),
            volumes_of(final(self).price_levels@) == set_at(
                volumes_of(old(self).price_levels@),
                key,
                level.total_volume,
            ),
            tails_of(final(self).price_levels@) == set_at(
                tails_of(old(self).price_levels@),
                key,
                level.tail_order_id,
            ),
            heads_of(final(self).price_levels@) == if old(self).price_levels@.contains_key(key) {
                heads_of(old(self).price_levels@).insert(key, level.head_order_id)
            } else {
                heads_of(old(self).price_levels@)
            },
            (old(self).price_levels@.contains_key(key) ==> level.tail_order_id == old(
                self,
            ).price_levels@[key].tail_order_id) ==> tails_of(final(self).price_levels@) == tails_of(
                old(self).price_levels@,
            ),
    {
        if self.price_levels.contains_key(&key) {
            self.price_levels.insert(key, level);
            proof {
                assert(volumes_of(self.price_levels@) =~= volumes_of(old(self).price_levels@).insert(
                    key,
                    level.total_volume,
                ));
                assert(tails_of(self.price_levels@) =~= tails_of(old(self).price_levels@).insert(
                    key,
                    level.tail_order_id,
                ));
                assert(heads_of(self.price_levels@) =~= heads_of(old(self).price_levels@).insert(
                    key,
                    level.head_order_id,
                ));
                if level.head_order_id == old(self).price_levels@[key].head_order_id {
                    assert(heads_of(self.price_levels@) =~= heads_of(old(self).price_levels@));
                }
                if level.tail_order_id == old(self).price_levels@[key].tail_order_id {
                    assert(tails_of(self.price_levels@) =~= tails_of(old(self).price_levels@));
                }
            }
            assert(links_of(self.price_levels@) =~= links_of(old(self).price_levels@).insert(
                key,
                link_of(level),
            ));
            proof {
                if link_of(level) == link_of(old(self).price_levels@[key]) {
                    assert(links_of(self.price_levels@) =~= links_of(old(self).price_levels@));
                }
            }
        }
    }

    /// Replaces a stored order; does nothing where the id is absent.
    fn put_order_if_present(&mut self, id: U256, order: SimOrder)
        requires
            old(self).has_order(id) ==> order.price_level == old(self).order_at(id).price_level,
        ensures
            olinks_of(final(self).orders@) == set_at(
                olinks_of(old(self).orders@),
                key_of(id),
                (order.next_order_id, order.prev_order_id),
            ),
            order_data_of(final(self).orders@) == set_at(
                order_data_of(old(self).orders@),
                key_of(id),
                data_of(order),
            ),
            orders_bounded(old(self).orders@) ==> orders_bounded(final(self).orders@),
            (old(self).has_order(id) ==> order.id == old(self).order_at(id).id && order.amount
                == old(self).order_at(id).amount && order.filled_amount == old(self).order_at(
                id,
            ).filled_amount && order.is_market_order == old(self).order_at(id).is_market_order)
                ==> order_data_of(final(self).orders@) == order_data_of(old(self).orders@),
            final(self).orders@ == if old(self).has_order(id) {
                old(self).orders@.insert(key_of(id), order)
            } else {
                old(self).orders@
            },
            final(self).price_levels@ == old(self).price_levels@,
            final(self).ask_head == old(self).ask_head && final(self).bid_head == old(self).bid_head,
            final(self).ask_tail == old(self).ask_tail && final(self).bid_tail == old(self).bid_tail,
            final(self).market_ask_head == old(self).market_ask_head,
            final(self).market_bid_head == old(self).market_bid_head,
            final(self).market_ask_tail == old(self).market_ask_tail,
            final(self).market_bid_tail == old(self).market_bid_tail,
    {
        let key = id.key();
        if self.orders.contains_key(&key) {
            self.orders.insert(key, order);
            proof {
                assert(olinks_of(self.orders@) =~= olinks_of(old(self).orders@).insert(
                    key,
                    (order.next_order_id, order.prev_order_id),
                ));
                assert(order_data_of(self.orders@) =~= order_data_of(old(self).orders@).insert(
                    key,
                    data_of(order),
                ));
                let o0 = old(self).orders@[key];
                if order.id == o0.id && order.amount == o0.amount && order.filled_amount
                    == o0.filled_amount && order.is_market_order == o0.is_market_order {
                    assert(order_data_of(self.orders@) =~= order_data_of(old(self).orders@));
                }
            }
        }
    }

    fn set_side_head(&mut self, is_ask: bool, price: U256)
        ensures
            final(self).head_of(is_ask) == price,
            final(self).head_of(!is_ask) == old(self).head_of(!is_ask),
            final(self).ask_tail == old(self).ask_tail && final(self).bid_tail == old(self).bid_tail,
            final(self).market_ends_kept(old(self)),
            final(self).price_levels@ == old(self).price_levels@,
            final(self).orders@ == old(self).orders@,
    {
        if is_ask {
            self.ask_head = price;
        } else {
            self.bid_head = price;
        }
    }

    fn set_side_tail(&mut self, is_ask: bool, price: U256)
        ensures
            final(self).tail_of(is_ask) == price,
            final(self).tail_of(!is_ask) == old(self).tail_of(!is_ask),
            final(self).ask_head == old(self).ask_head && final(self).bid_head == old(self).bid_head,
            final(self).market_ends_kept(old(self)),
            final(self).price_levels@ == old(self).price_levels@,
            final(self).orders@ == old(self).orders@,
    {
        if is_ask {
            self.ask_tail = price;
        } else {
            self.bid_tail = price;
        }
    }

    /// Creates the level of `(price, is_ask)` where it is absent, spliced in after
    /// `insert_after_price` (at the head for zero).
    pub(crate) fn find_or_create_price_level(&mut self, price: U256, is_ask: bool, insert_after_price: U256)
        ensures
            !old(self).has_level(price, is_ask) ==> new_level_spliced(
                *old(self),
                *final(self),
                price,
                is_ask,
                insert_after_price,
            ),
            tails_of(final(self).price_levels@).remove(level_key(price, is_ask)) == tails_of(
                old(self).price_levels@,
            ).remove(level_key(price, is_ask)),
            final(self).tail_of(!is_ask) == old(self).tail_of(!is_ask),
            !old(self).has_level(price, is_ask) ==> final(self).level_at(price, is_ask).total_volume@
                == 0,
            volumes_of(final(self).price_levels@).remove(level_key(price, is_ask)) == volumes_of(
                old(self).price_levels@,
            ).remove(level_key(price, is_ask)),
            !old(self).has_level(price, is_ask) ==> final(self).level_at(price, is_ask).tail_order_id
                == zero_u256(),
            old(self).has_level(price, is_ask) ==> heads_of(final(self).price_levels@) == heads_of(
                old(self).price_levels@,
            ),
            !old(self).has_level(price, is_ask) ==> heads_of(final(self).price_levels@) == heads_of(
                old(self).price_levels@,
            ).insert(level_key(price, is_ask), zero_u256()),
            final(self).market_ends_kept(old(self)),
            final(self).head_of(!is_ask) == old(self).head_of(!is_ask),
            final(self).has_level(price, is_ask),
            final(self).orders@ == old(self).orders@,
            old(self).has_level(price, is_ask) ==> *final(self) == *old(self),
            final(self).price_levels@.dom() == old(self).price_levels@.dom().insert(
                level_key(price, is_ask),
            ),
            old(self).wf() && 0 < price@ < price_bound() && hint_ok(
                *old(self),
                price,
                is_ask,
                insert_after_price,
            ) ==> final(self).wf(),
    {
        let key = price_level_key(price, is_ask);
        if self.price_levels.contains_key(&key) {
            assert(self.price_levels@.dom().insert(key) =~= self.price_levels@.dom());
            return;
        }
        let new_level = SimPriceLevel {
            price,
            total_volume: U256::zero(),
            head_order_id: U256::zero(),
            tail_order_id: U256::zero(),
            next_price: U256::zero(),
            prev_price: U256::zero(),
        };
        let ghost start_state = *self;
        let ghost ready = start_state.wf() && 0 < price@ < price_bound() && hint_ok(
            start_state,
            price,
            is_ask,
            insert_after_price,
        );
        let ghost mut ga: Seq<U256> = Seq::empty();
        let ghost mut gb: Seq<U256> = Seq::empty();
        let ghost mut gk: int = 0;
        self.price_levels.insert(key, new_level);
        assert(heads_of(self.price_levels@) =~= heads_of(start_state.price_levels@).insert(key, zero_u256()));
        let ghost tails_mid = tails_of(self.price_levels@);
        assert(tails_mid[key] == zero_u256());
        proof {
            if ready {
                let (a, b) = choose|a: Seq<U256>, b: Seq<U256>| #[trigger] start_state.linked_as(a, b);
                assert(!start_state.has_level(price, is_ask));
                let k = choose|k: int|
                    #[trigger] slot_ok(side_of(a, b, is_ask), k, price, is_ask) && insert_after_price
                        == slot_hint(side_of(a, b, is_ask), k);
                assert(links_of(self.price_levels@).remove(key) =~= links_of(start_state.price_levels@));
                assert(splice_ready(*self, a, b, price, is_ask, insert_after_price, k));
                ga = a;
                gb = b;
                gk = k;
            }
        }
        let ghost vols_mid = volumes_of(self.price_levels@);
        assert(vols_mid[key] == new_level.total_volume);
        let ghost pre = *self;
        let ghost tails_pre = tails_of(self.price_levels@);
        self.insert_price_level_into_list(price, is_ask, insert_after_price);
        proof {
            assert(new_level == fresh_level(price));
            assert(spliced_after(pre, *self, price, is_ask, insert_after_price));
            assert(tails_of(self.price_levels@).remove(key) =~= tails_of(
                start_state.price_levels@,
            ).remove(key));
        }
        assert(tails_of(self.price_levels@)[key] == self.price_levels@[key].tail_order_id);
        assert(volumes_of(self.price_levels@)[key] == self.price_levels@[key].total_volume);
        proof {
            crate::u256::lemma_zero_view(new_level.total_volume);
            assert(volumes_of(self.price_levels@).remove(key) =~= volumes_of(
                start_state.price_levels@,
            ).remove(key));
        }
        proof {
            if ready {
                let na = if is_ask {
                    ga.insert(gk, price)
                } else {
                    ga
                };
                let nb = if is_ask {
                    gb
                } else {
                    gb.insert(gk, price)
                };
                assert(self.linked_as(na, nb));
            }
        }
    }

    /// Links the stored level of `(price, is_ask)` into its side's list after
    /// `insert_after_price`, or at the head for zero.
    pub(crate) fn insert_price_level_into_list(&mut self, price: U256, is_ask: bool, insert_after_price: U256)
        ensures
            spliced_after(*old(self), *final(self), price, is_ask, insert_after_price),
            volumes_of(final(self).price_levels@) == volumes_of(old(self).price_levels@),
            tails_of(final(self).price_levels@) == tails_of(old(self).price_levels@),
            heads_of(final(self).price_levels@) == heads_of(old(self).price_levels@),
            final(self).market_ends_kept(old(self)),
            final(self).head_of(!is_ask) == old(self).head_of(!is_ask),
            final(self).price_levels@.dom() == old(self).price_levels@.dom(),
            final(self).orders@ == old(self).orders@,
            forall|a: Seq<U256>, b: Seq<U256>, k: int|
                #[trigger] splice_ready(*old(self), a, b, price, is_ask, insert_after_price, k)
                    ==> final(self).linked_as(
                    if is_ask {
                        a.insert(k, price)
                    } else {
                        a
                    },
                    if is_ask {
                        b
                    } else {
                        b.insert(k, price)
                    },
                ),
    {
        let ghost links0 = links_of(self.price_levels@);
        let key = price_level_key(price, is_ask);
        let ghost old_head = old(self).head_of(is_ask);
        let ghost nxt = if links0.contains_key(level_key(insert_after_price, is_ask)) {
            links0[level_key(insert_after_price, is_ask)].1
        } else {
            zero_u256()
        };
        if insert_after_price.is_zero() {
            let old_head = if is_ask {
                self.ask_head
            } else {
                self.bid_head
            };
            if !old_head.is_zero() {
                let old_head_key = price_level_key(old_head, is_ask);
                if let Some(mut l) = self.level_copy(old_head_key) {
                    l.prev_price = price;
                    self.put_level_if_present(old_head_key, l);
                }
                if let Some(mut l) = self.level_copy(key) {
                    l.next_price = old_head;
                    self.put_level_if_present(key, l);
                }
            } else {
                self.set_side_tail(is_ask, price);
            }
            self.set_side_head(is_ask, price);
        } else {
            let after_key = price_level_key(insert_after_price, is_ask);
            let next_price = match self.level_copy(after_key) {
                Some(l) => l.next_price,
                None => U256::zero(),
            };
            if let Some(mut l) = self.level_copy(key) {
                l.prev_price = insert_after_price;
                l.next_price = next_price;
                self.put_level_if_present(key, l);
            }
            if let Some(mut l) = self.level_copy(after_key) {
                l.next_price = price;
                self.put_level_if_present(after_key, l);
            }
            if !next_price.is_zero() {
                let next_key = price_level_key(next_price, is_ask);
                if let Some(mut l) = self.level_copy(next_key) {
                    l.prev_price = price;
                    self.put_level_if_present(next_key, l);
                }
            } else {
                self.set_side_tail(is_ask, price);
            }
        }
        let ghost after_links = links_of(self.price_levels@);
        assert(insert_after_price@ == 0 ==> after_links == if old_head@ != 0 {
            with_next(with_prev(links0, level_key(old_head, is_ask), price), key, old_head)
        } else {
            links0
        });
        assert(insert_after_price@ == 0 ==> self.head_of(is_ask) == price && self.tail_of(is_ask)
            == if old_head@ != 0 {
            old(self).tail_of(is_ask)
        } else {
            price
        });
        assert(insert_after_price@ != 0 ==> {
            let ak = level_key(insert_after_price, is_ask);
            let l2 = with_next(
                with_prev(with_next(links0, key, nxt), key, insert_after_price),
                ak,
                price,
            );
            &&& after_links == if nxt@ != 0 {
                with_prev(l2, level_key(nxt, is_ask), price)
            } else {
                l2
            }
            &&& self.head_of(is_ask) == old_head
            &&& self.tail_of(is_ask) == if nxt@ != 0 {
                old(self).tail_of(is_ask)
            } else {
                price
            }
        });
        assert(self.head_of(!is_ask) == old(self).head_of(!is_ask));
        assert(self.tail_of(!is_ask) == old(self).tail_of(!is_ask));
        assert(spliced_after(*old(self), *self, price, is_ask, insert_after_price));
        proof {
            assert forall|a: Seq<U256>, b: Seq<U256>, k: int|
                #[trigger] splice_ready(
                    *old(self),
                    a,
                    b,
                    price,
                    is_ask,
                    insert_after_price,
                    k,
                ) implies self.linked_as(
                if is_ask {
                    a.insert(k, price)
                } else {
                    a
                },
                if is_ask {
                    b
                } else {
                    b.insert(k, price)
                },
            ) by {
                let s = if is_ask {
                    a
                } else {
                    b
                };
                let other = if is_ask {
                    b
                } else {
                    a
                };
                let rest = links0.remove(key);
                let oa = !is_ask;
                lemma_splice(
                    rest,
                    old(self).head_of(is_ask),
                    old(self).tail_of(is_ask),
                    s,
                    old(self).head_of(oa),
                    old(self).tail_of(oa),
                    other,
                    is_ask,
                    k,
                    price,
                );
                crate::u256::lemma_zero_view(insert_after_price);
                crate::u256::lemma_zero_view(old_head);
                crate::u256::lemma_zero_view(nxt);
                if k > 0 {
                    assert(link_ok(rest, s, k - 1, is_ask));
                }
                if k < s.len() {
                    assert(link_ok(rest, s, k, is_ask));
                }
                if s.len() > 0 {
                    assert(link_ok(rest, s, 0, is_ask));
                }
                if k == 0 {
                    if s.len() > 0 {
                        assert(old_head == s[0]);
                    }
                    assert(after_links =~= spliced_links(rest, s, k, price, is_ask));
                } else {
                    let ns = s.insert(k, price);
                    let ak = level_key(insert_after_price, is_ask);
                    assert(insert_after_price == s[k - 1]);
                    assert(ak != key);
                    assert(nxt == next_in(s, k - 1));
                    assert(crate::book_invariant::prev_in(ns, k) == s[k - 1]);
                    assert(next_in(ns, k) == next_in(s, k - 1));
                    if k < s.len() {
                        assert(nxt == s[k]);
                        if level_key(s[k], is_ask) == ak {
                            crate::book_invariant::lemma_side_index(
                                rest,
                                old(self).head_of(is_ask),
                                old(self).tail_of(is_ask),
                                s,
                                is_ask,
                                k,
                                k - 1,
                            );
                        }
                        assert(level_key(s[k], is_ask) != key);
                    }
                    assert(after_links =~= spliced_links(rest, s, k, price, is_ask));
                }
            }
        }
    }

    /// Links the stored order `order_id` into the order list of level
    /// `(price_level_id, is_ask)` after `insert_after_order` (at the head for zero),
    /// and adds its amount to the level's volume.
    fn insert_order_into_price_level(
        &mut self,
        price_level_id: U256,
        order_id: U256,
        insert_after_order: U256,
        is_ask: bool,
    )
        ensures
            heads_of(final(self).price_levels@).remove(level_key(price_level_id, is_ask)) == heads_of(
                old(self).price_levels@,
            ).remove(level_key(price_level_id, is_ask)),
            old(self).price_levels@.contains_key(level_key(price_level_id, is_ask)) && old(
                self,
            ).has_order(order_id) ==> final(self).price_levels@[level_key(
                price_level_id,
                is_ask,
            )].head_order_id == if insert_after_order@ == 0 {
                order_id
            } else {
                old(self).price_levels@[level_key(price_level_id, is_ask)].head_order_id
            },
            final(self).links_kept(old(self)),
            orders_bounded(old(self).orders@) ==> orders_bounded(final(self).orders@),
            final(self).price_levels@.dom() == old(self).price_levels@.dom(),
            final(self).orders@.dom() == old(self).orders@.dom(),
            order_data_of(final(self).orders@) == order_data_of(old(self).orders@),
            final(self).market_ends_kept(old(self)),
            old(self).has_order(order_id) ==> linked_into_level(
                *old(self),
                *final(self),
                order_id,
                insert_after_order,
                level_key(price_level_id, is_ask),
            ),
            old(self).has_order(order_id) && old(self).price_levels@.contains_key(
                level_key(price_level_id, is_ask),
            ) ==> final(self).price_levels@[level_key(price_level_id, is_ask)].total_volume@ == if old(
                self,
            ).price_levels@[level_key(price_level_id, is_ask)].total_volume@ + old(self).order_at(
                order_id,
            ).amount@ < u256_bound() {
                old(self).price_levels@[level_key(price_level_id, is_ask)].total_volume@ + old(
                    self,
                ).order_at(order_id).amount@
            } else {
                (u256_bound() - 1) as nat
            },
            volumes_of(final(self).price_levels@).remove(level_key(price_level_id, is_ask))
                == volumes_of(old(self).price_levels@).remove(level_key(price_level_id, is_ask)),
            !old(self).has_order(order_id) ==> *final(self) == *old(self),
    {
        let level_key = price_level_key(price_level_id, is_ask);
        let order_amount = match self.order_copy(order_id) {
            Some(o) => o.amount,
            None => {
                return;
            },
        };
        if insert_after_order.is_zero() {
            let old_head = match self.level_copy(level_key) {
                Some(l) => l.head_order_id,
                None => U256::zero(),
            };
            if !old_head.is_zero() {
                if let Some(mut o) = self.order_copy(old_head) {
                    o.prev_order_id = order_id;
                    self.put_order_if_present(old_head, o);
                }
                if let Some(mut o) = self.order_copy(order_id) {
                    o.next_order_id = old_head;
                    self.put_order_if_present(order_id, o);
                }
            } else {
                if let Some(mut l) = self.level_copy(level_key) {
                    l.tail_order_id = order_id;
                    self.put_level_if_present(level_key, l);
                }
            }
            if let Some(mut l) = self.level_copy(level_key) {
                l.head_order_id = order_id;
                self.put_level_if_present(level_key, l);
            }
        } else {
            let next_order_id = match self.order_copy(insert_after_order) {
                Some(o) => o.next_order_id,
                None => U256::zero(),
            };
            if let Some(mut o) = self.order_copy(order_id) {
                o.prev_order_id = insert_after_order;
                o.next_order_id = next_order_id;
                self.put_order_if_present(order_id, o);
            }
            if let Some(mut o) = self.order_copy(insert_after_order) {
                o.next_order_id = order_id;
                self.put_order_if_present(insert_after_order, o);
            }
            if !next_order_id.is_zero() {
                if let Some(mut o) = self.order_copy(next_order_id) {
                    o.prev_order_id = order_id;
                    self.put_order_if_present(next_order_id, o);
                }
            } else {
                if let Some(mut l) = self.level_copy(level_key) {
                    l.tail_order_id = order_id;
                    self.put_level_if_present(level_key, l);
                }
            }
        }
        if let Some(mut l) = self.level_copy(level_key) {
            l.total_volume = l.total_volume.saturating_add(&order_amount);
            self.put_level_if_present(level_key, l);
        }
    }

    /// Unlinks order `order_id` from the order list of level `(price_level_id, is_ask)`;
    /// the order stays in the table.
    fn remove_order_from_price_level(&mut self, price_level_id: U256, order_id: U256, is_ask: bool)
        ensures
            old(self).has_order(order_id) ==> unlinked_from_level(
                *old(self),
                *final(self),
                old(self).order_at(order_id),
                level_key(price_level_id, is_ask),
            ),
            !old(self).has_order(order_id) ==> *final(self) == *old(self),
            volumes_of(final(self).price_levels@) == volumes_of(old(self).price_levels@),
            order_data_of(final(self).orders@) == order_data_of(old(self).orders@),
            final(self).market_ends_kept(old(self)),
            heads_of(final(self).price_levels@).remove(level_key(price_level_id, is_ask)) == heads_of(
                old(self).price_levels@,
            ).remove(level_key(price_level_id, is_ask)),
            final(self).links_kept(old(self)),
            orders_bounded(old(self).orders@) ==> orders_bounded(final(self).orders@),
            final(self).price_levels@.dom() == old(self).price_levels@.dom(),
            final(self).orders@.dom() == old(self).orders@.dom(),
    {
        let (prev_id, next_id) = match self.order_copy(order_id) {
            Some(o) => (o.prev_order_id, o.next_order_id),
            None => {
                return;
            },
        };
        let level_key = price_level_key(price_level_id, is_ask);
        if !prev_id.is_zero() {
            if let Some(mut o) = self.order_copy(prev_id) {
                o.next_order_id = next_id;
                self.put_order_if_present(prev_id, o);
            }
        } else {
            if let Some(mut l) = self.level_copy(level_key) {
                l.head_order_id = next_id;
                self.put_level_if_present(level_key, l);
            }
        }
        if !next_id.is_zero() {
            if let Some(mut o) = self.order_copy(next_id) {
                o.prev_order_id = prev_id;
                self.put_order_if_present(next_id, o);
            }
        } else {
            if let Some(mut l) = self.level_copy(level_key) {
                l.tail_order_id = prev_id;
                self.put_level_if_present(level_key, l);
            }
        }
    }

    /// Unlinks the level of `(price_level_id, is_ask)` from its side's list and deletes it.
    pub(crate) fn remove_price_level(&mut self, price_level_id: U256, is_ask: bool)
        ensures
            !old(self).price_levels@.contains_key(level_key(price_level_id, is_ask)) ==> *final(self)
                == *old(self),
            heads_of(final(self).price_levels@) == heads_of(old(self).price_levels@).remove(
                level_key(price_level_id, is_ask),
            ),
            volumes_of(final(self).price_levels@) == volumes_of(old(self).price_levels@).remove(
                level_key(price_level_id, is_ask),
            ),
            tails_of(final(self).price_levels@) == tails_of(old(self).price_levels@).remove(
                level_key(price_level_id, is_ask),
            ),
            final(self).market_ends_kept(old(self)),
            final(self).price_levels@.dom() == old(self).price_levels@.dom().remove(
                level_key(price_level_id, is_ask),
            ),
            final(self).orders@ == old(self).orders@,
            old(self).wf() && price_level_id@ < price_bound() ==> final(self).wf(),
            forall|a: Seq<U256>, b: Seq<U256>, i: int|
                #[trigger] unlink_ready(*old(self), a, b, price_level_id, is_ask, i)
                    ==> final(self).linked_as(
                    if is_ask {
                        a.remove(i)
                    } else {
                        a
                    },
                    if is_ask {
                        b
                    } else {
                        b.remove(i)
                    },
                ),
    {
        let ghost links0 = links_of(self.price_levels@);
        let key = price_level_key(price_level_id, is_ask);
        let (prev_price, next_price) = match self.level_copy(key) {
            Some(l) => (l.prev_price, l.next_price),
            None => {
                return;
            },
        };
        if !prev_price.is_zero() {
            let prev_key = price_level_key(prev_price, is_ask);
            if let Some(mut l) = self.level_copy(prev_key) {
                l.next_price = next_price;
                self.put_level_if_present(prev_key, l);
            }
        } else {
            self.set_side_head(is_ask, next_price);
        }
        let ghost pk = level_key(prev_price, is_ask);
        let ghost links_a = links_of(self.price_levels@);
        assert(links_a == if prev_price@ != 0 && links0.contains_key(pk) {
            links0.insert(pk, (links0[pk].0, next_price, links0[pk].2))
        } else {
            links0
        });
        assert(self.head_of(is_ask) == if prev_price@ == 0 {
            next_price
        } else {
            old(self).head_of(is_ask)
        });
        if !next_price.is_zero() {
            let next_key = price_level_key(next_price, is_ask);
            if let Some(mut l) = self.level_copy(next_key) {
                l.prev_price = prev_price;
                self.put_level_if_present(next_key, l);
            }
        } else {
            self.set_side_tail(is_ask, prev_price);
        }
        let ghost nk = level_key(next_price, is_ask);
        let ghost links1 = links_of(self.price_levels@);
        assert(links1 == if next_price@ != 0 && links_a.contains_key(nk) {
            links_a.insert(nk, (links_a[nk].0, links_a[nk].1, prev_price))
        } else {
            links_a
        });
        assert(self.tail_of(is_ask) == if next_price@ == 0 {
            prev_price
        } else {
            old(self).tail_of(is_ask)
        });
        assert(self.head_of(!is_ask) == old(self).head_of(!is_ask));
        assert(self.tail_of(!is_ask) == old(self).tail_of(!is_ask));
        self.price_levels.remove(&key);
        proof {
            assert(links_of(self.price_levels@) =~= links1.remove(key));
            assert forall|a: Seq<U256>, b: Seq<U256>, i: int|
                #[trigger] unlink_ready(*old(self), a, b, price_level_id, is_ask, i) implies self.linked_as(
                if is_ask {
                    a.remove(i)
                } else {
                    a
                },
                if is_ask {
                    b
                } else {
                    b.remove(i)
                },
            ) by {
                let s = if is_ask {
                    a
                } else {
                    b
                };
                let other = if is_ask {
                    b
                } else {
                    a
                };
                assert(crate::book_invariant::link_ok(links0, s, i, is_ask));
                assert(key == level_key(s[i], is_ask));
                assert(prev_price == crate::book_invariant::prev_in(s, i));
                assert(next_price == crate::book_invariant::next_in(s, i));
                crate::u256::lemma_zero_view(prev_price);
                crate::u256::lemma_zero_view(next_price);
                if i > 0 {
                    assert(crate::book_invariant::link_ok(links0, s, i - 1, is_ask));
                    assert(prev_price@ != 0);
                    assert(pk == level_key(s[i - 1], is_ask));
                } else {
                    assert(prev_price@ == 0);
                }
                if i + 1 < s.len() {
                    assert(crate::book_invariant::link_ok(links0, s, i + 1, is_ask));
                    assert(next_price@ != 0);
                    assert(nk == level_key(s[i + 1], is_ask));
                    if i > 0 {
                        if nk == pk {
                            crate::book_invariant::lemma_side_index(
                                links0,
                                old(self).head_of(is_ask),
                                old(self).tail_of(is_ask),
                                s,
                                is_ask,
                                i + 1,
                                i - 1,
                            );
                        }
                    }
                } else {
                    assert(next_price@ == 0);
                }
                lemma_unlink(
                    links0,
                    old(self).head_of(is_ask),
                    old(self).tail_of(is_ask),
                    s,
                    old(self).head_of(!is_ask),
                    old(self).tail_of(!is_ask),
                    other,
                    is_ask,
                    i,
                );
                assert(links_of(self.price_levels@) =~= unlinked_links(links0, s, i, is_ask));
                if is_ask {
                    assert(self.linked_as(s.remove(i), b));
                } else {
                    assert(self.linked_as(a, s.remove(i)));
                }
            }
            if old(self).wf() && price_level_id@ < price_bound() {
                let (a, b) = choose|a: Seq<U256>, b: Seq<U256>| #[trigger] old(self).linked_as(a, b);
                let i = lemma_locate(*old(self), a, b, price_level_id, is_ask);
                let s = if is_ask {
                    a
                } else {
                    b
                };
                assert(crate::book_invariant::link_ok(links0, s, i, is_ask));
                assert(unlink_ready(*old(self), a, b, price_level_id, is_ask, i));
            }
        }
    }

    /// Takes order `order_id` out of its level, deletes the level where it is left
    /// empty, and deletes the order.
    fn remove_filled_order(&mut self, order_id: U256, is_ask: bool)
        ensures
            old(self).levels_occupied() ==> final(self).levels_occupied(),
            final(self).orders@.dom() == old(self).orders@.dom().remove(key_of(order_id)),
            old(self).wf() ==> final(self).wf(),
            old(self).has_order(order_id) ==> order_taken_out(*old(self), *final(self), order_id, is_ask),
            !old(self).has_order(order_id) ==> *final(self) == *old(self),
            final(self).market_ends_kept(old(self)),
            old(self).has_order(order_id) && old(self).order_at(order_id).price_level@ < price_bound()
                ==> lists_after_take_out(
                *old(self),
                *final(self),
                old(self).order_at(order_id).price_level,
                is_ask,
            ),
    {
        let (price_level_id, remaining) = match self.order_copy(order_id) {
            Some(o) => (o.price_level, Self::remaining_of(&o)),
            None => {
                return;
            },
        };
        let ghost start_state = *self;
        let level_key = price_level_key(price_level_id, is_ask);
        self.reduce_level_volume(level_key, remaining);
        let ghost reduced = *self;
        self.remove_order_from_price_level(price_level_id, order_id, is_ask);
        let ghost unlinked = *self;
        proof {
            if start_state.wf() {
                lemma_links_kept_wf(start_state, *self);
                assert(price_level_id@ < price_bound());
            }
        }
        let should_remove_level = match self.level_copy(level_key) {
            Some(l) => l.head_order_id.is_zero(),
            None => false,
        };
        if should_remove_level {
            self.remove_price_level(price_level_id, is_ask);
        }
        let ghost after_level = *self;
        proof {
            if start_state.levels_occupied() {
                let key = crate::u256::level_key(price_level_id, is_ask);
                assert(heads_of(self.price_levels@).remove(key) =~= heads_of(start_state.price_levels@).remove(
                    key,
                ));
                lemma_occupied_heads(start_state.price_levels@, self.price_levels@, key);
            }
        }
        let ghost mid_state = *self;
        self.orders.remove(&order_id.key());
        proof {
            if mid_state.wf() {
                assert(orders_bounded(self.orders@));
                lemma_links_kept_wf(mid_state, *self);
            }
            let lk = crate::u256::level_key(price_level_id, is_ask);
            assert(order_data_of(self.orders@) =~= order_data_of(start_state.orders@).remove(
                key_of(order_id),
            ));
            assert(olinks_of(self.orders@) =~= olinks_of(unlinked.orders@).remove(key_of(order_id)));
            assert(volumes_of(self.price_levels@).remove(lk) =~= volumes_of(start_state.price_levels@).remove(lk));
            assert(unlinked_from_level(reduced, unlinked, start_state.order_at(order_id), lk));
            assert(heads_of(reduced.price_levels@) == heads_of(start_state.price_levels@));
            assert(tails_of(reduced.price_levels@) == tails_of(start_state.price_levels@));
            assert(olinks_of(reduced.orders@) == olinks_of(start_state.orders@));
            assert(unlinked_from_level(start_state, unlinked, start_state.order_at(order_id), lk));
            if price_level_id@ < price_bound() {
                assert forall|a: Seq<U256>, b: Seq<U256>| #[trigger] start_state.linked_as(a, b) implies {
                    &&& self.has_level(price_level_id, is_ask) ==> self.linked_as(a, b)
                    &&& !self.has_level(price_level_id, is_ask) && start_state.has_level(
                        price_level_id,
                        is_ask,
                    ) ==> exists|i: int|
                        #[trigger] unlink_ready(start_state, a, b, price_level_id, is_ask, i)
                            && self.linked_as(
                            if is_ask {
                                a.remove(i)
                            } else {
                                a
                            },
                            if is_ask {
                                b
                            } else {
                                b.remove(i)
                            },
                        )
                } by {
                    assert(unlinked.linked_as(a, b));
                    if !self.has_level(price_level_id, is_ask) && start_state.has_level(
                        price_level_id,
                        is_ask,
                    ) {
                        let i = lemma_locate(unlinked, a, b, price_level_id, is_ask);
                        let sd = side_of(a, b, is_ask);
                        assert(link_ok(links_of(unlinked.price_levels@), sd, i, is_ask));
                        assert(unlink_ready(unlinked, a, b, price_level_id, is_ask, i));
                        assert(unlink_ready(start_state, a, b, price_level_id, is_ask, i));
                    }
                }
            }
            let o = start_state.order_at(order_id);
            let lv = start_state.price_levels@;
            let new_head = if o.prev_order_id@ == 0 {
                o.next_order_id
            } else {
                lv[lk].head_order_id
            };
            if lv.contains_key(lk) {
                assert(heads_of(unlinked.price_levels@)[lk] == new_head);
                assert(unlinked.price_levels@[lk].head_order_id == new_head);
                crate::u256::lemma_zero_view(new_head);
            }
            assert(self.price_levels@.contains_key(lk) == (lv.contains_key(lk) && new_head@ != 0));
            if self.price_levels@.contains_key(lk) {
                assert(self.price_levels@[lk] == unlinked.price_levels@[lk]);
                assert(volumes_of(unlinked.price_levels@)[lk] == volumes_of(reduced.price_levels@)[lk]);
                assert(tails_of(unlinked.price_levels@)[lk] == unlinked.price_levels@[lk].tail_order_id);
                assert(tails_of(reduced.price_levels@)[lk] == reduced.price_levels@[lk].tail_order_id);
            }
            assert(heads_of(self.price_levels@).remove(lk) =~= heads_of(lv).remove(lk));
            assert(tails_of(self.price_levels@).remove(lk) =~= tails_of(lv).remove(lk));
        }
    }

    /// Cancels order `order_id`: unlinks it, deletes its level where that is left empty,
    /// and deletes it. False, with nothing changed, where the id is unknown.
    pub fn simulate_remove_order(&mut self, order_id: U256, is_ask: bool) -> (r: bool)
        ensures
            old(self).levels_occupied() ==> final(self).levels_occupied(),
            r == old(self).has_order(order_id),
            r ==> final(self).orders@.dom() == old(self).orders@.dom().remove(key_of(order_id)),
            !r ==> *final(self) == *old(self),
            old(self).wf() ==> final(self).wf(),
            r ==> order_taken_out(*old(self), *final(self), order_id, is_ask),
            r && old(self).order_at(order_id).price_level@ < price_bound() ==> lists_after_take_out(
                *old(self),
                *final(self),
                old(self).order_at(order_id).price_level,
                is_ask,
            ),
    {
        if !self.orders.contains_key(&order_id.key()) {
            return false;
        }
        self.remove_filled_order(order_id, is_ask);
        true
    }
}


impl OrderBookSimulator {
    /// Places a limit order as the chain does: computes the hint against the current
    /// state, creates the level where absent, appends the order at the level's tail,
    /// then runs post-insertion matching. Returns the hint.
    pub fn simulate_insert_order(&mut self, order_id: U256, price: U256, amount: U256, is_ask: bool) -> (r: U256)
        ensures
            old(self).levels_occupied() && order_id@ != 0 ==> final(self).levels_occupied(),
            r == old(self).insert_position(price, is_ask),
            r@ == 0 || old(self).has_level(r, is_ask),
            hint_ok(*old(self), price, is_ask, r),
            old(self).wf() && 0 < price@ < price_bound() ==> final(self).wf(),
            old(self).head_of(!is_ask)@ == 0 && old(self).market_head_of(!is_ask)@ == 0 ==> {
                &&& final(self).has_level(price, is_ask)
                &&& final(self).has_order(order_id)
                &&& final(self).order_at(order_id).amount == amount
                &&& final(self).order_at(order_id).filled_amount@ == 0
                &&& final(self).order_at(order_id).price_level == price
                &&& !final(self).order_at(order_id).is_market_order
            },
            exists|ins: OrderBookSimulator|
                #[trigger] limit_placed(*old(self), ins, order_id, price, amount, is_ask) && matched(
                    ins,
                    *final(self),
                    MAX_MATCH_ITERATIONS as nat,
                ),
    {
        let insert_after_price = self.find_insert_position(price, is_ask);
        self.find_or_create_price_level(price, is_ask, insert_after_price);
        let ghost mid_state = *self;
        let order = SimOrder {
            id: order_id,
            amount,
            filled_amount: U256::zero(),
            is_market_order: false,
            price_level: price,
            next_order_id: U256::zero(),
            prev_order_id: U256::zero(),
        };
        self.orders.insert(order_id.key(), order);
        proof {
            if mid_state.wf() && price@ < price_bound() {
                assert(orders_bounded(self.orders@));
                lemma_links_kept_wf(mid_state, *self);
            }
        }
        let tail = match self.level_copy(price_level_key(price, is_ask)) {
            Some(l) => l.tail_order_id,
            None => U256::zero(),
        };
        let ghost linked_state = *self;
        self.insert_order_into_price_level(price, order_id, tail, is_ask);
        proof {
            if linked_state.wf() {
                lemma_links_kept_wf(linked_state, *self);
            }
            if old(self).levels_occupied() && order_id@ != 0 {
                let key = level_key(price, is_ask);
                assert(occupied_but(linked_state.price_levels@, key)) by {
                    assert forall|k: (u128, u128)| #[trigger]
                        linked_state.price_levels@.contains_key(k) && k != key implies linked_state.price_levels@[k].head_order_id@
                        != 0 by {
                        assert(heads_of(linked_state.price_levels@)[k] == linked_state.price_levels@[k].head_order_id);
                        assert(old(self).price_levels@.contains_key(k));
                        assert(heads_of(old(self).price_levels@)[k]
                            == old(self).price_levels@[k].head_order_id);
                    }
                }
                lemma_occupied_heads(linked_state.price_levels@, self.price_levels@, key);
            }
            let k = key_of(order_id);
            assert(order_data_of(self.orders@)[k] == order_data_of(linked_state.orders@)[k]);
            crate::u256::lemma_zero_view(zero_u256());
            crate::u256::lemma_zero_view(tail);
            let lk = level_key(price, is_ask);
            assert(order_data_of(linked_state.orders@).remove(k) =~= order_data_of(
                mid_state.orders@,
            ).remove(k));
            assert(volumes_of(self.price_levels@)[lk] == self.price_levels@[lk].total_volume);
            assert(heads_of(self.price_levels@)[lk] == self.price_levels@[lk].head_order_id);
            assert(tails_of(self.price_levels@)[lk] == self.price_levels@[lk].tail_order_id);
            assert(tails_of(linked_state.price_levels@)[lk] == linked_state.price_levels@[lk].tail_order_id);
            assert(heads_of(linked_state.price_levels@)[lk] == linked_state.price_levels@[lk].head_order_id);
            if tail@ != 0 && key_of(tail) != k && old(self).has_order(tail) {
                assert(olinks_of(linked_state.orders@)[key_of(tail)] == olinks_of(
                    old(self).orders@,
                )[key_of(tail)]);
                assert(olinks_of(self.orders@)[key_of(tail)] == (
                    self.orders@[key_of(tail)].next_order_id,
                    self.orders@[key_of(tail)].prev_order_id,
                ));
                assert(olinks_of(self.orders@)[k] == (
                    self.orders@[k].next_order_id,
                    self.orders@[k].prev_order_id,
                ));
            }
            let before = *old(self);
            let had = before.has_level(price, is_ask);
            let ot = if had {
                before.level_at(price, is_ask).tail_order_id
            } else {
                zero_u256()
            };
            assert(tail == ot);
            assert(olinks_of(linked_state.orders@) =~= olinks_of(mid_state.orders@).insert(
                k,
                (zero_u256(), zero_u256()),
            ));
            assert(volumes_of(self.price_levels@).remove(lk) =~= volumes_of(
                before.price_levels@,
            ).remove(lk));
            assert(heads_of(self.price_levels@).remove(lk) =~= heads_of(
                before.price_levels@,
            ).remove(lk));
            assert(tails_of(self.price_levels@).remove(lk) =~= tails_of(
                before.price_levels@,
            ).remove(lk));
            if !had {
                let pre = choose|pre: OrderBookSimulator|
                    #[trigger] spliced_after(pre, mid_state, price, is_ask, insert_after_price)
                        && pre.price_levels@ == before.price_levels@.insert(lk, fresh_level(price))
                        && pre.ask_head == before.ask_head && pre.ask_tail == before.ask_tail
                        && pre.bid_head == before.bid_head && pre.bid_tail == before.bid_tail;
                assert(spliced_after(pre, *self, price, is_ask, insert_after_price));
            }
            let appendable = (ot@ == 0 && (!had || before.level_at(price, is_ask).head_order_id@
                == 0)) || (ot@ != 0 && before.has_order(ot) && before.order_at(ot).next_order_id@
                == 0 && key_of(ot) != k);
            if had && ot@ != 0 {
                assert(heads_of(linked_state.price_levels@)[lk] == heads_of(before.price_levels@)[lk]);
            }
            if appendable {
                if ot@ != 0 {
                    assert(olinks_of(linked_state.orders@)[key_of(ot)] == olinks_of(
                        before.orders@,
                    )[key_of(ot)]);
                    assert(olinks_of(self.orders@) =~= set_onext(
                        olinks_of(before.orders@),
                        key_of(ot),
                        order_id,
                    ).insert(k, (zero_u256(), ot)));
                } else {
                    assert(heads_of(linked_state.price_levels@)[lk] == zero_u256());
                    assert(olinks_of(self.orders@) =~= olinks_of(before.orders@).insert(
                        k,
                        (zero_u256(), ot),
                    ));
                }
            }
            assert(limit_placed(*old(self), *self, order_id, price, amount, is_ask));
        }
        let ghost ins = *self;
        self.try_match_after_insertion();
        assert(limit_placed(*old(self), ins, order_id, price, amount, is_ask));
        insert_after_price
    }

    /// Places a market order at the tail of its side's FIFO, then runs post-insertion
    /// matching.
    pub fn simulate_insert_market_order(&mut self, order_id: U256, amount: U256, is_ask: bool)
        ensures
            old(self).levels_occupied() ==> final(self).levels_occupied(),
            old(self).wf() ==> final(self).wf(),
            old(self).head_of(!is_ask)@ == 0 && old(self).market_head_of(!is_ask)@ == 0 ==> {
                &&& final(self).has_order(order_id)
                &&& final(self).order_at(order_id).amount == amount
                &&& final(self).order_at(order_id).filled_amount@ == 0
                &&& final(self).order_at(order_id).price_level@ == 0
                &&& final(self).order_at(order_id).is_market_order
                &&& final(self).market_tail_of(is_ask) == order_id
            },
            exists|ins: OrderBookSimulator|
                #[trigger] market_placed(*old(self), ins, order_id, amount, is_ask) && matched(
                    ins,
                    *final(self),
                    MAX_MATCH_ITERATIONS as nat,
                ),
    {
        let ghost start_state = *self;
        let order = SimOrder {
            id: order_id,
            amount,
            filled_amount: U256::zero(),
            is_market_order: true,
            price_level: U256::zero(),
            next_order_id: U256::zero(),
            prev_order_id: U256::zero(),
        };
        self.orders.insert(order_id.key(), order);
        proof {
            if start_state.wf() {
                assert(orders_bounded(self.orders@));
                lemma_links_kept_wf(start_state, *self);
            }
        }
        let ghost mid_state = *self;
        self.insert_market_order_at_tail(order_id, is_ask);
        proof {
            if mid_state.wf() {
                lemma_links_kept_wf(mid_state, *self);
            }
            let k = key_of(order_id);
            assert(order_data_of(self.orders@)[k] == order_data_of(mid_state.orders@)[k]);
            crate::u256::lemma_zero_view(zero_u256());
            assert(order_data_of(mid_state.orders@).remove(k) =~= order_data_of(
                start_state.orders@,
            ).remove(k));
            let ot = start_state.market_tail_of(is_ask);
            assert(olinks_of(mid_state.orders@) =~= olinks_of(start_state.orders@).insert(
                k,
                (zero_u256(), zero_u256()),
            ));
            if ot@ != 0 && key_of(ot) != k && start_state.has_order(ot) {
                assert(olinks_of(self.orders@) =~= set_onext(
                    olinks_of(start_state.orders@),
                    key_of(ot),
                    order_id,
                ).insert(k, (zero_u256(), ot)));
                assert(olinks_of(mid_state.orders@)[key_of(ot)] == olinks_of(
                    start_state.orders@,
                )[key_of(ot)]);
                assert(olinks_of(self.orders@)[key_of(ot)] == (
                    self.orders@[key_of(ot)].next_order_id,
                    self.orders@[key_of(ot)].prev_order_id,
                ));
                assert(olinks_of(self.orders@)[k] == (
                    self.orders@[k].next_order_id,
                    self.orders@[k].prev_order_id,
                ));
            }
            if ot@ == 0 || key_of(ot) != k {
                assert(olinks_of(self.orders@)[k] == (
                    self.orders@[k].next_order_id,
                    self.orders@[k].prev_order_id,
                ));
                if ot@ != 0 {
                    assert(olinks_of(self.orders@)[k] == set_oprev(
                        set_onext(olinks_of(mid_state.orders@), key_of(ot), order_id),
                        k,
                        ot,
                    )[k]);
                }
            }
            assert(market_placed(start_state, *self, order_id, amount, is_ask));
        }
        let ghost ins = *self;
        self.try_match_after_insertion();
        assert(market_placed(*old(self), ins, order_id, amount, is_ask));
    }

    fn set_market_head(&mut self, is_ask: bool, id: U256)
        ensures
            final(self).links_kept(old(self)),
            orders_bounded(old(self).orders@) ==> orders_bounded(final(self).orders@),
            final(self).market_head_of(is_ask) == id,
            final(self).market_head_of(!is_ask) == old(self).market_head_of(!is_ask),
            final(self).market_tail_of(is_ask) == old(self).market_tail_of(is_ask),
            final(self).market_tail_of(!is_ask) == old(self).market_tail_of(!is_ask),
            final(self).price_levels@ == old(self).price_levels@,
            final(self).orders@ == old(self).orders@,
    {
        if is_ask {
            self.market_ask_head = id;
        } else {
            self.market_bid_head = id;
        }
    }

    fn set_market_tail(&mut self, is_ask: bool, id: U256)
        ensures
            final(self).links_kept(old(self)),
            orders_bounded(old(self).orders@) ==> orders_bounded(final(self).orders@),
            final(self).market_tail_of(is_ask) == id,
            final(self).market_tail_of(!is_ask) == old(self).market_tail_of(!is_ask),
            final(self).market_head_of(is_ask) == old(self).market_head_of(is_ask),
            final(self).market_head_of(!is_ask) == old(self).market_head_of(!is_ask),
            final(self).price_levels@ == old(self).price_levels@,
            final(self).orders@ == old(self).orders@,
    {
        if is_ask {
            self.market_ask_tail = id;
        } else {
            self.market_bid_tail = id;
        }
    }

    /// Appends the stored order `order_id` to its side's market FIFO.
    fn insert_market_order_at_tail(&mut self, order_id: U256, is_ask: bool)
        ensures
            final(self).links_kept(old(self)),
            orders_bounded(old(self).orders@) ==> orders_bounded(final(self).orders@),
            final(self).orders@.dom() == old(self).orders@.dom(),
            final(self).price_levels@ == old(self).price_levels@,
            order_data_of(final(self).orders@) == order_data_of(old(self).orders@),
            final(self).market_tail_of(is_ask) == order_id,
            final(self).market_head_of(!is_ask) == old(self).market_head_of(!is_ask),
            final(self).market_tail_of(!is_ask) == old(self).market_tail_of(!is_ask),
            old(self).market_tail_of(is_ask)@ == 0 ==> {
                &&& final(self).market_head_of(is_ask) == order_id
                &&& olinks_of(final(self).orders@) == olinks_of(old(self).orders@)
            },
            old(self).market_tail_of(is_ask)@ != 0 ==> {
                let ot = old(self).market_tail_of(is_ask);
                &&& final(self).market_head_of(is_ask) == old(self).market_head_of(is_ask)
                &&& olinks_of(final(self).orders@) == set_oprev(
                    set_onext(olinks_of(old(self).orders@), key_of(ot), order_id),
                    key_of(order_id),
                    ot,
                )
            },
    {
        let old_tail = if is_ask {
            self.market_ask_tail
        } else {
            self.market_bid_tail
        };
        if old_tail.is_zero() {
            self.set_market_head(is_ask, order_id);
            self.set_market_tail(is_ask, order_id);
        } else {
            if let Some(mut o) = self.order_copy(old_tail) {
                o.next_order_id = order_id;
                self.put_order_if_present(old_tail, o);
            }
            if let Some(mut o) = self.order_copy(order_id) {
                o.prev_order_id = old_tail;
                self.put_order_if_present(order_id, o);
            }
            self.set_market_tail(is_ask, order_id);
        }
    }

    /// Unlinks order `order_id` from its side's market FIFO; the order stays in the table.
    pub(crate) fn remove_market_order_from_list(&mut self, order_id: U256, is_ask: bool)
        ensures
            old(self).has_order(order_id) ==> unlinked_from_fifo(
                *old(self),
                *final(self),
                old(self).order_at(order_id),
                is_ask,
            ),
            !old(self).has_order(order_id) ==> *final(self) == *old(self),
            final(self).links_kept(old(self)),
            orders_bounded(old(self).orders@) ==> orders_bounded(final(self).orders@),
            final(self).orders@.dom() == old(self).orders@.dom(),
            final(self).price_levels@ == old(self).price_levels@,
    {
        let (prev_id, next_id) = match self.order_copy(order_id) {
            Some(o) => (o.prev_order_id, o.next_order_id),
            None => {
                return;
            },
        };
        let ghost ol0 = olinks_of(self.orders@);
        let ghost o0 = old(self).order_at(order_id);
        if !prev_id.is_zero() {
            if let Some(mut o) = self.order_copy(prev_id) {
                o.next_order_id = next_id;
                self.put_order_if_present(prev_id, o);
            }
        } else {
            self.set_market_head(is_ask, next_id);
        }
        let ghost ol1 = olinks_of(self.orders@);
        assert(ol1 == if o0.prev_order_id@ != 0 {
            set_onext(ol0, key_of(o0.prev_order_id), o0.next_order_id)
        } else {
            ol0
        });
        assert(order_data_of(self.orders@) == order_data_of(old(self).orders@));
        if !next_id.is_zero() {
            if let Some(mut o) = self.order_copy(next_id) {
                o.prev_order_id = prev_id;
                self.put_order_if_present(next_id, o);
            }
        } else {
            self.set_market_tail(is_ask, prev_id);
        }
        assert(olinks_of(self.orders@) == if o0.next_order_id@ != 0 {
            set_oprev(ol1, key_of(o0.next_order_id), o0.prev_order_id)
        } else {
            ol1
        });
        proof {
            crate::u256::lemma_zero_view(prev_id);
            crate::u256::lemma_zero_view(next_id);
            assert(olinks_of(self.orders@) == olinks_without(ol0, o0));
            assert(order_data_of(self.orders@) == order_data_of(old(self).orders@));
            assert(self.market_head_of(is_ask) == if o0.prev_order_id@ == 0 {
                o0.next_order_id
            } else {
                old(self).market_head_of(is_ask)
            });
            assert(self.market_tail_of(is_ask) == if o0.next_order_id@ == 0 {
                o0.prev_order_id
            } else {
                old(self).market_tail_of(is_ask)
            });
            assert(self.market_head_of(!is_ask) == old(self).market_head_of(!is_ask));
            assert(self.market_tail_of(!is_ask) == old(self).market_tail_of(!is_ask));
            assert(self.orders@.dom() == old(self).orders@.dom());
            assert(self.price_levels@ == old(self).price_levels@);
            assert(self.links_kept(old(self)));
            assert(ol0 == olinks_of(old(self).orders@));
        }
    }

    fn try_match_after_insertion(&mut self)
        ensures
            matched(*old(self), *final(self), MAX_MATCH_ITERATIONS as nat),
            old(self).levels_occupied() ==> final(self).levels_occupied(),
            old(self).wf() ==> final(self).wf(),
            old(self).quiet() ==> *final(self) == *old(self),
    {
        self.match_orders_internal(MAX_MATCH_ITERATIONS);
        let ghost mid = *self;
        self.match_market_orders_internal(MAX_MATCH_ITERATIONS);
        assert(matched_via(*old(self), mid, *self, MAX_MATCH_ITERATIONS as nat));
    }

    /// Crosses the best bid against the best ask while the bid price reaches the ask
    /// price, at most `max_iterations` times.
    fn match_orders_internal(&mut self, max_iterations: usize)
        ensures
            old(self).levels_occupied() ==> final(self).levels_occupied(),
            old(self).wf() ==> final(self).wf(),
            old(self).quiet() ==> *final(self) == *old(self),
            exists|trace: Seq<OrderBookSimulator>|
                #[trigger] limit_run(trace, *old(self), *final(self), max_iterations as nat),
    {
        let mut i: usize = 0;
        let ghost mut trace: Seq<OrderBookSimulator> = seq![*self];
        while i < max_iterations
            invariant
                old(self).wf() ==> self.wf(),
                old(self).quiet() ==> *self == *old(self),
                old(self).levels_occupied() ==> self.levels_occupied(),
                i <= max_iterations,
                trace.len() == i + 1,
                trace[0] == *old(self),
                trace[i as int] == *self,
                forall|j: int| 0 <= j < trace.len() - 1 ==> #[trigger] limit_step_at(trace, j),
            ensures
                old(self).wf() ==> self.wf(),
                old(self).quiet() ==> *self == *old(self),
                old(self).levels_occupied() ==> self.levels_occupied(),
                i <= max_iterations,
                trace.len() == i + 1,
                trace[0] == *old(self),
                trace[i as int] == *self,
                forall|j: int| 0 <= j < trace.len() - 1 ==> #[trigger] limit_step_at(trace, j),
                i == max_iterations || !limit_cross(*self),
            decreases max_iterations - i,
        {
            let ghost before = *self;
            let bid_price = self.bid_head;
            let ask_price = self.ask_head;
            if bid_price.is_zero() || ask_price.is_zero() {
                break;
            }
            let (bid_level_price, bid_head_order) = match self.level_copy(
                price_level_key(bid_price, false),
            ) {
                Some(l) => (l.price, l.head_order_id),
                None => {
                    break;
                },
            };
            let (ask_level_price, ask_head_order) = match self.level_copy(
                price_level_key(ask_price, true),
            ) {
                Some(l) => (l.price, l.head_order_id),
                None => {
                    break;
                },
            };
            if bid_level_price.lt(&ask_level_price) {
                break;
            }
            if bid_head_order.is_zero() || ask_head_order.is_zero() {
                break;
            }
            if !self.execute_trade(bid_head_order, ask_head_order) {
                break;
            }
            proof {
                assert(limit_match_step(before, *self));
                let old_trace = trace;
                trace = trace.push(*self);
                assert forall|j: int| 0 <= j < trace.len() - 1 implies #[trigger] limit_step_at(
                    trace,
                    j,
                ) by {
                    if j < old_trace.len() - 1 {
                        assert(limit_step_at(old_trace, j));
                    }
                }
            }
            i = i + 1;
        }
        proof {
            assert(limit_run(trace, *old(self), *self, max_iterations as nat));
        }
    }

    /// What is left to fill of an order: `amount - filled`, zero where nothing is.
    fn remaining_of(o: &SimOrder) -> (r: U256)
        ensures
            r@ == if o.filled_amount@ <= o.amount@ { o.amount@ - o.filled_amount@ } else { 0 },
    {
        o.amount.saturating_sub(&o.filled_amount)
    }

    /// Fills `trade` more of a stored order.
    fn fill_order(&mut self, id: U256, trade: U256)
        ensures
            final(self).links_kept(old(self)),
            orders_bounded(old(self).orders@) ==> orders_bounded(final(self).orders@),
            final(self).orders@.dom() == old(self).orders@.dom(),
            final(self).price_levels@ == old(self).price_levels@,
            olinks_of(final(self).orders@) == olinks_of(old(self).orders@),
            final(self).market_ends_kept(old(self)),
            order_data_of(final(self).orders@).remove(key_of(id)) == order_data_of(
                old(self).orders@,
            ).remove(key_of(id)),
            old(self).has_order(id) ==> {
                let o = old(self).order_at(id);
                let n = final(self).order_at(id);
                &&& n.id == o.id && n.amount == o.amount && n.price_level == o.price_level
                &&& n.is_market_order == o.is_market_order
                &&& n.filled_amount@ == if o.filled_amount@ + trade@ < u256_bound() {
                    o.filled_amount@ + trade@
                } else {
                    (u256_bound() - 1) as nat
                }
            },
    {
        if let Some(mut o) = self.order_copy(id) {
            o.filled_amount = o.filled_amount.saturating_add(&trade);
            self.put_order_if_present(id, o);
        }
    }

    /// Takes `trade` off the volume of a stored level, stopping at zero.
    fn reduce_level_volume(&mut self, key: (u128, u128), trade: U256)
        ensures
            heads_of(final(self).price_levels@) == heads_of(old(self).price_levels@),
            final(self).links_kept(old(self)),
            orders_bounded(old(self).orders@) ==> orders_bounded(final(self).orders@),
            final(self).price_levels@.dom() == old(self).price_levels@.dom(),
            final(self).orders@ == old(self).orders@,
            tails_of(final(self).price_levels@) == tails_of(old(self).price_levels@),
            final(self).market_ends_kept(old(self)),
            volumes_of(final(self).price_levels@).remove(key) == volumes_of(
                old(self).price_levels@,
            ).remove(key),
            old(self).price_levels@.contains_key(key) ==> final(self).price_levels@[key].total_volume@
                == if trade@ <= old(self).price_levels@[key].total_volume@ {
                old(self).price_levels@[key].total_volume@ - trade@
            } else {
                0
            },
    {
        if let Some(mut l) = self.level_copy(key) {
            l.total_volume = l.total_volume.saturating_sub(&trade);
            self.put_level_if_present(key, l);
        }
    }

    /// Whether a stored order is filled in full.
    fn is_fully_filled(&self, id: U256) -> (r: bool)
        ensures
            r == (self.has_order(id) && self.order_at(id).amount@ <= self.order_at(id).filled_amount@),
    {
        match self.order_copy(id) {
            Some(o) => o.amount.le(&o.filled_amount),
            None => false,
        }
    }

    /// Trades the smaller remainder between a resting bid and a resting ask. False, with
    /// nothing changed, where either is unknown or nothing remains to trade.
    fn execute_trade(&mut self, bid_order_id: U256, ask_order_id: U256) -> (r: bool)
        ensures
            r == (old(self).has_order(bid_order_id) && old(self).has_order(ask_order_id) && min_nat(
                remaining_view(old(self).order_at(bid_order_id)),
                remaining_view(old(self).order_at(ask_order_id)),
            ) > 0 && key_of(bid_order_id) != key_of(ask_order_id) && level_key(
                old(self).order_at(bid_order_id).price_level,
                false,
            ) != level_key(old(self).order_at(ask_order_id).price_level, true)),
            r ==> exists|
                filled: OrderBookSimulator,
                between: OrderBookSimulator,
            |
                #[trigger] limit_trade_done(
                    *old(self),
                    filled,
                    between,
                    *final(self),
                    bid_order_id,
                    ask_order_id,
                    min_nat(
                        remaining_view(old(self).order_at(bid_order_id)),
                        remaining_view(old(self).order_at(ask_order_id)),
                    ),
                ),
            old(self).levels_occupied() ==> final(self).levels_occupied(),
            !r ==> *final(self) == *old(self),
            old(self).wf() ==> final(self).wf(),
    {
        let (bid_remaining, bid_price_level) = match self.order_copy(bid_order_id) {
            Some(o) => (Self::remaining_of(&o), o.price_level),
            None => {
                return false;
            },
        };
        let (ask_remaining, ask_price_level) = match self.order_copy(ask_order_id) {
            Some(o) => (Self::remaining_of(&o), o.price_level),
            None => {
                return false;
            },
        };
        let trade = bid_remaining.min(&ask_remaining);
        if trade.is_zero() {
            return false;
        }
        // an order never trades with itself, nor across one level
        let bid_key = price_level_key(bid_price_level, false);
        let ask_key = price_level_key(ask_price_level, true);
        if bid_order_id == ask_order_id || (bid_key.0 == ask_key.0 && bid_key.1 == ask_key.1) {
            proof {
                crate::u256::lemma_view_order(bid_order_id, ask_order_id);
            }
            return false;
        }
        let ghost start_state = *self;
        self.fill_order(bid_order_id, trade);
        let ghost f1 = *self;
        self.fill_order(ask_order_id, trade);
        let ghost f2 = *self;
        self.reduce_level_volume(price_level_key(bid_price_level, false), trade);
        let ghost f3 = *self;
        self.reduce_level_volume(price_level_key(ask_price_level, true), trade);
        let ghost filled = *self;
        proof {
            if start_state.wf() {
                lemma_links_kept_wf(start_state, *self);
            }
            if start_state.levels_occupied() {
                lemma_occupied_same_heads(start_state.price_levels@, self.price_levels@);
            }
            let kb = key_of(bid_order_id);
            let ka = key_of(ask_order_id);
            let lb = level_key(bid_price_level, false);
            let la = level_key(ask_price_level, true);
            if kb != ka && lb != la {
                let ob = start_state.order_at(bid_order_id);
                let oa = start_state.order_at(ask_order_id);
                crate::u256::lemma_view_order(ob.amount, ob.amount);
                crate::u256::lemma_view_order(oa.amount, oa.amount);
                assert(filled.orders@ == f2.orders@);
                assert(f3.price_levels@.dom() == start_state.price_levels@.dom());
                assert forall|k: (u128, u128)| #[trigger] filled.orders@.contains_key(k) implies {
                    &&& start_state.orders@.contains_key(k)
                    &&& filled.orders@[k].filled_amount@ == if set![kb, ka].contains(k) {
                        start_state.orders@[k].filled_amount@ + trade@
                    } else {
                        start_state.orders@[k].filled_amount@
                    }
                    &&& order_core_of(filled.orders@)[k] == order_core_of(start_state.orders@)[k]
                } by {
                    if k != kb && k != ka {
                        lemma_data_at(f1.orders@, f2.orders@, ka, k);
                        lemma_data_at(start_state.orders@, f1.orders@, kb, k);
                    } else if k == kb {
                        lemma_data_at(f1.orders@, f2.orders@, ka, k);
                    } else {
                        lemma_data_at(start_state.orders@, f1.orders@, kb, k);
                    }
                }
                assert forall|k: (u128, u128)| #[trigger] filled.price_levels@.contains_key(k) implies filled.price_levels@[k].total_volume@
                    == if set![lb, la].contains(k) {
                    cut(start_state.price_levels@[k].total_volume@, trade@)
                } else {
                    start_state.price_levels@[k].total_volume@
                } by {
                    if k != lb && k != la {
                        lemma_vol_at(f3.price_levels@, filled.price_levels@, la, k);
                        lemma_vol_at(f2.price_levels@, f3.price_levels@, lb, k);
                    } else if k == lb {
                        lemma_vol_at(f3.price_levels@, filled.price_levels@, la, k);
                    } else {
                        lemma_vol_at(f2.price_levels@, f3.price_levels@, lb, k);
                    }
                }
                assert(order_core_of(filled.orders@) =~= order_core_of(start_state.orders@));
                assert(trade_step(start_state, filled, set![kb, ka], set![lb, la], trade@));
            }
        }
        if self.is_fully_filled(bid_order_id) {
            self.remove_filled_order(bid_order_id, false);
        }
        let ghost between = *self;
        if self.is_fully_filled(ask_order_id) {
            self.remove_filled_order(ask_order_id, true);
        }
        proof {
            let kb = key_of(bid_order_id);
            let ka = key_of(ask_order_id);
            let lb = level_key(bid_price_level, false);
            let la = level_key(ask_price_level, true);
            assert(trade@ == min_nat(
                remaining_view(start_state.order_at(bid_order_id)),
                remaining_view(start_state.order_at(ask_order_id)),
            ));
            if kb != ka && lb != la {
                assert(limit_trade_done(
                    start_state,
                    filled,
                    between,
                    *self,
                    bid_order_id,
                    ask_order_id,
                    trade@,
                ));
            }
        }
        true
    }

    /// Drains the market-bid FIFO against the best ask, then the market-ask FIFO
    /// against the best bid, with at most `max_iterations` trades in all.
    fn match_market_orders_internal(&mut self, max_iterations: usize)
        ensures
            old(self).levels_occupied() ==> final(self).levels_occupied(),
            old(self).wf() ==> final(self).wf(),
            old(self).quiet() ==> *final(self) == *old(self),
            exists|t1: Seq<OrderBookSimulator>, t2: Seq<OrderBookSimulator>|
                #[trigger] market_runs(t1, t2, *old(self), *final(self), max_iterations as nat),
    {
        let mut iterations: usize = 0;
        let ghost mut t1: Seq<OrderBookSimulator> = seq![*self];
        while iterations < max_iterations
            invariant
                old(self).wf() ==> self.wf(),
                old(self).quiet() ==> *self == *old(self),
                old(self).levels_occupied() ==> self.levels_occupied(),
                iterations <= max_iterations,
                t1.len() == iterations + 1,
                t1[0] == *old(self),
                t1[iterations as int] == *self,
                forall|j: int| 0 <= j < t1.len() - 1 ==> #[trigger] market_step_at(t1, j, false),
            ensures
                old(self).wf() ==> self.wf(),
                old(self).quiet() ==> *self == *old(self),
                old(self).levels_occupied() ==> self.levels_occupied(),
                iterations <= max_iterations,
                t1.len() == iterations + 1,
                t1[0] == *old(self),
                t1[iterations as int] == *self,
                forall|j: int| 0 <= j < t1.len() - 1 ==> #[trigger] market_step_at(t1, j, false),
                iterations == max_iterations || !market_cross(*self, false),
            decreases max_iterations - iterations,
        {
            let ghost before = *self;
            let market_bid_head = self.market_bid_head;
            let ask_head = self.ask_head;
            if market_bid_head.is_zero() || ask_head.is_zero() {
                break;
            }
            let ask_head_order = match self.level_copy(price_level_key(ask_head, true)) {
                Some(l) => l.head_order_id,
                None => {
                    break;
                },
            };
            if ask_head_order.is_zero() {
                break;
            }
            if !self.execute_market_trade(market_bid_head, ask_head_order, false) {
                break;
            }
            proof {
                assert(before.market_head_of(false) == market_bid_head);
                assert(best_order(before, true) == ask_head_order);
                assert(can_trade(before, market_bid_head, ask_head_order));
                assert(market_cross(before, false));
                assert(market_trade_between(before, *self, market_bid_head, ask_head_order, false));
                assert(market_match_step(before, *self, false));
                let old_trace = t1;
                t1 = t1.push(*self);
                assert forall|j: int| 0 <= j < t1.len() - 1 implies #[trigger] market_step_at(
                    t1,
                    j,
                    false,
                ) by {
                    if j < old_trace.len() - 1 {
                        assert(market_step_at(old_trace, j, false));
                    }
                }
            }
            iterations = iterations + 1;
        }
        let ghost first = iterations as nat;
        let ghost mid = *self;
        let ghost mut t2: Seq<OrderBookSimulator> = seq![*self];
        while iterations < max_iterations
            invariant
                old(self).wf() ==> self.wf(),
                old(self).quiet() ==> *self == *old(self),
                old(self).levels_occupied() ==> self.levels_occupied(),
                first <= iterations <= max_iterations,
                t2.len() == iterations - first + 1,
                t2[0] == mid,
                t2[t2.len() - 1] == *self,
                forall|j: int| 0 <= j < t2.len() - 1 ==> #[trigger] market_step_at(t2, j, true),
            ensures
                old(self).wf() ==> self.wf(),
                old(self).quiet() ==> *self == *old(self),
                old(self).levels_occupied() ==> self.levels_occupied(),
                first <= iterations <= max_iterations,
                t2.len() == iterations - first + 1,
                t2[0] == mid,
                t2[t2.len() - 1] == *self,
                forall|j: int| 0 <= j < t2.len() - 1 ==> #[trigger] market_step_at(t2, j, true),
                iterations == max_iterations || !market_cross(*self, true),
            decreases max_iterations - iterations,
        {
            let ghost before = *self;
            let market_ask_head = self.market_ask_head;
            let bid_head = self.bid_head;
            if market_ask_head.is_zero() || bid_head.is_zero() {
                break;
            }
            let bid_head_order = match self.level_copy(price_level_key(bid_head, false)) {
                Some(l) => l.head_order_id,
                None => {
                    break;
                },
            };
            if bid_head_order.is_zero() {
                break;
            }
            if !self.execute_market_trade(market_ask_head, bid_head_order, true) {
                break;
            }
            proof {
                assert(before.market_head_of(true) == market_ask_head);
                assert(best_order(before, false) == bid_head_order);
                assert(market_trade_between(before, *self, market_ask_head, bid_head_order, true));
                assert(market_match_step(before, *self, true));
                let old_trace = t2;
                t2 = t2.push(*self);
                assert forall|j: int| 0 <= j < t2.len() - 1 implies #[trigger] market_step_at(
                    t2,
                    j,
                    true,
                ) by {
                    if j < old_trace.len() - 1 {
                        assert(market_step_at(old_trace, j, true));
                    }
                }
            }
            iterations = iterations + 1;
        }
        proof {
            assert(market_runs(t1, t2, *old(self), *self, max_iterations as nat));
        }
    }

    /// Trades the smaller remainder between the market order `market_order_id` and the
    /// resting limit order `limit_order_id` of the other side. False, with nothing
    /// changed, where either is unknown or nothing remains to trade.
    fn execute_market_trade(&mut self, market_order_id: U256, limit_order_id: U256, is_market_ask: bool) -> (r: bool)
        ensures
            r == (old(self).has_order(market_order_id) && old(self).has_order(limit_order_id)
                && min_nat(
                remaining_view(old(self).order_at(market_order_id)),
                remaining_view(old(self).order_at(limit_order_id)),
            ) > 0 && key_of(market_order_id) != key_of(limit_order_id)),
            r ==> exists|
                filled: OrderBookSimulator,
                between: OrderBookSimulator,
            |
                #[trigger] market_trade_done(
                    *old(self),
                    filled,
                    between,
                    *final(self),
                    market_order_id,
                    limit_order_id,
                    is_market_ask,
                    min_nat(
                        remaining_view(old(self).order_at(market_order_id)),
                        remaining_view(old(self).order_at(limit_order_id)),
                    ),
                ),
            old(self).levels_occupied() ==> final(self).levels_occupied(),
            !r ==> *final(self) == *old(self),
            old(self).wf() ==> final(self).wf(),
    {
        let market_remaining = match self.order_copy(market_order_id) {
            Some(o) => Self::remaining_of(&o),
            None => {
                return false;
            },
        };
        let (limit_remaining, limit_price_level) = match self.order_copy(limit_order_id) {
            Some(o) => (Self::remaining_of(&o), o.price_level),
            None => {
                return false;
            },
        };
        let trade = market_remaining.min(&limit_remaining);
        if trade.is_zero() {
            return false;
        }
        // an order never trades with itself
        if market_order_id == limit_order_id {
            return false;
        }
        let ghost start_state = *self;
        self.fill_order(market_order_id, trade);
        let ghost f1 = *self;
        self.fill_order(limit_order_id, trade);
        let ghost f2 = *self;
        let limit_is_ask = !is_market_ask;
        self.reduce_level_volume(price_level_key(limit_price_level, limit_is_ask), trade);
        let ghost filled = *self;
        proof {
            if start_state.levels_occupied() {
                lemma_occupied_same_heads(start_state.price_levels@, self.price_levels@);
            }
            let km = key_of(market_order_id);
            let kl = key_of(limit_order_id);
            let ll = level_key(limit_price_level, limit_is_ask);
            if km != kl {
                let om = start_state.order_at(market_order_id);
                let ol = start_state.order_at(limit_order_id);
                crate::u256::lemma_view_order(om.amount, om.amount);
                crate::u256::lemma_view_order(ol.amount, ol.amount);
                assert(filled.orders@ == f2.orders@);
                assert forall|k: (u128, u128)| #[trigger] filled.orders@.contains_key(k) implies {
                    &&& start_state.orders@.contains_key(k)
                    &&& filled.orders@[k].filled_amount@ == if set![km, kl].contains(k) {
                        start_state.orders@[k].filled_amount@ + trade@
                    } else {
                        start_state.orders@[k].filled_amount@
                    }
                    &&& order_core_of(filled.orders@)[k] == order_core_of(start_state.orders@)[k]
                } by {
                    if k != km && k != kl {
                        lemma_data_at(f1.orders@, f2.orders@, kl, k);
                        lemma_data_at(start_state.orders@, f1.orders@, km, k);
                    } else if k == km {
                        lemma_data_at(f1.orders@, f2.orders@, kl, k);
                    } else {
                        lemma_data_at(start_state.orders@, f1.orders@, km, k);
                    }
                }
                assert forall|k: (u128, u128)| #[trigger] filled.price_levels@.contains_key(k) implies filled.price_levels@[k].total_volume@
                    == if set![ll].contains(k) {
                    cut(start_state.price_levels@[k].total_volume@, trade@)
                } else {
                    start_state.price_levels@[k].total_volume@
                } by {
                    if k != ll {
                        lemma_vol_at(f2.price_levels@, filled.price_levels@, ll, k);
                    }
                }
                assert(order_core_of(filled.orders@) =~= order_core_of(start_state.orders@));
                assert(trade_step(start_state, filled, set![km, kl], set![ll], trade@));
            }
        }
        if self.is_fully_filled(market_order_id) {
            let ghost pre = *self;
            self.remove_market_order_from_list(market_order_id, is_market_ask);
            let ghost mid = *self;
            self.orders.remove(&market_order_id.key());
            proof {
                assert(fifo_taken_out(pre, *self, market_order_id, is_market_ask)) by {
                    assert(unlinked_from_fifo(pre, mid, pre.order_at(market_order_id), is_market_ask));
                }
            }
        }
        let ghost between = *self;
        proof {
            if start_state.wf() {
                assert(orders_bounded(self.orders@));
                lemma_links_kept_wf(start_state, *self);
            }
        }
        if self.is_fully_filled(limit_order_id) {
            self.remove_filled_order(limit_order_id, limit_is_ask);
        }
        proof {
            assert(trade@ == min_nat(
                remaining_view(start_state.order_at(market_order_id)),
                remaining_view(start_state.order_at(limit_order_id)),
            ));
            if key_of(market_order_id) != key_of(limit_order_id) {
                assert(market_trade_done(
                    start_state,
                    filled,
                    between,
                    *self,
                    market_order_id,
                    limit_order_id,
                    is_market_ask,
                    trade@,
                ));
            }
        }
        true
    }
}

} // verus!
