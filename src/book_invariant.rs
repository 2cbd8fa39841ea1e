use vstd::prelude::*;
use crate::orderbook::{
    goes_before, walk_orders, walk_position, walk_prices, LevelTable, OrderBookSimulator, OrderTable, SimPriceLevel,
};
use crate::u256::{
    key_of, lemma_level_key_injective, lemma_view_order, lemma_zero_view, level_key, price_bound, zero_u256, U256,
};

verus! {

broadcast use vstd::std_specs::btree::group_btree_axioms, vstd::laws_cmp::group_laws_cmp;

/// The link fields of each level: its price, next price and previous price.
pub type LinkTable = Map<(u128, u128), (U256, U256, U256)>;

pub open spec fn link_of(l: SimPriceLevel) -> (U256, U256, U256) {
    (l.price, l.next_price, l.prev_price)
}

pub open spec fn links_of(levels: LevelTable) -> LinkTable {
    levels.map_values(|l: SimPriceLevel| link_of(l))
}

/// `x` comes strictly before `y` on the side: lower for asks, higher for bids.
pub open spec fn strictly_before(x: U256, y: U256, is_ask: bool) -> bool {
    if is_ask {
        x@ < y@
    } else {
        x@ > y@
    }
}

pub open spec fn next_in(s: Seq<U256>, i: int) -> U256 {
    if i + 1 < s.len() {
        s[i + 1]
    } else {
        zero_u256()
    }
}

pub open spec fn prev_in(s: Seq<U256>, i: int) -> U256 {
    if i > 0 {
        s[i - 1]
    } else {
        zero_u256()
    }
}

/// The `i`th price of `s` is a stored level whose links name its neighbours in `s`.
pub open spec fn link_ok(links: LinkTable, s: Seq<U256>, i: int, is_ask: bool) -> bool {
    &&& 0 < s[i]@ < price_bound()
    &&& links.contains_key(level_key(s[i], is_ask))
    &&& links[level_key(s[i], is_ask)] == (s[i], next_in(s, i), prev_in(s, i))
}

/// One side's list, from `head` to `tail`, is exactly `s`, in strict price order.
pub open spec fn side_linked(
    links: LinkTable,
    head: U256,
    tail: U256,
    s: Seq<U256>,
    is_ask: bool,
) -> bool {
    &&& s.len() == 0 ==> head == zero_u256() && tail == zero_u256()
    &&& s.len() > 0 ==> head == s[0] && tail == s[s.len() - 1]
    &&& forall|i: int| 0 <= i < s.len() ==> #[trigger] link_ok(links, s, i, is_ask)
    &&& forall|i: int, j: int|
        0 <= i < j < s.len() ==> #[trigger] strictly_before(s[i], s[j], is_ask)
}

pub open spec fn on_side(s: Seq<U256>, k: (u128, u128), is_ask: bool) -> bool {
    exists|i: int| 0 <= i < s.len() && k == #[trigger] level_key(s[i], is_ask)
}

/// Every stored level lies on one of the two lists.
pub open spec fn covers(links: LinkTable, a: Seq<U256>, b: Seq<U256>) -> bool {
    forall|k: (u128, u128)|
        #[trigger] links.contains_key(k) ==> on_side(a, k, true) || on_side(b, k, false)
}

/// Every order names a level price below the price bound.
pub open spec fn orders_bounded(orders: OrderTable) -> bool {
    forall|k: (u128, u128)| #[trigger] orders.contains_key(k) ==> orders[k].price_level@ < price_bound()
}

/// What an order is, apart from its links: id, amount, filled amount, kind and level.
pub open spec fn order_data_of(orders: OrderTable) -> Map<(u128, u128), (U256, U256, U256, bool, U256)> {
    orders.map_values(
        |o: crate::orderbook::SimOrder|
            (o.id, o.amount, o.filled_amount, o.is_market_order, o.price_level),
    )
}

/// The head order of each level.
pub open spec fn heads_of(levels: LevelTable) -> Map<(u128, u128), U256> {
    levels.map_values(|l: SimPriceLevel| l.head_order_id)
}

/// The tail order of each level.
pub open spec fn tails_of(levels: LevelTable) -> Map<(u128, u128), U256> {
    levels.map_values(|l: SimPriceLevel| l.tail_order_id)
}

/// Every stored level but the one under `skip` has a head order.
pub open spec fn occupied_but(levels: LevelTable, skip: (u128, u128)) -> bool {
    forall|k: (u128, u128)|
        #[trigger] levels.contains_key(k) && k != skip ==> levels[k].head_order_id@ != 0
}

pub open spec fn all_occupied(levels: LevelTable) -> bool {
    forall|k: (u128, u128)| #[trigger] levels.contains_key(k) ==> levels[k].head_order_id@ != 0
}

/// Heads kept everywhere but at `skip`, where the level is gone or has a head: no level
/// is left empty.
pub proof fn lemma_occupied_heads(old_levels: LevelTable, new_levels: LevelTable, skip: (u128, u128))
    requires
        occupied_but(old_levels, skip),
        heads_of(new_levels).remove(skip) == heads_of(old_levels).remove(skip),
        new_levels.contains_key(skip) ==> new_levels[skip].head_order_id@ != 0,
    ensures
        all_occupied(new_levels),
{
    assert forall|k: (u128, u128)| #[trigger] new_levels.contains_key(k) implies new_levels[k].head_order_id@
        != 0 by {
        if k != skip {
            assert(heads_of(new_levels).remove(skip).contains_key(k));
            assert(heads_of(old_levels).remove(skip).contains_key(k));
            assert(heads_of(new_levels).remove(skip)[k] == new_levels[k].head_order_id);
            assert(heads_of(old_levels).remove(skip)[k] == old_levels[k].head_order_id);
        }
    }
}

pub proof fn lemma_occupied_same_heads(old_levels: LevelTable, new_levels: LevelTable)
    requires
        all_occupied(old_levels),
        heads_of(new_levels) == heads_of(old_levels),
    ensures
        all_occupied(new_levels),
{
    assert forall|k: (u128, u128)| #[trigger] new_levels.contains_key(k) implies new_levels[k].head_order_id@
        != 0 by {
        assert(heads_of(new_levels).contains_key(k));
        assert(heads_of(old_levels).contains_key(k));
        assert(old_levels.contains_key(k));
        assert(heads_of(new_levels)[k] == new_levels[k].head_order_id);
        assert(heads_of(old_levels)[k] == old_levels[k].head_order_id);
    }
}

/// The links of each order: its next and previous order.
pub open spec fn olinks_of(orders: OrderTable) -> Map<(u128, u128), (U256, U256)> {
    orders.map_values(|o: crate::orderbook::SimOrder| (o.next_order_id, o.prev_order_id))
}

/// The volume of each level.
pub open spec fn volumes_of(levels: LevelTable) -> Map<(u128, u128), U256> {
    levels.map_values(|l: SimPriceLevel| l.total_volume)
}

/// `m` with the entry under `k` set to `v`, where there is one.
pub open spec fn set_at<V>(m: Map<(u128, u128), V>, k: (u128, u128), v: V) -> Map<(u128, u128), V> {
    if m.contains_key(k) {
        m.insert(k, v)
    } else {
        m
    }
}

/// The order links with the next order of `k` set to `n`, where `k` is stored.
pub open spec fn set_onext(m: Map<(u128, u128), (U256, U256)>, k: (u128, u128), n: U256) -> Map<
    (u128, u128),
    (U256, U256),
> {
    set_at(m, k, (n, m[k].1))
}

/// The order links with the previous order of `k` set to `p`, where `k` is stored.
pub open spec fn set_oprev(m: Map<(u128, u128), (U256, U256)>, k: (u128, u128), p: U256) -> Map<
    (u128, u128),
    (U256, U256),
> {
    set_at(m, k, (m[k].0, p))
}

/// What an order is apart from its links.
pub open spec fn data_of(o: crate::orderbook::SimOrder) -> (U256, U256, U256, bool, U256) {
    (o.id, o.amount, o.filled_amount, o.is_market_order, o.price_level)
}

/// The filled amount of each order.
pub open spec fn fills_of(orders: OrderTable) -> Map<(u128, u128), nat> {
    orders.map_values(|o: crate::orderbook::SimOrder| o.filled_amount@)
}

/// What an order is apart from its links and filled amount.
pub open spec fn order_core_of(orders: OrderTable) -> Map<(u128, u128), (U256, U256, bool, U256)> {
    orders.map_values(
        |o: crate::orderbook::SimOrder| (o.id, o.amount, o.is_market_order, o.price_level),
    )
}

/// The volume of each level, as a number.
pub open spec fn vol_views(levels: LevelTable) -> Map<(u128, u128), nat> {
    levels.map_values(|l: SimPriceLevel| l.total_volume@)
}

/// `v - t`, or zero where `t` is larger.
pub open spec fn cut(v: nat, t: nat) -> nat {
    if t <= v {
        (v - t) as nat
    } else {
        0
    }
}

pub proof fn lemma_data_at(m1: OrderTable, m2: OrderTable, x: (u128, u128), k: (u128, u128))
    requires
        order_data_of(m2).remove(x) == order_data_of(m1).remove(x),
        k != x,
        m2.contains_key(k) || m1.contains_key(k),
    ensures
        m1.contains_key(k) && m2.contains_key(k),
        data_of(m2[k]) == data_of(m1[k]),
{
    if m2.contains_key(k) {
        assert(order_data_of(m2).remove(x).contains_key(k));
    } else {
        assert(order_data_of(m1).remove(x).contains_key(k));
    }
    assert(order_data_of(m2).remove(x)[k] == order_data_of(m2)[k]);
    assert(order_data_of(m1).remove(x)[k] == order_data_of(m1)[k]);
}

pub proof fn lemma_vol_at(l1: LevelTable, l2: LevelTable, x: (u128, u128), k: (u128, u128))
    requires
        volumes_of(l2).remove(x) == volumes_of(l1).remove(x),
        k != x,
        l2.contains_key(k) || l1.contains_key(k),
    ensures
        l1.contains_key(k) && l2.contains_key(k),
        l2[k].total_volume == l1[k].total_volume,
{
    if l2.contains_key(k) {
        assert(volumes_of(l2).remove(x).contains_key(k));
    } else {
        assert(volumes_of(l1).remove(x).contains_key(k));
    }
    assert(volumes_of(l2).remove(x)[k] == volumes_of(l2)[k]);
    assert(volumes_of(l1).remove(x)[k] == volumes_of(l1)[k]);
}

impl OrderBookSimulator {
    /// The ask list is `a` and the bid list is `b`, and they hold every level.
    pub open spec fn linked_as(&self, a: Seq<U256>, b: Seq<U256>) -> bool {
        let links = links_of(self.price_levels@);
        &&& side_linked(links, self.ask_head, self.ask_tail, a, true)
        &&& side_linked(links, self.bid_head, self.bid_tail, b, false)
        &&& covers(links, a, b)
    }

    /// The price lists are well formed: each side is a doubly linked list in strict
    /// price order, the two hold every level, and every order names a price below the
    /// bound.
    pub open spec fn wf(&self) -> bool {
        &&& exists|a: Seq<U256>, b: Seq<U256>| #[trigger] self.linked_as(a, b)
        &&& orders_bounded(self.orders@)
    }

    /// No trade can start: one limit side is empty, and each market queue is empty or
    /// faces an empty limit side.
    pub open spec fn quiet(&self) -> bool {
        &&& self.bid_head@ == 0 || self.ask_head@ == 0
        &&& self.market_bid_head@ == 0 || self.ask_head@ == 0
        &&& self.market_ask_head@ == 0 || self.bid_head@ == 0
    }

    /// Same market queue ends.
    pub open spec fn market_ends_kept(&self, prev: &Self) -> bool {
        &&& self.market_ask_head == prev.market_ask_head && self.market_ask_tail == prev.market_ask_tail
        &&& self.market_bid_head == prev.market_bid_head && self.market_bid_tail == prev.market_bid_tail
    }

    /// Every stored level has a head order: no empty level is kept.
    pub open spec fn levels_occupied(&self) -> bool {
        all_occupied(self.price_levels@)
    }

    /// Same level links, same list ends.
    pub open spec fn links_kept(&self, prev: &Self) -> bool {
        &&& links_of(self.price_levels@) == links_of(prev.price_levels@)
        &&& self.ask_head == prev.ask_head && self.ask_tail == prev.ask_tail
        &&& self.bid_head == prev.bid_head && self.bid_tail == prev.bid_tail
    }
}

pub proof fn lemma_links_kept_wf(old_book: OrderBookSimulator, new_book: OrderBookSimulator)
    requires
        old_book.wf(),
        new_book.links_kept(&old_book),
        orders_bounded(new_book.orders@),
    ensures
        new_book.wf(),
{
    let (a, b) = choose|a: Seq<U256>, b: Seq<U256>| #[trigger] old_book.linked_as(a, b);
    assert(new_book.linked_as(a, b));
}

/// Prices below the bound: level keys of different sides differ, and keys of one side
/// are equal only for equal prices.
pub proof fn lemma_keys(x: U256, y: U256)
    requires
        x@ < price_bound(),
        y@ < price_bound(),
    ensures
        level_key(x, true) != level_key(y, false),
        level_key(x, false) != level_key(y, true),
        level_key(x, true) == level_key(y, true) ==> x == y,
        level_key(x, false) == level_key(y, false) ==> x == y,
{
    lemma_level_key_injective(x, y, true, false);
    lemma_level_key_injective(x, y, false, true);
    lemma_level_key_injective(x, y, true, true);
    lemma_level_key_injective(x, y, false, false);
}

/// Under the bound, a key of side `is_ask` found on a well-formed list names one index.
pub proof fn lemma_side_index(
    links: LinkTable,
    head: U256,
    tail: U256,
    s: Seq<U256>,
    is_ask: bool,
    i: int,
    j: int,
)
    requires
        side_linked(links, head, tail, s, is_ask),
        0 <= i < s.len(),
        0 <= j < s.len(),
        level_key(s[i], is_ask) == level_key(s[j], is_ask),
    ensures
        i == j,
{
    assert(link_ok(links, s, i, is_ask));
    assert(link_ok(links, s, j, is_ask));
    lemma_keys(s[i], s[j]);
    if i < j {
        assert(strictly_before(s[i], s[j], is_ask));
    } else if j < i {
        assert(strictly_before(s[j], s[i], is_ask));
    }
}

/// What unlinking the `i`th level of list `s` leaves: the neighbours relinked, the
/// level gone.
pub open spec fn unlinked_links(links: LinkTable, s: Seq<U256>, i: int, is_ask: bool) -> LinkTable {
    let l1 = if i > 0 {
        links.insert(
            level_key(s[i - 1], is_ask),
            (s[i - 1], next_in(s, i), prev_in(s, i - 1)),
        )
    } else {
        links
    };
    let l2 = if i + 1 < s.len() {
        l1.insert(level_key(s[i + 1], is_ask), (s[i + 1], next_in(s, i + 1), prev_in(s, i)))
    } else {
        l1
    };
    l2.remove(level_key(s[i], is_ask))
}

pub proof fn lemma_unlink(
    links: LinkTable,
    head: U256,
    tail: U256,
    s: Seq<U256>,
    ohead: U256,
    otail: U256,
    other: Seq<U256>,
    is_ask: bool,
    i: int,
)
    requires
        side_linked(links, head, tail, s, is_ask),
        side_linked(links, ohead, otail, other, !is_ask),
        if is_ask {
            covers(links, s, other)
        } else {
            covers(links, other, s)
        },
        0 <= i < s.len(),
    ensures
        ({
            let nl = unlinked_links(links, s, i, is_ask);
            let ns = s.remove(i);
            &&& side_linked(
                nl,
                if i == 0 {
                    next_in(s, i)
                } else {
                    head
                },
                if i + 1 == s.len() {
                    prev_in(s, i)
                } else {
                    tail
                },
                ns,
                is_ask,
            )
            &&& side_linked(nl, ohead, otail, other, !is_ask)
            &&& if is_ask {
                covers(nl, ns, other)
            } else {
                covers(nl, other, ns)
            }
        }),
{
    let nl = unlinked_links(links, s, i, is_ask);
    let ns = s.remove(i);
    let key = level_key(s[i], is_ask);
    assert(link_ok(links, s, i, is_ask));
    // keys of the list other than the `i`th are untouched except for the neighbours
    assert forall|j: int| 0 <= j < ns.len() implies #[trigger] link_ok(nl, ns, j, is_ask) by {
        let oj = if j < i {
            j
        } else {
            j + 1
        };
        assert(ns[j] == s[oj]);
        assert(link_ok(links, s, oj, is_ask));
        assert(oj != i);
        if level_key(s[oj], is_ask) == key {
            lemma_side_index(links, head, tail, s, is_ask, oj, i);
        }
        if i > 0 && level_key(s[oj], is_ask) == level_key(s[i - 1], is_ask) {
            lemma_side_index(links, head, tail, s, is_ask, oj, i - 1);
        }
        if i + 1 < s.len() && level_key(s[oj], is_ask) == level_key(s[i + 1], is_ask) {
            lemma_side_index(links, head, tail, s, is_ask, oj, i + 1);
        }
        if i > 0 {
            assert(link_ok(links, s, i - 1, is_ask));
        }
        if i + 1 < s.len() {
            assert(link_ok(links, s, i + 1, is_ask));
        }
    }
    assert forall|x: int, y: int| 0 <= x < y < ns.len() implies #[trigger] strictly_before(
        ns[x],
        ns[y],
        is_ask,
    ) by {
        let ox = if x < i {
            x
        } else {
            x + 1
        };
        let oy = if y < i {
            y
        } else {
            y + 1
        };
        assert(strictly_before(s[ox], s[oy], is_ask));
    }
    let oa = !is_ask;
    assert forall|j: int| 0 <= j < other.len() implies #[trigger] link_ok(nl, other, j, oa) by {
        assert(link_ok(links, other, j, oa));
        lemma_keys(other[j], s[i]);
        if i > 0 {
            assert(link_ok(links, s, i - 1, is_ask));
            lemma_keys(other[j], s[i - 1]);
        }
        if i + 1 < s.len() {
            assert(link_ok(links, s, i + 1, is_ask));
            lemma_keys(other[j], s[i + 1]);
        }
    }
    assert forall|k: (u128, u128)| #[trigger] nl.contains_key(k) implies (if is_ask {
        on_side(ns, k, true) || on_side(other, k, false)
    } else {
        on_side(other, k, true) || on_side(ns, k, false)
    }) by {
        if i > 0 {
            assert(link_ok(links, s, i - 1, is_ask));
        }
        if i + 1 < s.len() {
            assert(link_ok(links, s, i + 1, is_ask));
        }
        assert(links.contains_key(k));
        if on_side(s, k, is_ask) {
            let j = choose|j: int| 0 <= j < s.len() && k == #[trigger] level_key(s[j], is_ask);
            assert(j != i);
            let nj = if j < i {
                j
            } else {
                j - 1
            };
            assert(ns[nj] == s[j]);
            assert(k == level_key(ns[nj], is_ask));
        }
    }
    if i == 0 && s.len() > 1 {
        assert(ns[0] == s[1]);
    }
    if i + 1 == s.len() && s.len() > 1 {
        assert(ns[ns.len() - 1] == s[i - 1]);
    }
    if i != 0 && ns.len() > 0 {
        assert(ns[0] == s[0]);
    }
    if i + 1 != s.len() && ns.len() > 0 {
        assert(ns[ns.len() - 1] == s[s.len() - 1]);
    }
    if s.len() == 1 {
        assert(ns.len() == 0);
    }
}

/// A stored level of side `is_ask`, at a price below the bound, sits at one index of
/// that side's list.
pub proof fn lemma_locate(
    book: OrderBookSimulator,
    a: Seq<U256>,
    b: Seq<U256>,
    p: U256,
    is_ask: bool,
) -> (i: int)
    requires
        book.linked_as(a, b),
        p@ < price_bound(),
        links_of(book.price_levels@).contains_key(level_key(p, is_ask)),
    ensures
        is_ask ==> 0 <= i < a.len() && a[i] == p,
        !is_ask ==> 0 <= i < b.len() && b[i] == p,
{
    let links = links_of(book.price_levels@);
    let key = level_key(p, is_ask);
    if on_side(a, key, true) {
        let j = choose|j: int| 0 <= j < a.len() && key == #[trigger] level_key(a[j], true);
        assert(link_ok(links, a, j, true));
        lemma_keys(a[j], p);
        lemma_keys(p, a[j]);
        j
    } else {
        let j = choose|j: int| 0 <= j < b.len() && key == #[trigger] level_key(b[j], false);
        assert(link_ok(links, b, j, false));
        lemma_keys(b[j], p);
        lemma_keys(p, b[j]);
        j
    }
}

/// `price` goes at index `k` of list `s`: after every price before it, before the
/// price at `k`.
pub open spec fn slot_ok(s: Seq<U256>, k: int, price: U256, is_ask: bool) -> bool {
    &&& 0 <= k <= s.len()
    &&& forall|j: int| 0 <= j < k ==> #[trigger] strictly_before(s[j], price, is_ask)
    &&& k < s.len() ==> strictly_before(price, s[k], is_ask)
}

/// The hint that names slot `k`: the price before it, zero for the head.
pub open spec fn slot_hint(s: Seq<U256>, k: int) -> U256 {
    if k == 0 {
        zero_u256()
    } else {
        s[k - 1]
    }
}

/// What splicing a new level at `price` into slot `k` of list `s` leaves.
pub open spec fn spliced_links(
    links: LinkTable,
    s: Seq<U256>,
    k: int,
    price: U256,
    is_ask: bool,
) -> LinkTable {
    let ns = s.insert(k, price);
    let l1 = links.insert(level_key(price, is_ask), (price, next_in(ns, k), prev_in(ns, k)));
    let l2 = if k > 0 {
        l1.insert(level_key(s[k - 1], is_ask), (s[k - 1], price, prev_in(s, k - 1)))
    } else {
        l1
    };
    if k < s.len() {
        l2.insert(level_key(s[k], is_ask), (s[k], next_in(s, k), price))
    } else {
        l2
    }
}

pub proof fn lemma_splice(
    links: LinkTable,
    head: U256,
    tail: U256,
    s: Seq<U256>,
    ohead: U256,
    otail: U256,
    other: Seq<U256>,
    is_ask: bool,
    k: int,
    price: U256,
)
    requires
        side_linked(links, head, tail, s, is_ask),
        side_linked(links, ohead, otail, other, !is_ask),
        if is_ask {
            covers(links, s, other)
        } else {
            covers(links, other, s)
        },
        slot_ok(s, k, price, is_ask),
        0 < price@ < price_bound(),
    ensures
        ({
            let nl = spliced_links(links, s, k, price, is_ask);
            let ns = s.insert(k, price);
            &&& side_linked(
                nl,
                if k == 0 {
                    price
                } else {
                    head
                },
                if k == s.len() {
                    price
                } else {
                    tail
                },
                ns,
                is_ask,
            )
            &&& side_linked(nl, ohead, otail, other, !is_ask)
            &&& if is_ask {
                covers(nl, ns, other)
            } else {
                covers(nl, other, ns)
            }
        }),
{
    let nl = spliced_links(links, s, k, price, is_ask);
    let ns = s.insert(k, price);
    let key = level_key(price, is_ask);
    assert forall|j: int| 0 <= j < s.len() implies level_key(s[j], is_ask) != key by {
        assert(link_ok(links, s, j, is_ask));
        lemma_keys(s[j], price);
        if j < k {
            assert(strictly_before(s[j], price, is_ask));
        } else {
            assert(strictly_before(price, s[k], is_ask));
            if j > k {
                assert(strictly_before(s[k], s[j], is_ask));
            }
        }
    }
    assert forall|x: int, y: int| 0 <= x < y < ns.len() implies #[trigger] strictly_before(
        ns[x],
        ns[y],
        is_ask,
    ) by {
        if x < k && y < k {
            assert(strictly_before(s[x], s[y], is_ask));
        } else if x < k && y == k {
            assert(strictly_before(s[x], price, is_ask));
        } else if x < k && y > k {
            assert(strictly_before(s[x], s[y - 1], is_ask));
        } else if x == k {
            assert(strictly_before(price, s[k], is_ask));
            if y - 1 > k {
                assert(strictly_before(s[k], s[y - 1], is_ask));
            }
        } else {
            assert(strictly_before(s[x - 1], s[y - 1], is_ask));
        }
    }
    assert forall|j: int| 0 <= j < ns.len() implies #[trigger] link_ok(nl, ns, j, is_ask) by {
        if j != k {
            let oj = if j < k {
                j
            } else {
                j - 1
            };
            assert(ns[j] == s[oj]);
            assert(link_ok(links, s, oj, is_ask));
            if k > 0 {
                assert(link_ok(links, s, k - 1, is_ask));
                if level_key(s[oj], is_ask) == level_key(s[k - 1], is_ask) {
                    lemma_side_index(links, head, tail, s, is_ask, oj, k - 1);
                }
            }
            if k < s.len() {
                assert(link_ok(links, s, k, is_ask));
                if level_key(s[oj], is_ask) == level_key(s[k], is_ask) {
                    lemma_side_index(links, head, tail, s, is_ask, oj, k);
                }
            }
        } else {
            if k > 0 {
                assert(link_ok(links, s, k - 1, is_ask));
            }
            if k < s.len() {
                assert(link_ok(links, s, k, is_ask));
            }
        }
    }
    let oa = !is_ask;
    assert forall|j: int| 0 <= j < other.len() implies #[trigger] link_ok(nl, other, j, oa) by {
        assert(link_ok(links, other, j, oa));
        lemma_keys(other[j], price);
        lemma_keys(price, other[j]);
        if k > 0 {
            assert(link_ok(links, s, k - 1, is_ask));
            lemma_keys(other[j], s[k - 1]);
            lemma_keys(s[k - 1], other[j]);
        }
        if k < s.len() {
            assert(link_ok(links, s, k, is_ask));
            lemma_keys(other[j], s[k]);
            lemma_keys(s[k], other[j]);
        }
    }
    assert forall|kk: (u128, u128)| #[trigger] nl.contains_key(kk) implies (if is_ask {
        on_side(ns, kk, true) || on_side(other, kk, false)
    } else {
        on_side(other, kk, true) || on_side(ns, kk, false)
    }) by {
        if kk == key {
            assert(ns[k] == price);
            assert(kk == level_key(ns[k], is_ask));
        } else if k > 0 && kk == level_key(s[k - 1], is_ask) {
            assert(ns[k - 1] == s[k - 1]);
        } else if k < s.len() && kk == level_key(s[k], is_ask) {
            assert(ns[k + 1] == s[k]);
        } else {
            assert(links.contains_key(kk));
            if on_side(s, kk, is_ask) {
                let j = choose|j: int| 0 <= j < s.len() && kk == #[trigger] level_key(s[j], is_ask);
                let nj = if j < k {
                    j
                } else {
                    j + 1
                };
                assert(ns[nj] == s[j]);
                assert(kk == level_key(ns[nj], is_ask));
            }
        }
    }
    if k == 0 {
        assert(ns[0] == price);
    } else {
        assert(ns[0] == s[0]);
    }
    if k == s.len() {
        assert(ns[ns.len() - 1] == price);
    } else {
        assert(ns[ns.len() - 1] == s[s.len() - 1]);
    }
}

/// The book holds the new level at `price` with no links, the lists without it are
/// `a` and `b`, and `after` names slot `k` of the side's list.
pub open spec fn splice_ready(
    book: OrderBookSimulator,
    a: Seq<U256>,
    b: Seq<U256>,
    price: U256,
    is_ask: bool,
    after: U256,
    k: int,
) -> bool {
    let links = links_of(book.price_levels@);
    let key = level_key(price, is_ask);
    let rest = links.remove(key);
    let s = if is_ask {
        a
    } else {
        b
    };
    &&& links.contains_key(key)
    &&& links[key] == (price, zero_u256(), zero_u256())
    &&& side_linked(rest, book.ask_head, book.ask_tail, a, true)
    &&& side_linked(rest, book.bid_head, book.bid_tail, b, false)
    &&& covers(rest, a, b)
    &&& slot_ok(s, k, price, is_ask)
    &&& 0 < price@ < price_bound()
    &&& after == slot_hint(s, k)
}

/// The links with the previous price of level `k` set to `p`, where it is stored.
pub open spec fn with_prev(links: LinkTable, k: (u128, u128), p: U256) -> LinkTable {
    if links.contains_key(k) {
        links.insert(k, (links[k].0, links[k].1, p))
    } else {
        links
    }
}

/// The links with the next price of level `k` set to `n`, where it is stored.
pub open spec fn with_next(links: LinkTable, k: (u128, u128), n: U256) -> LinkTable {
    if links.contains_key(k) {
        links.insert(k, (links[k].0, n, links[k].2))
    } else {
        links
    }
}

/// A well-formed list holds no more prices than there are levels.
pub proof fn lemma_side_len(levels: LevelTable, head: U256, tail: U256, s: Seq<U256>, is_ask: bool)
    requires
        side_linked(links_of(levels), head, tail, s, is_ask),
        levels.dom().finite(),
    ensures
        s.len() <= levels.dom().len(),
{
    let links = links_of(levels);
    let ks = s.map_values(|p: U256| level_key(p, is_ask));
    assert forall|x: int, y: int|
        0 <= x < ks.len() && 0 <= y < ks.len() && x != y implies ks[x] != ks[y] by {
        if ks[x] == ks[y] {
            lemma_side_index(links, head, tail, s, is_ask, x, y);
        }
    }
    assert(ks.no_duplicates());
    ks.unique_seq_to_set();
    assert forall|kk: (u128, u128)| ks.to_set().contains(kk) implies levels.dom().contains(kk) by {
        assert(ks.contains(kk));
        let j = choose|j: int| 0 <= j < ks.len() && ks[j] == kk;
        assert(link_ok(links, s, j, is_ask));
    }
    vstd::set_lib::lemma_len_subset(ks.to_set(), levels.dom());
}

/// The insertion walk over a well-formed list, started at index `i` with every earlier
/// price before `price`, returns the hint of the slot where `price` belongs.
pub proof fn lemma_walk_slot(
    levels: LevelTable,
    head: U256,
    tail: U256,
    s: Seq<U256>,
    is_ask: bool,
    price: U256,
    i: int,
    fuel: nat,
) -> (k: int)
    requires
        side_linked(links_of(levels), head, tail, s, is_ask),
        0 <= i <= s.len(),
        fuel >= s.len() - i,
        forall|j: int| 0 <= j < i ==> #[trigger] strictly_before(s[j], price, is_ask),
        forall|j: int| 0 <= j < s.len() ==> s[j] != price,
    ensures
        slot_ok(s, k, price, is_ask),
        walk_position(levels, price, is_ask, next_in(s, i - 1), prev_in(s, i), fuel) == slot_hint(
            s,
            k,
        ),
    decreases s.len() - i,
{
    let links = links_of(levels);
    if i == s.len() {
        lemma_zero_view(zero_u256());
        i
    } else {
        assert(link_ok(links, s, i, is_ask));
        let key = level_key(s[i], is_ask);
        assert(levels.contains_key(key));
        assert(link_of(levels[key]) == links[key]);
        lemma_view_order(price, s[i]);
        assert(s[i] != price);
        if goes_before(price, s[i], is_ask) {
            i
        } else {
            lemma_walk_slot(levels, head, tail, s, is_ask, price, i + 1, (fuel - 1) as nat)
        }
    }
}

/// The list of side `is_ask`.
pub open spec fn side_of(a: Seq<U256>, b: Seq<U256>, is_ask: bool) -> Seq<U256> {
    if is_ask {
        a
    } else {
        b
    }
}

/// Where no level of `(price, is_ask)` exists, `after` names the slot of `price` in the
/// side's list.
pub open spec fn hint_ok(book: OrderBookSimulator, price: U256, is_ask: bool, after: U256) -> bool {
    !book.has_level(price, is_ask) ==> forall|a: Seq<U256>, b: Seq<U256>|
        #[trigger] book.linked_as(a, b) ==> exists|k: int|
            #[trigger] slot_ok(side_of(a, b, is_ask), k, price, is_ask) && after == slot_hint(
                side_of(a, b, is_ask),
                k,
            )
}

pub proof fn lemma_insert_position_slot(book: OrderBookSimulator, price: U256, is_ask: bool)
    requires
        book.price_levels@.dom().finite(),
    ensures
        hint_ok(book, price, is_ask, book.insert_position(price, is_ask)),
{
    if !book.has_level(price, is_ask) {
        assert forall|a: Seq<U256>, b: Seq<U256>| #[trigger] book.linked_as(a, b) implies exists|k: int|
            #[trigger] slot_ok(side_of(a, b, is_ask), k, price, is_ask)
                && book.insert_position(price, is_ask) == slot_hint(side_of(a, b, is_ask), k) by {
            let s = side_of(a, b, is_ask);
            let links = links_of(book.price_levels@);
            lemma_side_len(book.price_levels@, book.head_of(is_ask), book.tail_of(is_ask), s, is_ask);
            assert forall|j: int| 0 <= j < s.len() implies s[j] != price by {
                assert(link_ok(links, s, j, is_ask));
            }
            let k = lemma_walk_slot(
                book.price_levels@,
                book.head_of(is_ask),
                book.tail_of(is_ask),
                s,
                is_ask,
                price,
                0,
                book.price_levels@.len(),
            );
            if s.len() > 0 {
                assert(next_in(s, -1) == s[0]);
            } else {
                assert(next_in(s, -1) == zero_u256());
            }
            assert(prev_in(s, 0) == zero_u256());
        }
    }
}

/// Following `next_price` from the `i`th price of a well-formed list meets the rest
/// of the list, in order.
pub proof fn lemma_walk_prices(
    levels: LevelTable,
    head: U256,
    tail: U256,
    s: Seq<U256>,
    is_ask: bool,
    i: int,
    fuel: nat,
)
    requires
        side_linked(links_of(levels), head, tail, s, is_ask),
        0 <= i <= s.len(),
        fuel >= s.len() - i,
    ensures
        walk_prices(levels, next_in(s, i - 1), is_ask, fuel) == s.subrange(i, s.len() as int),
    decreases s.len() - i,
{
    let links = links_of(levels);
    if i == s.len() {
        lemma_zero_view(zero_u256());
        assert(s.subrange(i, s.len() as int) =~= Seq::<U256>::empty());
    } else {
        assert(link_ok(links, s, i, is_ask));
        let key = level_key(s[i], is_ask);
        assert(link_of(levels[key]) == links[key]);
        lemma_walk_prices(levels, head, tail, s, is_ask, i + 1, (fuel - 1) as nat);
        assert(next_in(s, i - 1) == s[i]);
        assert(s.subrange(i, s.len() as int) =~= seq![s[i]] + s.subrange(i + 1, s.len() as int));
    }
}

/// On a well-formed book, the walk from a side's head meets exactly that side's list.
pub proof fn lemma_side_prices(book: OrderBookSimulator, a: Seq<U256>, b: Seq<U256>)
    requires
        book.linked_as(a, b),
        book.price_levels@.dom().finite(),
    ensures
        book.side_prices(true) == a,
        book.side_prices(false) == b,
{
    lemma_side_len(book.price_levels@, book.ask_head, book.ask_tail, a, true);
    lemma_side_len(book.price_levels@, book.bid_head, book.bid_tail, b, false);
    lemma_walk_prices(book.price_levels@, book.ask_head, book.ask_tail, a, true, 0, book.price_levels@.len());
    lemma_walk_prices(book.price_levels@, book.bid_head, book.bid_tail, b, false, 0, book.price_levels@.len());
    if a.len() > 0 {
        assert(next_in(a, -1) == a[0]);
    }
    if b.len() > 0 {
        assert(next_in(b, -1) == b[0]);
    }
    assert(a.subrange(0, a.len() as int) =~= a);
    assert(b.subrange(0, b.len() as int) =~= b);
}

/// Side ordering: on a well-formed book (a new book, and every book that limit
/// insertions below the price bound, cancellations and market orders make from one),
/// the ask prices strictly ascend and the bid prices strictly descend.
pub proof fn law_side_ordering(book: OrderBookSimulator)
    requires
        book.wf(),
    ensures
        forall|i: int, j: int|
            0 <= i < j < book.side_prices(true).len() ==> book.side_prices(true)[i]@
                < book.side_prices(true)[j]@,
        forall|i: int, j: int|
            0 <= i < j < book.side_prices(false).len() ==> book.side_prices(false)[i]@
                > book.side_prices(false)[j]@,
{
    assert(book.price_levels@.dom().finite());
    let (a, b) = choose|a: Seq<U256>, b: Seq<U256>| #[trigger] book.linked_as(a, b);
    lemma_side_prices(book, a, b);
    assert forall|i: int, j: int| 0 <= i < j < a.len() implies a[i]@ < a[j]@ by {
        assert(strictly_before(a[i], a[j], true));
    }
    assert forall|i: int, j: int| 0 <= i < j < b.len() implies b[i]@ > b[j]@ by {
        assert(strictly_before(b[i], b[j], false));
    }
}

/// List integrity of the price lists: on a well-formed book each side's head has no
/// previous price, its tail no next price, and along the list each level's next names
/// the following level, whose previous names it back; both ends are the list's ends.
pub proof fn law_price_list_integrity(book: OrderBookSimulator, is_ask: bool)
    requires
        book.wf(),
    ensures
        ({
            let s = book.side_prices(is_ask);
            &&& s.len() == 0 <==> book.head_of(is_ask)@ == 0
            &&& s.len() == 0 ==> book.tail_of(is_ask)@ == 0
            &&& s.len() > 0 ==> book.head_of(is_ask) == s[0] && book.tail_of(is_ask) == s[s.len()
                - 1]
            &&& s.len() > 0 ==> book.level_at(s[0], is_ask).prev_price@ == 0
            &&& s.len() > 0 ==> book.level_at(s[s.len() - 1], is_ask).next_price@ == 0
            &&& forall|i: int|
                0 <= i < s.len() ==> #[trigger] book.has_level(s[i], is_ask) && book.level_at(
                    s[i],
                    is_ask,
                ).price == s[i]
            &&& forall|i: int|
                0 <= i < s.len() - 1 ==> #[trigger] book.level_at(s[i], is_ask).next_price == s[i
                    + 1] && book.level_at(s[i + 1], is_ask).prev_price == s[i]
        }),
{
    assert(book.price_levels@.dom().finite());
    let (a, b) = choose|a: Seq<U256>, b: Seq<U256>| #[trigger] book.linked_as(a, b);
    lemma_side_prices(book, a, b);
    let s = side_of(a, b, is_ask);
    let levels = book.price_levels@;
    let links = links_of(levels);
    lemma_zero_view(zero_u256());
    assert forall|i: int| 0 <= i < s.len() implies #[trigger] book.has_level(s[i], is_ask)
        && book.level_at(s[i], is_ask).price == s[i] by {
        assert(link_ok(links, s, i, is_ask));
        assert(link_of(levels[level_key(s[i], is_ask)]) == links[level_key(s[i], is_ask)]);
    }
    assert forall|i: int| 0 <= i < s.len() - 1 implies #[trigger] book.level_at(
        s[i],
        is_ask,
    ).next_price == s[i + 1] && book.level_at(s[i + 1], is_ask).prev_price == s[i] by {
        assert(link_ok(links, s, i, is_ask));
        assert(link_ok(links, s, i + 1, is_ask));
        assert(link_of(levels[level_key(s[i], is_ask)]) == links[level_key(s[i], is_ask)]);
        assert(link_of(levels[level_key(s[i + 1], is_ask)]) == links[level_key(s[i + 1], is_ask)]);
    }
    if s.len() > 0 {
        assert(link_ok(links, s, 0, is_ask));
        assert(link_ok(links, s, s.len() - 1, is_ask));
        assert(link_of(levels[level_key(s[0], is_ask)]) == links[level_key(s[0], is_ask)]);
        assert(link_of(levels[level_key(s[s.len() - 1], is_ask)]) == links[level_key(
            s[s.len() - 1],
            is_ask,
        )]);
        lemma_zero_view(s[0]);
    }
}

/// Hint correctness: the hint for a new `(price, is_ask)` is zero or the price of a
/// level of that side; where no level of that price exists, it names the slot between
/// the prices before and after `price`, so that inserting there keeps the side ordered.
pub proof fn law_hint_correct(book: OrderBookSimulator, price: U256, is_ask: bool)
    requires
        book.wf(),
    ensures
        book.insert_position(price, is_ask)@ == 0 || book.has_level(
            book.insert_position(price, is_ask),
            is_ask,
        ),
        !book.has_level(price, is_ask) ==> exists|k: int|
            #[trigger] slot_ok(book.side_prices(is_ask), k, price, is_ask) && book.insert_position(
                price,
                is_ask,
            ) == slot_hint(book.side_prices(is_ask), k),
{
    assert(book.price_levels@.dom().finite());
    let (a, b) = choose|a: Seq<U256>, b: Seq<U256>| #[trigger] book.linked_as(a, b);
    lemma_side_prices(book, a, b);
    lemma_insert_position_slot(book, price, is_ask);
    let s = side_of(a, b, is_ask);
    let levels = book.price_levels@;
    let links = links_of(levels);
    if !book.has_level(price, is_ask) {
        let k = choose|k: int|
            #[trigger] slot_ok(side_of(a, b, is_ask), k, price, is_ask) && book.insert_position(
                price,
                is_ask,
            ) == slot_hint(side_of(a, b, is_ask), k);
        assert(side_of(a, b, is_ask) == book.side_prices(is_ask));
        if k > 0 {
            assert(link_ok(links, s, k - 1, is_ask));
        } else {
            lemma_zero_view(zero_u256());
        }
    }
}

/// Empty-level destruction: on a book built from a new one by limit insertions of
/// non-zero ids, cancellations and market orders, a level is in the table exactly when
/// it has a head order.
pub proof fn law_no_empty_levels(book: OrderBookSimulator, price: U256, is_ask: bool)
    requires
        book.levels_occupied(),
    ensures
        book.has_level(price, is_ask) ==> book.level_at(price, is_ask).head_order_id@ != 0,
{
}

/// Fill conservation, trade by trade: a limit trade of `t` fills the bid and the ask by
/// `t` each, before either is taken out.
pub proof fn law_limit_trade_fills_both(
    before: OrderBookSimulator,
    filled: OrderBookSimulator,
    between: OrderBookSimulator,
    after: OrderBookSimulator,
    bid: U256,
    ask: U256,
    t: nat,
)
    requires
        crate::orderbook::limit_trade_done(before, filled, between, after, bid, ask, t),
        key_of(bid) != key_of(ask),
        before.has_order(bid),
        before.has_order(ask),
    ensures
        filled.order_at(bid).filled_amount@ == before.order_at(bid).filled_amount@ + t,
        filled.order_at(ask).filled_amount@ == before.order_at(ask).filled_amount@ + t,
{
    assert(filled.orders@.contains_key(key_of(bid)));
    assert(filled.orders@.contains_key(key_of(ask)));
}

/// Fill conservation, trade by trade: a market trade of `t` fills the market order and
/// the limit order by `t` each, before either is taken out.
pub proof fn law_market_trade_fills_both(
    before: OrderBookSimulator,
    filled: OrderBookSimulator,
    between: OrderBookSimulator,
    after: OrderBookSimulator,
    m: U256,
    l: U256,
    is_market_ask: bool,
    t: nat,
)
    requires
        crate::orderbook::market_trade_done(before, filled, between, after, m, l, is_market_ask, t),
        key_of(m) != key_of(l),
        before.has_order(m),
        before.has_order(l),
    ensures
        filled.order_at(m).filled_amount@ == before.order_at(m).filled_amount@ + t,
        filled.order_at(l).filled_amount@ == before.order_at(l).filled_amount@ + t,
{
    assert(filled.orders@.contains_key(key_of(m)));
    assert(filled.orders@.contains_key(key_of(l)));
}

/// Matching monotonicity, as far as it holds: when the limit loop of post-insertion
/// matching stopped before its bound, the best bid and best ask no longer cross with
/// head orders that can trade.
pub proof fn law_limit_loop_uncrosses(
    trace: Seq<OrderBookSimulator>,
    before: OrderBookSimulator,
    after: OrderBookSimulator,
    max: nat,
)
    requires
        crate::orderbook::limit_run(trace, before, after, max),
        trace.len() < max + 1,
    ensures
        !crate::orderbook::limit_cross(after),
{
}

/// The `j`th id of `l` is a stored order, not zero, whose next link names the id after
/// it in `l`, or zero at the end.
pub open spec fn chain_ok_at(o: OrderTable, l: Seq<U256>, j: int) -> bool {
    &&& l[j]@ != 0
    &&& o.contains_key(key_of(l[j]))
    &&& o[key_of(l[j])].next_order_id == next_in(l, j)
}

/// `l` is a chain of stored orders along their next links, ending at a zero link, each
/// order once.
pub open spec fn order_chain(o: OrderTable, l: Seq<U256>) -> bool {
    &&& forall|j: int| 0 <= j < l.len() ==> #[trigger] chain_ok_at(o, l, j)
    &&& forall|j1: int, j2: int|
        0 <= j1 < j2 < l.len() ==> key_of(#[trigger] l[j1]) != key_of(#[trigger] l[j2])
}

pub proof fn lemma_chain_walk(o: OrderTable, l: Seq<U256>, i: int, fuel: nat)
    requires
        order_chain(o, l),
        0 <= i <= l.len(),
        fuel >= l.len() - i,
    ensures
        walk_orders(o, next_in(l, i - 1), fuel) == l.subrange(i, l.len() as int),
    decreases l.len() - i,
{
    lemma_zero_view(zero_u256());
    if i == l.len() {
        assert(l.subrange(i, l.len() as int) =~= Seq::<U256>::empty());
    } else {
        assert(chain_ok_at(o, l, i));
        assert(next_in(l, i - 1) == l[i]);
        lemma_chain_walk(o, l, i + 1, (fuel - 1) as nat);
        assert(l.subrange(i, l.len() as int) =~= seq![l[i]] + l.subrange(i + 1, l.len() as int));
    }
}

pub proof fn lemma_chain_len(o: OrderTable, l: Seq<U256>)
    requires
        order_chain(o, l),
        o.dom().finite(),
    ensures
        l.len() <= o.dom().len(),
{
    let ks = l.map_values(|p: U256| key_of(p));
    assert forall|x: int, y: int| 0 <= x < ks.len() && 0 <= y < ks.len() && x != y implies ks[x]
        != ks[y] by {
        if x < y {
            assert(key_of(l[x]) != key_of(l[y]));
        } else {
            assert(key_of(l[y]) != key_of(l[x]));
        }
    }
    assert(ks.no_duplicates());
    ks.unique_seq_to_set();
    assert forall|kk: (u128, u128)| ks.to_set().contains(kk) implies o.dom().contains(kk) by {
        assert(ks.contains(kk));
        let j = choose|j: int| 0 <= j < ks.len() && ks[j] == kk;
        assert(chain_ok_at(o, l, j));
    }
    vstd::set_lib::lemma_len_subset(ks.to_set(), o.dom());
}

/// Appending at an existing level: where the level's orders form the chain `l` from its
/// head to its tail, placing a fresh order there makes the level's order list `l`
/// followed by the new id.
pub proof fn law_append_to_level(
    before: OrderBookSimulator,
    ins: OrderBookSimulator,
    id: U256,
    price: U256,
    amount: U256,
    is_ask: bool,
    l: Seq<U256>,
)
    requires
        crate::orderbook::limit_placed(before, ins, id, price, amount, is_ask),
        before.has_level(price, is_ask),
        order_chain(before.orders@, l),
        l.len() > 0,
        l[0] == before.level_at(price, is_ask).head_order_id,
        l[l.len() - 1] == before.level_at(price, is_ask).tail_order_id,
        id@ != 0,
        !before.has_order(id),
    ensures
        before.level_orders(price, is_ask) == l,
        ins.level_orders(price, is_ask) == l.push(id),
{
    assert(before.orders@.dom().finite());
    lemma_zero_view(zero_u256());
    let last = l.len() - 1;
    assert(chain_ok_at(before.orders@, l, last));
    let ot = l[last];
    lemma_zero_view(next_in(l, last));
    lemma_chain_len(before.orders@, l);
    lemma_chain_walk(before.orders@, l, 0, before.orders@.len());
    assert(l.subrange(0, l.len() as int) =~= l);
    assert(next_in(l, -1) == l[0]);
    let l2 = l.push(id);
    let ol0 = olinks_of(before.orders@);
    assert(key_of(ot) != key_of(id));
    assert(olinks_of(ins.orders@) == set_onext(ol0, key_of(ot), id).insert(
        key_of(id),
        (zero_u256(), ot),
    ));
    assert forall|j: int| 0 <= j < l2.len() implies #[trigger] chain_ok_at(ins.orders@, l2, j) by {
        if j < last {
            assert(chain_ok_at(before.orders@, l, j));
            assert(key_of(l[j]) != key_of(ot));
            assert(key_of(l[j]) != key_of(id));
            assert(olinks_of(ins.orders@)[key_of(l[j])] == ol0[key_of(l[j])]);
            assert(l2[j] == l[j]);
        } else if j == last {
            assert(olinks_of(ins.orders@)[key_of(ot)].0 == id);
        } else {
            assert(olinks_of(ins.orders@)[key_of(id)].0 == zero_u256());
        }
    }
    assert forall|j1: int, j2: int| 0 <= j1 < j2 < l2.len() implies key_of(#[trigger] l2[j1])
        != key_of(#[trigger] l2[j2]) by {
        if j2 < l.len() {
            assert(key_of(l[j1]) != key_of(l[j2]));
        } else {
            assert(chain_ok_at(before.orders@, l, j1));
        }
    }
    assert(ins.orders@.dom().finite());
    lemma_chain_len(ins.orders@, l2);
    lemma_chain_walk(ins.orders@, l2, 0, ins.orders@.len());
    assert(l2.subrange(0, l2.len() as int) =~= l2);
    assert(next_in(l2, -1) == l2[0]);
}

proof fn lemma_level_away(a: LevelTable, b: LevelTable, x: (u128, u128), k: (u128, u128))
    requires
        heads_of(a).remove(x) == heads_of(b).remove(x),
        tails_of(a).remove(x) == tails_of(b).remove(x),
        volumes_of(a).remove(x) == volumes_of(b).remove(x),
        k != x,
    ensures
        a.contains_key(k) == b.contains_key(k),
        a.contains_key(k) ==> a[k].head_order_id == b[k].head_order_id && a[k].tail_order_id
            == b[k].tail_order_id && a[k].total_volume == b[k].total_volume,
{
    assert(heads_of(a).remove(x).contains_key(k) == a.contains_key(k));
    assert(heads_of(b).remove(x).contains_key(k) == b.contains_key(k));
    if a.contains_key(k) {
        assert(heads_of(a).remove(x)[k] == a[k].head_order_id);
        assert(heads_of(b).remove(x)[k] == b[k].head_order_id);
        assert(tails_of(a).remove(x)[k] == a[k].tail_order_id);
        assert(tails_of(b).remove(x)[k] == b[k].tail_order_id);
        assert(volumes_of(a).remove(x)[k] == a[k].total_volume);
        assert(volumes_of(b).remove(x)[k] == b[k].total_volume);
    }
}

/// Insert then cancel: a limit order placed without triggering any trade, then
/// cancelled, leaves the order table, the level table's volumes, heads and tails, and,
/// where the level already existed, its links as they were.
pub proof fn law_insert_then_cancel(
    s0: OrderBookSimulator,
    ins: OrderBookSimulator,
    s1: OrderBookSimulator,
    s2: OrderBookSimulator,
    id: U256,
    price: U256,
    amount: U256,
    is_ask: bool,
)
    requires
        crate::orderbook::limit_placed(s0, ins, id, price, amount, is_ask),
        crate::orderbook::matched(ins, s1, crate::orderbook::MAX_MATCH_ITERATIONS as nat),
        !crate::orderbook::limit_cross(ins),
        !crate::orderbook::market_cross(ins, false),
        !crate::orderbook::market_cross(ins, true),
        crate::orderbook::order_taken_out(s1, s2, id, is_ask),
        id@ != 0,
        !s0.has_order(id),
        s0.levels_occupied(),
        ({
            let had = s0.has_level(price, is_ask);
            let ot = if had {
                s0.level_at(price, is_ask).tail_order_id
            } else {
                zero_u256()
            };
            &&& (ot@ == 0 && (!had || s0.level_at(price, is_ask).head_order_id@ == 0)) || (ot@ != 0
                && s0.has_order(ot) && s0.order_at(ot).next_order_id@ == 0)
            &&& had ==> s0.level_at(price, is_ask).total_volume@ + amount@ < crate::u256::u256_bound()
        }),
    ensures
        s2.orders@.dom() == s0.orders@.dom(),
        order_data_of(s2.orders@) == order_data_of(s0.orders@),
        olinks_of(s2.orders@) == olinks_of(s0.orders@),
        s2.price_levels@.dom() == s0.price_levels@.dom(),
        volumes_of(s2.price_levels@) == volumes_of(s0.price_levels@),
        heads_of(s2.price_levels@) == heads_of(s0.price_levels@),
        tails_of(s2.price_levels@) == tails_of(s0.price_levels@),
        s0.has_level(price, is_ask) ==> s2.links_kept(&s0),
{
    let max = crate::orderbook::MAX_MATCH_ITERATIONS as nat;
    let mid = choose|mid: OrderBookSimulator| #[trigger] crate::orderbook::matched_via(ins, mid, s1, max);
    let t0 = choose|t0: Seq<OrderBookSimulator>| #[trigger] crate::orderbook::limit_run(t0, ins, mid, max);
    if t0.len() > 1 {
        assert(crate::orderbook::limit_step_at(t0, 0));
    }
    assert(mid == ins);
    let (t1, t2) = choose|t1: Seq<OrderBookSimulator>, t2: Seq<OrderBookSimulator>|
        #[trigger] crate::orderbook::market_runs(t1, t2, mid, s1, max);
    if t1.len() > 1 {
        assert(crate::orderbook::market_step_at(t1, 0, false));
    }
    assert(t1[t1.len() - 1] == ins);
    if t2.len() > 1 {
        assert(crate::orderbook::market_step_at(t2, 0, true));
    }
    assert(s1 == ins);
    lemma_zero_view(zero_u256());
    let had = s0.has_level(price, is_ask);
    let ot = if had {
        s0.level_at(price, is_ask).tail_order_id
    } else {
        zero_u256()
    };
    let k = key_of(id);
    let lk = level_key(price, is_ask);
    let o = ins.order_at(id);
    lemma_zero_view(ot);
    if ot@ != 0 {
        assert(key_of(ot) != k);
    }
    let ol0 = olinks_of(s0.orders@);
    assert(olinks_of(ins.orders@)[k] == (o.next_order_id, o.prev_order_id));
    assert(o.prev_order_id == ot);
    assert(o.next_order_id == zero_u256());
    // the unlinked links, then the order deleted
    let m2 = choose|m2: OrderBookSimulator|
        #[trigger] crate::orderbook::unlinked_from_level(ins, m2, o, lk) && olinks_of(s2.orders@)
            == olinks_of(m2.orders@).remove(k);
    if ot@ != 0 {
        assert(olinks_of(s2.orders@) =~= ol0);
    } else {
        assert(olinks_of(s2.orders@) =~= ol0);
    }
    assert(order_data_of(s2.orders@) =~= order_data_of(s0.orders@));
    assert(order_data_of(s2.orders@).dom() == s2.orders@.dom());
    assert(order_data_of(s0.orders@).dom() == s0.orders@.dom());
    assert(s2.orders@.dom() =~= s0.orders@.dom());
    assert(heads_of(ins.price_levels@)[lk] == ins.price_levels@[lk].head_order_id);
    assert(tails_of(ins.price_levels@)[lk] == ins.price_levels@[lk].tail_order_id);
    assert(volumes_of(ins.price_levels@)[lk] == ins.price_levels@[lk].total_volume);
    assert forall|kk: (u128, u128)| kk != lk implies s2.price_levels@.contains_key(kk)
        == s0.price_levels@.contains_key(kk) && (s0.price_levels@.contains_key(kk) ==> s2.price_levels@[kk].head_order_id
        == s0.price_levels@[kk].head_order_id && s2.price_levels@[kk].tail_order_id
        == s0.price_levels@[kk].tail_order_id && s2.price_levels@[kk].total_volume
        == s0.price_levels@[kk].total_volume) by {
        lemma_level_away(s2.price_levels@, ins.price_levels@, lk, kk);
        lemma_level_away(ins.price_levels@, s0.price_levels@, lk, kk);
    }
    if had {
        assert(s0.price_levels@.contains_key(lk));
        assert(s0.level_at(price, is_ask).head_order_id@ != 0);
        assert(ot@ != 0);
        assert(s2.price_levels@.contains_key(lk));
        assert(heads_of(s2.price_levels@)[lk] == s2.price_levels@[lk].head_order_id);
        assert(tails_of(s2.price_levels@)[lk] == s2.price_levels@[lk].tail_order_id);
        assert(volumes_of(s2.price_levels@)[lk] == s2.price_levels@[lk].total_volume);
        assert(heads_of(s0.price_levels@)[lk] == s0.price_levels@[lk].head_order_id);
        assert(tails_of(s0.price_levels@)[lk] == s0.price_levels@[lk].tail_order_id);
        assert(volumes_of(s0.price_levels@)[lk] == s0.price_levels@[lk].total_volume);
        crate::u256::lemma_view_order(
            s2.price_levels@[lk].total_volume,
            s0.price_levels@[lk].total_volume,
        );
        assert(heads_of(s2.price_levels@) =~= heads_of(s0.price_levels@));
        assert(tails_of(s2.price_levels@) =~= tails_of(s0.price_levels@));
        assert(volumes_of(s2.price_levels@) =~= volumes_of(s0.price_levels@));
        assert(s2.price_levels@.dom() =~= s0.price_levels@.dom());
    } else {
        assert(!s2.price_levels@.contains_key(lk));
        assert(heads_of(s2.price_levels@) =~= heads_of(s0.price_levels@));
        assert(tails_of(s2.price_levels@) =~= tails_of(s0.price_levels@));
        assert(volumes_of(s2.price_levels@) =~= volumes_of(s0.price_levels@));
        assert(s2.price_levels@.dom() =~= s0.price_levels@.dom());
    }
}

} // verus!
