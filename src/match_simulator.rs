use vstd::prelude::*;
use crate::u256::{zero_u256, U256};

verus! {

/// An order of the simplified local book used for match prediction.
#[derive(Clone, Copy, Debug, PartialEq, Eq, Structural)]
pub struct LocalOrder {
    pub id: U256,
    pub price: U256,
    pub amount: U256,
    pub filled_amount: U256,
    pub is_market: bool,
}

/// Bids by descending price, asks by ascending price, and the two market queues.
#[derive(Clone, Debug)]
pub struct LocalOrderBook {
    pub bids: Vec<LocalOrder>,
    pub asks: Vec<LocalOrder>,
    pub market_bids: Vec<LocalOrder>,
    pub market_asks: Vec<LocalOrder>,
}

/// What an incoming order is predicted to do against the local book.
#[derive(Clone, Debug)]
pub struct MatchPrediction {
    pub will_match: bool,
    pub expected_filled_amount: U256,
    pub will_fully_fill: bool,
    pub matched_order_ids: Vec<U256>,
    pub match_prices: Vec<U256>,
    /// Each counterparty's filled amount after its match.
    pub matched_fills: Vec<U256>,
    /// Whether each counterparty is filled in full by its match.
    pub matched_full: Vec<bool>,
}

/// One intended change to the book.
#[derive(Clone, Copy, Debug)]
pub enum StateChange {
    AddOrder { order: LocalOrder, is_ask: bool },
    RemoveOrder { order_id: U256, is_ask: bool, is_market: bool },
    UpdateFilledAmount { order_id: U256, filled_amount: U256, is_ask: bool },
}

/// The changes a submitted transaction is predicted to make, held until its fate is known.
#[derive(Clone, Debug)]
pub struct PendingChange {
    pub tx_hash: [u8; 32],
    pub changes: Vec<StateChange>,
    /// When the entry was recorded, in milliseconds of the caller's clock.
    pub timestamp_ms: u64,
}

/// The local book and the pending predictions keyed by transaction hash.
#[derive(Clone, Debug)]
pub struct MatchSimulator {
    pub local_orderbook: LocalOrderBook,
    pub pending_changes: Vec<PendingChange>,
}

/// What is left to fill of an order, zero where nothing is.
pub open spec fn available(o: LocalOrder) -> nat {
    if o.filled_amount@ <= o.amount@ {
        (o.amount@ - o.filled_amount@) as nat
    } else {
        0
    }
}

pub open spec fn min_nat(a: nat, b: nat) -> nat {
    if a <= b {
        a
    } else {
        b
    }
}

/// Whether a resting order's price stops an incoming limit order at `price`: an incoming
/// ask stops at bids below its price, an incoming bid at asks above it.
pub open spec fn price_stops(o: LocalOrder, price: U256, check_price: bool, incoming_ask: bool) -> bool {
    check_price && if incoming_ask {
        o.price@ < price@
    } else {
        o.price@ > price@
    }
}

/// What is left of `rem` after taking, in order, from `orders[i..]`.
pub open spec fn left_after(
    orders: Seq<LocalOrder>,
    i: int,
    rem: nat,
    price: U256,
    check_price: bool,
    incoming_ask: bool,
) -> nat
    decreases orders.len() - i,
{
    if i < 0 || i >= orders.len() || rem == 0 || price_stops(orders[i], price, check_price, incoming_ask) {
        rem
    } else {
        left_after(
            orders,
            i + 1,
            (rem - min_nat(rem, available(orders[i]))) as nat,
            price,
            check_price,
            incoming_ask,
        )
    }
}

/// The ids taken from, and the price each is taken at (the order's own price, or the
/// incoming `price` for a market queue), while taking from `orders[i..]`.
pub open spec fn taken(
    orders: Seq<LocalOrder>,
    i: int,
    rem: nat,
    price: U256,
    check_price: bool,
    incoming_ask: bool,
    own_price: bool,
) -> Seq<(U256, U256)>
    decreases orders.len() - i,
{
    if i < 0 || i >= orders.len() || rem == 0 || price_stops(orders[i], price, check_price, incoming_ask) {
        Seq::empty()
    } else {
        let rest = taken(
            orders,
            i + 1,
            (rem - min_nat(rem, available(orders[i]))) as nat,
            price,
            check_price,
            incoming_ask,
            own_price,
        );
        if available(orders[i]) == 0 {
            rest
        } else {
            seq![(orders[i].id, if own_price { orders[i].price } else { price })] + rest
        }
    }
}

/// For each order taken from, in the order of `taken`: its filled amount after the
/// match, and whether the match fills it in full.
pub open spec fn taken_fills(
    orders: Seq<LocalOrder>,
    i: int,
    rem: nat,
    price: U256,
    check_price: bool,
    incoming_ask: bool,
) -> Seq<(nat, bool)>
    decreases orders.len() - i,
{
    if i < 0 || i >= orders.len() || rem == 0 || price_stops(orders[i], price, check_price, incoming_ask) {
        Seq::empty()
    } else {
        let t = min_nat(rem, available(orders[i]));
        let rest = taken_fills(orders, i + 1, (rem - t) as nat, price, check_price, incoming_ask);
        if available(orders[i]) == 0 {
            rest
        } else {
            seq![(orders[i].filled_amount@ + t, t == available(orders[i]))] + rest
        }
    }
}

/// What an incoming order leaves unfilled: the opposite market queue first, then the
/// opposite limit side in its order, stopping at the first price that does not cross
/// unless the incoming order is a market order.
pub open spec fn predicted_left(book: LocalOrderBook, price: U256, amount: U256, is_market: bool, is_ask: bool) -> nat {
    let (market, limit) = if is_ask {
        (book.market_bids@, book.bids@)
    } else {
        (book.market_asks@, book.asks@)
    };
    let rem = left_after(market, 0, amount@, price, false, is_ask);
    left_after(limit, 0, rem, price, !is_market, is_ask)
}

/// The counterparties of an incoming order, with the price of each match.
pub open spec fn predicted_matches(book: LocalOrderBook, price: U256, amount: U256, is_market: bool, is_ask: bool) -> Seq<(U256, U256)> {
    let (market, limit) = if is_ask {
        (book.market_bids@, book.bids@)
    } else {
        (book.market_asks@, book.asks@)
    };
    let rem = left_after(market, 0, amount@, price, false, is_ask);
    taken(market, 0, amount@, price, false, is_ask, false) + taken(
        limit,
        0,
        rem,
        price,
        !is_market,
        is_ask,
        true,
    )
}

/// The fills each counterparty of an incoming order is predicted to reach.
pub open spec fn predicted_fills(book: LocalOrderBook, price: U256, amount: U256, is_market: bool, is_ask: bool) -> Seq<(nat, bool)> {
    let (market, limit) = if is_ask {
        (book.market_bids@, book.bids@)
    } else {
        (book.market_asks@, book.asks@)
    };
    let rem = left_after(market, 0, amount@, price, false, is_ask);
    taken_fills(market, 0, amount@, price, false, is_ask) + taken_fills(
        limit,
        0,
        rem,
        price,
        !is_market,
        is_ask,
    )
}

/// The prediction for an incoming order, in full.
pub open spec fn is_prediction(
    p: MatchPrediction,
    book: LocalOrderBook,
    price: U256,
    amount: U256,
    is_market: bool,
    is_ask: bool,
) -> bool {
    let left = predicted_left(book, price, amount, is_market, is_ask);
    let m = predicted_matches(book, price, amount, is_market, is_ask);
    &&& p.expected_filled_amount@ == amount@ - left
    &&& p.will_match == (left < amount@)
    &&& p.will_fully_fill == (left == 0)
    &&& p.matched_order_ids@ == m.map_values(|x: (U256, U256)| x.0)
    &&& p.match_prices@ == m.map_values(|x: (U256, U256)| x.1)
    &&& p.matched_fills@.map_values(|f: U256| f@) == predicted_fills(
        book,
        price,
        amount,
        is_market,
        is_ask,
    ).map_values(|x: (nat, bool)| x.0)
    &&& p.matched_full@ == predicted_fills(book, price, amount, is_market, is_ask).map_values(
        |x: (nat, bool)| x.1,
    )
}

/// Byte-wise equality of two transaction hashes.
pub fn same_hash(a: &[u8; 32], b: &[u8; 32]) -> (r: bool)
    ensures
        r == (a@ == b@),
{
    let mut i: usize = 0;
    while i < 32
        invariant
            0 <= i <= 32,
            a@.len() == 32 && b@.len() == 32,
            forall|j: int| 0 <= j < i ==> a@[j] == b@[j],
        decreases 32 - i,
    {
        if a[i] != b[i] {
            return false;
        }
        i = i + 1;
    }
    assert(a@ =~= b@);
    true
}

/// Takes from `orders` in order for an incoming order with `remaining` left; returns
/// what is left, the counterparties, and the price of each match.
fn take_from(
    orders: &Vec<LocalOrder>,
    remaining: U256,
    price: U256,
    check_price: bool,
    incoming_ask: bool,
    own_price: bool,
) -> (r: (U256, Vec<U256>, Vec<U256>, Vec<U256>, Vec<bool>))
    ensures
        r.3@.map_values(|f: U256| f@) == taken_fills(
            orders@,
            0,
            remaining@,
            price,
            check_price,
            incoming_ask,
        ).map_values(|x: (nat, bool)| x.0),
        r.4@ == taken_fills(orders@, 0, remaining@, price, check_price, incoming_ask).map_values(
            |x: (nat, bool)| x.1,
        ),
        r.0@ == left_after(orders@, 0, remaining@, price, check_price, incoming_ask),
        r.1@ == taken(orders@, 0, remaining@, price, check_price, incoming_ask, own_price).map_values(
            |x: (U256, U256)| x.0,
        ),
        r.2@ == taken(orders@, 0, remaining@, price, check_price, incoming_ask, own_price).map_values(
            |x: (U256, U256)| x.1,
        ),
{
    let ghost o = orders@;
    let ghost total = taken(o, 0, remaining@, price, check_price, incoming_ask, own_price);
    let ghost mut done: Seq<(U256, U256)> = Seq::empty();
    let ghost total2 = taken_fills(o, 0, remaining@, price, check_price, incoming_ask);
    let ghost mut done2: Seq<(nat, bool)> = Seq::empty();
    let mut ids: Vec<U256> = Vec::new();
    let mut prices: Vec<U256> = Vec::new();
    let mut fills: Vec<U256> = Vec::new();
    let mut fulls: Vec<bool> = Vec::new();
    let mut rem = remaining;
    let mut i: usize = 0;
    while i < orders.len()
        invariant
            o == orders@,
            0 <= i <= o.len(),
            left_after(o, i as int, rem@, price, check_price, incoming_ask) == left_after(
                o,
                0,
                remaining@,
                price,
                check_price,
                incoming_ask,
            ),
            done + taken(o, i as int, rem@, price, check_price, incoming_ask, own_price) == total,
            ids@ == done.map_values(|x: (U256, U256)| x.0),
            prices@ == done.map_values(|x: (U256, U256)| x.1),
            done2 + taken_fills(o, i as int, rem@, price, check_price, incoming_ask) == total2,
            fills@.map_values(|f: U256| f@) == done2.map_values(|x: (nat, bool)| x.0),
            fulls@ == done2.map_values(|x: (nat, bool)| x.1),
        ensures
            taken(o, i as int, rem@, price, check_price, incoming_ask, own_price) =~= Seq::<
                (U256, U256),
            >::empty(),
            taken_fills(o, i as int, rem@, price, check_price, incoming_ask) =~= Seq::<
                (nat, bool),
            >::empty(),
            left_after(o, i as int, rem@, price, check_price, incoming_ask) == rem@,
        decreases o.len() - i,
    {
        if rem.is_zero() {
            break;
        }
        let ord = orders[i];
        let stop = check_price && if incoming_ask {
            ord.price.lt(&price)
        } else {
            price.lt(&ord.price)
        };
        if stop {
            break;
        }
        let avail = ord.amount.saturating_sub(&ord.filled_amount);
        if avail.is_zero() {
            i = i + 1;
            continue;
        }
        let trade = rem.min(&avail);
        let ghost old_rem = rem@;
        rem = rem.sub(&trade);
        let p = if own_price {
            ord.price
        } else {
            price
        };
        proof {
            crate::u256::lemma_view_order(ord.amount, ord.amount);
            crate::u256::lemma_view_order(trade, avail);
        }
        let new_fill = ord.filled_amount.add(&trade);
        let full = trade == avail;
        ids.push(ord.id);
        prices.push(p);
        let ghost old_fills = fills@;
        fills.push(new_fill);
        fulls.push(full);
        proof {
            let y = (new_fill@, full);
            let rest2 = taken_fills(o, i + 1, rem@, price, check_price, incoming_ask);
            assert(taken_fills(o, i as int, old_rem, price, check_price, incoming_ask) == seq![y]
                + rest2);
            assert(done2 + (seq![y] + rest2) =~= done2.push(y) + rest2);
            assert(fills@.map_values(|f: U256| f@) =~= old_fills.map_values(|f: U256| f@).push(
                new_fill@,
            ));
            assert(done2.push(y).map_values(|x: (nat, bool)| x.0) =~= done2.map_values(
                |x: (nat, bool)| x.0,
            ).push(y.0));
            assert(done2.push(y).map_values(|x: (nat, bool)| x.1) =~= done2.map_values(
                |x: (nat, bool)| x.1,
            ).push(y.1));
            done2 = done2.push(y);
        }
        proof {
            let x = (ord.id, p);
            let rest = taken(o, i + 1, rem@, price, check_price, incoming_ask, own_price);
            assert(taken(o, i as int, old_rem, price, check_price, incoming_ask, own_price) == seq![x]
                + rest);
            assert(done + (seq![x] + rest) =~= done.push(x) + rest);
            assert(done.push(x).map_values(|x: (U256, U256)| x.0) =~= done.map_values(
                |x: (U256, U256)| x.0,
            ).push(x.0));
            assert(done.push(x).map_values(|x: (U256, U256)| x.1) =~= done.map_values(
                |x: (U256, U256)| x.1,
            ).push(x.1));
            done = done.push(x);
        }
        i = i + 1;
    }
    proof {
        assert(done + Seq::<(U256, U256)>::empty() =~= done);
        assert(done2 + Seq::<(nat, bool)>::empty() =~= done2);
    }
    (rem, ids, prices, fills, fulls)
}

impl MatchSimulator {
    pub fn new() -> (r: Self)
        ensures
            r.local_orderbook.bids@.len() == 0 && r.local_orderbook.asks@.len() == 0,
            r.local_orderbook.market_bids@.len() == 0 && r.local_orderbook.market_asks@.len() == 0,
            r.pending_changes@.len() == 0,
    {
        MatchSimulator {
            local_orderbook: LocalOrderBook {
                bids: Vec::new(),
                asks: Vec::new(),
                market_bids: Vec::new(),
                market_asks: Vec::new(),
            },
            pending_changes: Vec::new(),
        }
    }

    /// Predicts an incoming order: the opposite market queue first, then the opposite
    /// limit side while its price crosses (always, for a market order).
    fn predict_match(&self, price: U256, amount: U256, is_market: bool, is_ask: bool) -> (r: MatchPrediction)
        ensures
            is_prediction(r, self.local_orderbook, price, amount, is_market, is_ask),
    {
        let book = &self.local_orderbook;
        let (market, limit) = if is_ask {
            (&book.market_bids, &book.bids)
        } else {
            (&book.market_asks, &book.asks)
        };
        let (rem, mut ids, mut prices, mut fills, mut fulls) = take_from(
            market,
            amount,
            price,
            false,
            is_ask,
            false,
        );
        let (left, mut ids2, mut prices2, mut fills2, mut fulls2) = take_from(
            limit,
            rem,
            price,
            !is_market,
            is_ask,
            true,
        );
        let ghost f1 = fills@;
        let ghost f2 = fills2@;
        ids.append(&mut ids2);
        prices.append(&mut prices2);
        fills.append(&mut fills2);
        fulls.append(&mut fulls2);
        proof {
            assert(fills@.map_values(|f: U256| f@) =~= f1.map_values(|f: U256| f@) + f2.map_values(
                |f: U256| f@,
            ));
            assert(fills@.map_values(|f: U256| f@) =~= predicted_fills(
                *book,
                price,
                amount,
                is_market,
                is_ask,
            ).map_values(|x: (nat, bool)| x.0));
            assert(fulls@ =~= predicted_fills(*book, price, amount, is_market, is_ask).map_values(
                |x: (nat, bool)| x.1,
            ));
            assert(ids@ =~= predicted_matches(*book, price, amount, is_market, is_ask).map_values(
                |x: (U256, U256)| x.0,
            ));
            assert(prices@ =~= predicted_matches(*book, price, amount, is_market, is_ask).map_values(
                |x: (U256, U256)| x.1,
            ));
            lemma_left_after_le(market@, 0, amount@, price, false, is_ask);
            lemma_left_after_le(limit@, 0, rem@, price, !is_market, is_ask);
        }
        let filled = amount.sub(&left);
        MatchPrediction {
            will_match: !filled.is_zero(),
            expected_filled_amount: filled,
            will_fully_fill: left.is_zero(),
            matched_order_ids: ids,
            match_prices: prices,
            matched_fills: fills,
            matched_full: fulls,
        }
    }

    /// Predicts a limit order at `price`.
    pub fn predict_limit_order_match(&self, price: U256, amount: U256, is_ask: bool) -> (r: MatchPrediction)
        ensures
            is_prediction(r, self.local_orderbook, price, amount, false, is_ask),
    {
        self.predict_match(price, amount, false, is_ask)
    }

    /// Predicts a market order: it takes from the whole opposite side. Its market matches
    /// are priced zero for a sell and at the largest value for a buy.
    pub fn predict_market_order_match(&self, amount: U256, is_ask: bool) -> (r: MatchPrediction)
        ensures
            is_prediction(
                r,
                self.local_orderbook,
                if is_ask {
                    zero_u256()
                } else {
                    U256 { hi: u128::MAX, lo: u128::MAX }
                },
                amount,
                true,
                is_ask,
            ),
    {
        let price = if is_ask {
            U256::zero()
        } else {
            U256 { hi: u128::MAX, lo: u128::MAX }
        };
        self.predict_match(price, amount, true, is_ask)
    }
}

proof fn lemma_left_after_le(
    orders: Seq<LocalOrder>,
    i: int,
    rem: nat,
    price: U256,
    check_price: bool,
    incoming_ask: bool,
)
    ensures
        left_after(orders, i, rem, price, check_price, incoming_ask) <= rem,
    decreases orders.len() - i,
{
    if i < 0 || i >= orders.len() || rem == 0 || price_stops(orders[i], price, check_price, incoming_ask) {
    } else {
        lemma_left_after_le(
            orders,
            i + 1,
            (rem - min_nat(rem, available(orders[i]))) as nat,
            price,
            check_price,
            incoming_ask,
        );
    }
}


/// The local book as four sequences.
pub struct LocalBookView {
    pub bids: Seq<LocalOrder>,
    pub asks: Seq<LocalOrder>,
    pub market_bids: Seq<LocalOrder>,
    pub market_asks: Seq<LocalOrder>,
}

impl View for LocalOrderBook {
    type V = LocalBookView;

    open spec fn view(&self) -> LocalBookView {
        LocalBookView {
            bids: self.bids@,
            asks: self.asks@,
            market_bids: self.market_bids@,
            market_asks: self.market_asks@,
        }
    }
}

/// The first index at or after `from` holding order `id`; -1 where there is none.
pub open spec fn first_index_of(s: Seq<LocalOrder>, id: U256, from: int) -> int
    decreases s.len() - from,
{
    if from < 0 || from >= s.len() {
        -1
    } else if s[from].id == id {
        from
    } else {
        first_index_of(s, id, from + 1)
    }
}

/// `s` with the first order `id` marked fully filled.
pub open spec fn filled_first(s: Seq<LocalOrder>, id: U256) -> Seq<LocalOrder> {
    let j = first_index_of(s, id, 0);
    if j >= 0 {
        s.update(j, LocalOrder { filled_amount: s[j].amount, ..s[j] })
    } else {
        s
    }
}

/// Where a new limit order at `price` goes: after every order of equal or better
/// price (ascending for asks, descending for bids).
pub open spec fn sorted_slot(s: Seq<LocalOrder>, price: U256, ascending: bool, from: int) -> int
    decreases s.len() - from,
{
    if from < 0 || from >= s.len() {
        s.len() as int
    } else if (ascending && s[from].price@ > price@) || (!ascending && s[from].price@ < price@) {
        from
    } else {
        sorted_slot(s, price, ascending, from + 1)
    }
}

pub open spec fn without_id(s: Seq<LocalOrder>, id: U256) -> Seq<LocalOrder> {
    s.filter(|o: LocalOrder| o.id != id)
}

/// How many counterparties a prediction describes in full: its three lists are read
/// together.
pub open spec fn counterparties(p: MatchPrediction) -> int {
    let a = p.matched_order_ids@.len();
    let b = p.matched_fills@.len();
    let c = p.matched_full@.len();
    if a <= b && a <= c {
        a as int
    } else if b <= c {
        b as int
    } else {
        c as int
    }
}

/// The changes recorded for a prediction: a fill update with its new filled amount for
/// each counterparty, then a removal of each counterparty predicted to fill in full.
pub open spec fn changes_for(p: MatchPrediction, is_ask: bool) -> Seq<StateChange> {
    fill_changes(p, !is_ask) + removal_changes(p, !is_ask, counterparties(p))
}

pub open spec fn fill_changes(p: MatchPrediction, is_ask: bool) -> Seq<StateChange> {
    Seq::new(
        counterparties(p) as nat,
        |i: int|
            StateChange::UpdateFilledAmount {
                order_id: p.matched_order_ids@[i],
                filled_amount: p.matched_fills@[i],
                is_ask,
            },
    )
}

/// Removals of the first `n` counterparties that fill in full, in order.
pub open spec fn removal_changes(p: MatchPrediction, is_ask: bool, n: int) -> Seq<StateChange>
    decreases n,
{
    if n <= 0 {
        Seq::empty()
    } else if p.matched_full@[n - 1] {
        removal_changes(p, is_ask, n - 1).push(
            StateChange::RemoveOrder { order_id: p.matched_order_ids@[n - 1], is_ask, is_market: false },
        )
    } else {
        removal_changes(p, is_ask, n - 1)
    }
}

/// The first pending entry of transaction `tx_hash` at or after `from`; -1 where none is.
pub open spec fn pending_index(s: Seq<PendingChange>, tx_hash: Seq<u8>, from: int) -> int
    decreases s.len() - from,
{
    if from < 0 || from >= s.len() {
        -1
    } else if s[from].tx_hash@ == tx_hash {
        from
    } else {
        pending_index(s, tx_hash, from + 1)
    }
}

/// Whether an entry recorded at `timestamp_ms` is older than `timeout_ms` at `now_ms`.
pub open spec fn is_expired(timestamp_ms: u64, now_ms: u64, timeout_ms: u64) -> bool {
    now_ms > timestamp_ms && now_ms - timestamp_ms > timeout_ms
}

pub open spec fn unexpired(now_ms: u64, timeout_ms: u64) -> spec_fn(PendingChange) -> bool {
    |c: PendingChange| !is_expired(c.timestamp_ms, now_ms, timeout_ms)
}

/// Marks the first order `id` of `v` fully filled.
fn fill_first(v: &mut Vec<LocalOrder>, id: U256)
    ensures
        final(v)@ == filled_first(old(v)@, id),
{
    let mut i: usize = 0;
    while i < v.len()
        invariant
            0 <= i <= v@.len(),
            v@ == old(v)@,
            first_index_of(v@, id, i as int) == first_index_of(v@, id, 0),
        decreases v@.len() - i,
    {
        if v[i].id == id {
            let mut o = v[i];
            o.filled_amount = o.amount;
            v.set(i, o);
            return;
        }
        i = i + 1;
    }
}

/// Drops every order `id` from `v`, keeping the others in order.
fn retain_other_ids(v: &mut Vec<LocalOrder>, id: U256)
    ensures
        final(v)@ == without_id(old(v)@, id),
{
    let ghost s = v@;
    let mut out: Vec<LocalOrder> = Vec::new();
    let mut i: usize = 0;
    while i < v.len()
        invariant
            0 <= i <= s.len(),
            v@ == s,
            out@ == without_id(s.subrange(0, i as int), id),
        decreases s.len() - i,
    {
        let o = v[i];
        proof {
            assert(s.subrange(0, i + 1) =~= s.subrange(0, i as int).push(o));
            s.subrange(0, i as int).lemma_filter_push(o, |x: LocalOrder| x.id != id);
        }
        if o.id != id {
            out.push(o);
        }
        i = i + 1;
    }
    assert(s.subrange(0, s.len() as int) =~= s);
    *v = out;
}

/// Inserts a limit order into a side kept sorted by price.
fn insert_sorted(v: &mut Vec<LocalOrder>, order: LocalOrder, ascending: bool)
    ensures
        final(v)@ == old(v)@.insert(sorted_slot(old(v)@, order.price, ascending, 0), order),
{
    let mut i: usize = 0;
    while i < v.len()
        invariant
            0 <= i <= v@.len(),
            v@ == old(v)@,
            sorted_slot(v@, order.price, ascending, i as int) == sorted_slot(
                v@,
                order.price,
                ascending,
                0,
            ),
        ensures
            0 <= i <= v@.len(),
            v@ == old(v)@,
            sorted_slot(v@, order.price, ascending, 0) == i as int,
        decreases v@.len() - i,
    {
        let p = v[i].price;
        if (ascending && order.price.lt(&p)) || (!ascending && p.lt(&order.price)) {
            break;
        }
        i = i + 1;
    }
    v.insert(i, order);
}

impl MatchSimulator {
    /// Marks each counterparty of a prediction fully filled in the local book.
    pub fn apply_prediction(&mut self, prediction: &MatchPrediction, is_ask: bool)
        ensures
            !prediction.will_match ==> final(self).local_orderbook@ == old(self).local_orderbook@,
            prediction.will_match ==> final(self).local_orderbook@ == fills_applied(
                old(self).local_orderbook@,
                prediction.matched_order_ids@,
                is_ask,
                prediction.matched_order_ids@.len() as int,
            ),
            final(self).pending_changes@ == old(self).pending_changes@,
    {
        if !prediction.will_match {
            return;
        }
        let mut i: usize = 0;
        while i < prediction.matched_order_ids.len()
            invariant
                self.pending_changes@ == old(self).pending_changes@,
                0 <= i <= prediction.matched_order_ids@.len(),
                self.local_orderbook@ == fills_applied(
                    old(self).local_orderbook@,
                    prediction.matched_order_ids@,
                    is_ask,
                    i as int,
                ),
            decreases prediction.matched_order_ids@.len() - i,
        {
            self.update_order_filled_amount(prediction.matched_order_ids[i], is_ask);
            i = i + 1;
        }
    }

    /// Marks order `order_id` fully filled: in the bids and market bids where the
    /// counterparty is an ask, else in the asks and market asks.
    fn update_order_filled_amount(&mut self, order_id: U256, is_counterparty_ask: bool)
        ensures
            final(self).pending_changes@ == old(self).pending_changes@,
            is_counterparty_ask ==> final(self).local_orderbook@ == (LocalBookView {
                bids: filled_first(old(self).local_orderbook.bids@, order_id),
                market_bids: filled_first(old(self).local_orderbook.market_bids@, order_id),
                ..old(self).local_orderbook@
            }),
            !is_counterparty_ask ==> final(self).local_orderbook@ == (LocalBookView {
                asks: filled_first(old(self).local_orderbook.asks@, order_id),
                market_asks: filled_first(old(self).local_orderbook.market_asks@, order_id),
                ..old(self).local_orderbook@
            }),
    {
        if is_counterparty_ask {
            fill_first(&mut self.local_orderbook.bids, order_id);
            fill_first(&mut self.local_orderbook.market_bids, order_id);
        } else {
            fill_first(&mut self.local_orderbook.asks, order_id);
            fill_first(&mut self.local_orderbook.market_asks, order_id);
        }
    }

    /// Adds an order: a market order at the end of its queue, a limit order at its
    /// place by price (asks ascending, bids descending, after equal prices).
    pub fn add_order(&mut self, order: LocalOrder, is_ask: bool)
        ensures
            final(self).pending_changes@ == old(self).pending_changes@,
            final(self).local_orderbook@ == add_order_spec(old(self).local_orderbook@, order, is_ask),
    {
        if order.is_market {
            if is_ask {
                self.local_orderbook.market_asks.push(order);
            } else {
                self.local_orderbook.market_bids.push(order);
            }
        } else {
            if is_ask {
                insert_sorted(&mut self.local_orderbook.asks, order, true);
            } else {
                insert_sorted(&mut self.local_orderbook.bids, order, false);
            }
        }
    }

    /// Drops order `order_id` from the one list that `is_ask` and `is_market` name.
    pub fn remove_order(&mut self, order_id: U256, is_ask: bool, is_market: bool)
        ensures
            final(self).pending_changes@ == old(self).pending_changes@,
            final(self).local_orderbook@ == remove_order_spec(
                old(self).local_orderbook@,
                order_id,
                is_ask,
                is_market,
            ),
    {
        if is_market {
            if is_ask {
                retain_other_ids(&mut self.local_orderbook.market_asks, order_id);
            } else {
                retain_other_ids(&mut self.local_orderbook.market_bids, order_id);
            }
        } else {
            if is_ask {
                retain_other_ids(&mut self.local_orderbook.asks, order_id);
            } else {
                retain_other_ids(&mut self.local_orderbook.bids, order_id);
            }
        }
    }

    /// Whether a new order would stand first on its side: a market order always; an
    /// ask at or below the best ask; a bid at or above the best bid; any order on an
    /// empty side.
    pub fn will_be_at_head(&self, price: U256, is_ask: bool, is_market: bool) -> (r: bool)
        ensures
            r == (is_market || if is_ask {
                self.local_orderbook.asks@.len() == 0 || price@ <= self.local_orderbook.asks@[0].price@
            } else {
                self.local_orderbook.bids@.len() == 0 || price@ >= self.local_orderbook.bids@[0].price@
            }),
    {
        if is_market {
            return true;
        }
        if is_ask {
            if self.local_orderbook.asks.len() == 0 {
                true
            } else {
                price.le(&self.local_orderbook.asks[0].price)
            }
        } else {
            if self.local_orderbook.bids.len() == 0 {
                true
            } else {
                self.local_orderbook.bids[0].price.le(&price)
            }
        }
    }

    /// Records a matching prediction as pending under `tx_hash`, stamped `timestamp_ms`,
    /// without touching the book. A prediction of no match records nothing.
    pub fn apply_prediction_pending(
        &mut self,
        prediction: &MatchPrediction,
        tx_hash: [u8; 32],
        is_ask: bool,
        timestamp_ms: u64,
    )
        ensures
            final(self).local_orderbook@ == old(self).local_orderbook@,
            !prediction.will_match ==> final(self).pending_changes@ == old(self).pending_changes@,
            prediction.will_match ==> {
                &&& final(self).pending_changes@.len() == old(self).pending_changes@.len() + 1
                &&& final(self).pending_changes@.drop_last() == old(self).pending_changes@
                &&& final(self).pending_changes@.last().tx_hash == tx_hash
                &&& final(self).pending_changes@.last().timestamp_ms == timestamp_ms
                &&& final(self).pending_changes@.last().changes@ == changes_for(*prediction, is_ask)
            },
    {
        if !prediction.will_match {
            return;
        }
        let ghost fills = fill_changes(*prediction, !is_ask);
        let mut n = prediction.matched_order_ids.len();
        if prediction.matched_fills.len() < n {
            n = prediction.matched_fills.len();
        }
        if prediction.matched_full.len() < n {
            n = prediction.matched_full.len();
        }
        assert(n == counterparties(*prediction));
        let mut changes: Vec<StateChange> = Vec::new();
        let mut i: usize = 0;
        while i < n
            invariant
                n == counterparties(*prediction),
                n <= prediction.matched_order_ids@.len() && n <= prediction.matched_fills@.len()
                    && n <= prediction.matched_full@.len(),
                0 <= i <= n,
                changes@ =~= fills.subrange(0, i as int),
                fills == fill_changes(*prediction, !is_ask),
            decreases n - i,
        {
            let c = StateChange::UpdateFilledAmount {
                order_id: prediction.matched_order_ids[i],
                filled_amount: prediction.matched_fills[i],
                is_ask: !is_ask,
            };
            assert(fills[i as int] == c);
            assert(fills.subrange(0, i + 1) =~= fills.subrange(0, i as int).push(c));
            changes.push(c);
            i = i + 1;
        }
        assert(fills.subrange(0, n as int) =~= fills);
        let mut j: usize = 0;
        while j < n
            invariant
                n == counterparties(*prediction),
                n <= prediction.matched_order_ids@.len() && n <= prediction.matched_full@.len(),
                0 <= j <= n,
                changes@ =~= fills + removal_changes(*prediction, !is_ask, j as int),
            decreases n - j,
        {
            if prediction.matched_full[j] {
                let c = StateChange::RemoveOrder {
                    order_id: prediction.matched_order_ids[j],
                    is_ask: !is_ask,
                    is_market: false,
                };
                assert(fills + removal_changes(*prediction, !is_ask, j + 1) =~= (fills
                    + removal_changes(*prediction, !is_ask, j as int)).push(c));
                changes.push(c);
            }
            j = j + 1;
        }
        let ghost before = self.pending_changes@;
        self.pending_changes.push(PendingChange { tx_hash, changes, timestamp_ms });
        assert(self.pending_changes@.drop_last() =~= before);
    }

    /// The index of the first pending entry of `tx_hash`.
    fn find_pending(&self, tx_hash: &[u8; 32]) -> (r: Option<usize>)
        ensures
            r is Some <==> pending_index(self.pending_changes@, tx_hash@, 0) >= 0,
            r matches Some(j) ==> j < self.pending_changes@.len() && j as int == pending_index(
                self.pending_changes@,
                tx_hash@,
                0,
            ),
    {
        let mut i: usize = 0;
        while i < self.pending_changes.len()
            invariant
                0 <= i <= self.pending_changes@.len(),
                pending_index(self.pending_changes@, tx_hash@, i as int) == pending_index(
                    self.pending_changes@,
                    tx_hash@,
                    0,
                ),
            decreases self.pending_changes@.len() - i,
        {
            proof {
                lemma_pending_index(self.pending_changes@, tx_hash@, i as int);
            }
            if same_hash(&self.pending_changes[i].tx_hash, tx_hash) {
                return Some(i);
            }
            i = i + 1;
        }
        None
    }

    /// Takes the entry of a confirmed transaction out of the pending set and applies its
    /// changes to the local book, in order.
    pub fn confirm_changes(&mut self, tx_hash: [u8; 32])
        ensures
            ({
                let j = pending_index(old(self).pending_changes@, tx_hash@, 0);
                if j >= 0 {
                    &&& final(self).pending_changes@ == old(self).pending_changes@.remove(j)
                    &&& final(self).local_orderbook@ == apply_all(
                        old(self).local_orderbook@,
                        old(self).pending_changes@[j].changes@,
                        old(self).pending_changes@[j].changes@.len() as int,
                    )
                } else {
                    &&& final(self).pending_changes@ == old(self).pending_changes@
                    &&& final(self).local_orderbook@ == old(self).local_orderbook@
                }
            }),
    {
        proof {
            lemma_pending_index(old(self).pending_changes@, tx_hash@, 0);
        }
        match self.find_pending(&tx_hash) {
            Some(pos) => {
                let pending = self.pending_changes.remove(pos);
                let ghost book0 = self.local_orderbook@;
                let ghost cs = pending.changes@;
                let mut i: usize = 0;
                while i < pending.changes.len()
                    invariant
                        cs == pending.changes@,
                        cs == old(self).pending_changes@[pos as int].changes@,
                        book0 == old(self).local_orderbook@,
                        pos as int == pending_index(old(self).pending_changes@, tx_hash@, 0),
                        0 <= i <= cs.len(),
                        self.local_orderbook@ == apply_all(book0, cs, i as int),
                        self.pending_changes@ == old(self).pending_changes@.remove(pos as int),
                    decreases cs.len() - i,
                {
                    self.apply_state_change(pending.changes[i]);
                    i = i + 1;
                }
            },
            None => {},
        }
    }

    /// Discards the entry of a failed or dropped transaction; the book is not touched.
    pub fn rollback_changes(&mut self, tx_hash: [u8; 32])
        ensures
            final(self).local_orderbook@ == old(self).local_orderbook@,
            ({
                let j = pending_index(old(self).pending_changes@, tx_hash@, 0);
                final(self).pending_changes@ == if j >= 0 {
                    old(self).pending_changes@.remove(j)
                } else {
                    old(self).pending_changes@
                }
            }),
    {
        proof {
            lemma_pending_index(old(self).pending_changes@, tx_hash@, 0);
        }
        match self.find_pending(&tx_hash) {
            Some(pos) => {
                self.pending_changes.remove(pos);
            },
            None => {},
        }
    }

    /// Drops the pending entries older than `timeout_ms` at `now_ms`, keeping the rest
    /// in order; returns how many were dropped.
    pub fn cleanup_expired_changes(&mut self, now_ms: u64, timeout_ms: u64) -> (r: usize)
        ensures
            final(self).pending_changes@ == old(self).pending_changes@.filter(
                unexpired(now_ms, timeout_ms),
            ),
            r == old(self).pending_changes@.len() - final(self).pending_changes@.len(),
            final(self).local_orderbook@ == old(self).local_orderbook@,
    {
        let ghost s = self.pending_changes@;
        let ghost keep = unexpired(now_ms, timeout_ms);
        let original_len = self.pending_changes.len();
        let mut kept: Vec<PendingChange> = Vec::new();
        let ghost mut k: int = 0;
        while self.pending_changes.len() > 0
            invariant
                0 <= k <= s.len(),
                self.pending_changes@ == s.subrange(k, s.len() as int),
                kept@ == s.subrange(0, k).filter(keep),
                self.local_orderbook@ == old(self).local_orderbook@,
                original_len == s.len(),
                keep == unexpired(now_ms, timeout_ms),
            decreases s.len() - k,
        {
            let c = self.pending_changes.remove(0);
            proof {
                assert(c == s[k]);
                assert(s.subrange(0, k + 1) =~= s.subrange(0, k).push(s[k]));
                s.subrange(0, k).lemma_filter_push(s[k], keep);
                assert(self.pending_changes@ =~= s.subrange(k + 1, s.len() as int));
            }
            let expired = now_ms > c.timestamp_ms && now_ms - c.timestamp_ms > timeout_ms;
            if !expired {
                kept.push(c);
            }
            proof {
                k = k + 1;
            }
        }
        proof {
            assert(s.subrange(0, k) =~= s);
            s.lemma_filter_len(keep);
        }
        self.pending_changes = kept;
        original_len - self.pending_changes.len()
    }

    fn apply_state_change(&mut self, change: StateChange)
        ensures
            final(self).local_orderbook@ == apply_change(old(self).local_orderbook@, change),
            final(self).pending_changes@ == old(self).pending_changes@,
    {
        match change {
            StateChange::AddOrder { order, is_ask } => {
                self.add_order(order, is_ask);
            },
            StateChange::RemoveOrder { order_id, is_ask, is_market } => {
                self.remove_order(order_id, is_ask, is_market);
            },
            StateChange::UpdateFilledAmount { order_id, filled_amount: _, is_ask } => {
                self.update_order_filled_amount(order_id, is_ask);
            },
        }
    }

    pub fn pending_changes_count(&self) -> (r: usize)
        ensures
            r == self.pending_changes@.len(),
    {
        self.pending_changes.len()
    }

    /// Whether transaction `tx_hash` has a pending entry.
    pub fn is_pending_change(&self, tx_hash: [u8; 32]) -> (r: bool)
        ensures
            r == (pending_index(self.pending_changes@, tx_hash@, 0) >= 0),
    {
        self.find_pending(&tx_hash).is_some()
    }

    /// The transaction hashes of the pending entries, in order.
    pub fn get_pending_tx_hashes(&self) -> (r: Vec<[u8; 32]>)
        ensures
            r@.len() == self.pending_changes@.len(),
            forall|i: int| 0 <= i < r@.len() ==> #[trigger] r@[i] == self.pending_changes@[i].tx_hash,
    {
        let mut out: Vec<[u8; 32]> = Vec::new();
        let mut i: usize = 0;
        while i < self.pending_changes.len()
            invariant
                0 <= i <= self.pending_changes@.len(),
                out@.len() == i,
                forall|j: int| 0 <= j < i ==> #[trigger] out@[j] == self.pending_changes@[j].tx_hash,
            decreases self.pending_changes@.len() - i,
        {
            out.push(self.pending_changes[i].tx_hash);
            i = i + 1;
        }
        out
    }
}

proof fn lemma_pending_index(s: Seq<PendingChange>, h: Seq<u8>, from: int)
    ensures
        pending_index(s, h, from) == -1 || (from <= pending_index(s, h, from) < s.len()
            && s[pending_index(s, h, from)].tx_hash@ == h),
    decreases s.len() - from,
{
    if from < 0 || from >= s.len() {
    } else if s[from].tx_hash@ == h {
    } else {
        lemma_pending_index(s, h, from + 1);
    }
}

pub open spec fn add_order_spec(b: LocalBookView, order: LocalOrder, is_ask: bool) -> LocalBookView {
    if order.is_market {
        if is_ask {
            LocalBookView { market_asks: b.market_asks.push(order), ..b }
        } else {
            LocalBookView { market_bids: b.market_bids.push(order), ..b }
        }
    } else if is_ask {
        LocalBookView { asks: b.asks.insert(sorted_slot(b.asks, order.price, true, 0), order), ..b }
    } else {
        LocalBookView { bids: b.bids.insert(sorted_slot(b.bids, order.price, false, 0), order), ..b }
    }
}

pub open spec fn remove_order_spec(b: LocalBookView, id: U256, is_ask: bool, is_market: bool) -> LocalBookView {
    if is_market {
        if is_ask {
            LocalBookView { market_asks: without_id(b.market_asks, id), ..b }
        } else {
            LocalBookView { market_bids: without_id(b.market_bids, id), ..b }
        }
    } else if is_ask {
        LocalBookView { asks: without_id(b.asks, id), ..b }
    } else {
        LocalBookView { bids: without_id(b.bids, id), ..b }
    }
}

/// One change applied to the local book. A fill update marks the order fully filled.
pub open spec fn apply_change(b: LocalBookView, c: StateChange) -> LocalBookView {
    match c {
        StateChange::AddOrder { order, is_ask } => add_order_spec(b, order, is_ask),
        StateChange::RemoveOrder { order_id, is_ask, is_market } => remove_order_spec(
            b,
            order_id,
            is_ask,
            is_market,
        ),
        StateChange::UpdateFilledAmount { order_id, filled_amount: _, is_ask } => if is_ask {
            LocalBookView {
                bids: filled_first(b.bids, order_id),
                market_bids: filled_first(b.market_bids, order_id),
                ..b
            }
        } else {
            LocalBookView {
                asks: filled_first(b.asks, order_id),
                market_asks: filled_first(b.market_asks, order_id),
                ..b
            }
        },
    }
}

/// Each of the first `n` ids marked fully filled in turn, as a fill update from a
/// counterparty of side `is_ask` marks it.
pub open spec fn fills_applied(b: LocalBookView, ids: Seq<U256>, is_ask: bool, n: int) -> LocalBookView
    decreases n,
{
    if n <= 0 {
        b
    } else {
        apply_change(
            fills_applied(b, ids, is_ask, n - 1),
            StateChange::UpdateFilledAmount {
                order_id: ids[n - 1],
                filled_amount: zero_u256(),
                is_ask,
            },
        )
    }
}

/// The first `n` changes applied in order.
pub open spec fn apply_all(b: LocalBookView, cs: Seq<StateChange>, n: int) -> LocalBookView
    decreases n,
{
    if n <= 0 {
        b
    } else {
        apply_change(apply_all(b, cs, n - 1), cs[n - 1])
    }
}

} // verus!
