use vstd::prelude::*;
use dashmap::DashMap;
use crate::orderbook::OrderBookSimulator;
use crate::types::QueuedRequest;
use crate::u256::{key_of, zero_u256, U256};

verus! {

#[verifier::external_type_specification]
#[verifier::external_body]
#[verifier::reject_recursive_types(K)]
#[verifier::reject_recursive_types(V)]
#[verifier::reject_recursive_types(S)]
pub struct ExDashMap<K, V, S>(DashMap<K, V, S>);

/// The queued requests by the limbs of their ids, in a map that several tasks may share.
pub type RequestTable = DashMap<(u128, u128), QueuedRequest>;

pub type RequestMap = Map<(u128, u128), QueuedRequest>;

/// The requests that a request table holds, by the limbs of their ids.
pub uninterp spec fn requests_of(m: RequestTable) -> Map<
    (u128, u128),
    QueuedRequest,
>;

/// Relies on `DashMap::new`: a new map is empty.
#[verifier::external_body]
fn request_table_new() -> (r: RequestTable)
    ensures
        requests_of(r) == RequestMap::empty(),
{
    DashMap::new()
}

/// Relies on `DashMap::get`: the value stored under the key, if any.
#[verifier::external_body]
fn request_table_get(m: &RequestTable, k: (u128, u128)) -> (r: Option<
    QueuedRequest,
>)
    ensures
        r == if requests_of(*m).contains_key(k) {
            Some(requests_of(*m)[k])
        } else {
            None::<QueuedRequest>
        },
{
    m.get(&k).map(|e| *e.value())
}

/// Relies on `DashMap::insert`: the key then maps to the value, other keys are untouched.
#[verifier::external_body]
fn request_table_insert(
    m: &mut RequestTable,
    k: (u128, u128),
    v: QueuedRequest,
)
    ensures
        requests_of(*final(m)) == requests_of(*old(m)).insert(k, v),
{
    m.insert(k, v);
}

/// Relies on `DashMap::remove`: the key then maps to nothing, other keys are untouched.
#[verifier::external_body]
fn request_table_remove(m: &mut RequestTable, k: (u128, u128))
    ensures
        requests_of(*final(m)) == requests_of(*old(m)).remove(k),
{
    m.remove(&k);
}

/// The requests met by following `next_request_id` from `cur`, at most `n` of them,
/// stopping at zero or at an id that is not stored.
pub open spec fn walk_requests(
    requests: Map<(u128, u128), QueuedRequest>,
    cur: U256,
    n: nat,
) -> Seq<QueuedRequest>
    decreases n,
{
    if n == 0 || cur@ == 0 || !requests.contains_key(key_of(cur)) {
        Seq::empty()
    } else {
        seq![requests[key_of(cur)]] + walk_requests(
            requests,
            requests[key_of(cur)].next_request_id,
            (n - 1) as nat,
        )
    }
}

/// The mirror of the Sequencer's queue, beside the replica of the order book.
pub struct GlobalState {
    /// Requests by the limbs of their ids.
    pub queued_requests: RequestTable,
    pub queue_head: U256,
    /// The last request appended by an event; zero when unknown.
    pub queue_tail: U256,
    pub orderbook: OrderBookSimulator,
    /// The block height the replica has been brought to.
    pub current_block: u64,
}

impl GlobalState {
    pub open spec fn requests(&self) -> Map<(u128, u128), QueuedRequest> {
        requests_of(self.queued_requests)
    }

    /// The queue in order, from its head.
    pub open spec fn head_requests(&self, n: nat) -> Seq<QueuedRequest> {
        walk_requests(self.requests(), self.queue_head, n)
    }

    pub fn new() -> (r: Self)
        ensures
            r.requests() == RequestMap::empty(),
            r.queue_head@ == 0,
            r.queue_tail@ == 0,
            r.orderbook.is_empty_book(),
            r.current_block == 0,
    {
        GlobalState {
            queued_requests: request_table_new(),
            queue_head: U256::zero(),
            queue_tail: U256::zero(),
            orderbook: OrderBookSimulator::new(),
            current_block: 0,
        }
    }

    /// The first `n` requests of the queue, following `next_request_id` from the head;
    /// the walk stops early at zero or at an id that is not stored.
    pub fn get_head_requests(&self, n: usize) -> (r: Vec<QueuedRequest>)
        ensures
            r@ == self.head_requests(n as nat),
    {
        let mut result: Vec<QueuedRequest> = Vec::new();
        let mut cur = self.queue_head;
        let mut left: usize = n;
        while left > 0 && !cur.is_zero()
            invariant
                result@ + walk_requests(self.requests(), cur, left as nat) == self.head_requests(
                    n as nat,
                ),
            decreases left,
        {
            match request_table_get(&self.queued_requests, cur.key()) {
                Some(request) => {
                    let ghost before = result@;
                    result.push(request);
                    assert(before + walk_requests(self.requests(), cur, left as nat) == result@
                        + walk_requests(
                        self.requests(),
                        request.next_request_id,
                        (left - 1) as nat,
                    ));
                    cur = request.next_request_id;
                    left = left - 1;
                },
                None => {
                    assert(walk_requests(self.requests(), cur, left as nat) =~= Seq::empty());
                    assert(result@ + Seq::<QueuedRequest>::empty() =~= result@);
                    return result;
                },
            }
        }
        assert(walk_requests(self.requests(), cur, left as nat) =~= Seq::empty());
        assert(result@ + Seq::<QueuedRequest>::empty() =~= result@);
        result
    }

    pub fn update_queue_head(&mut self, new_head: U256)
        ensures
            final(self).queue_head == new_head,
            final(self).requests() == old(self).requests(),
            final(self).queue_tail == old(self).queue_tail,
    {
        self.queue_head = new_head;
    }

    /// Stores a request under its id, replacing any stored there.
    pub fn add_request(&mut self, request: QueuedRequest)
        ensures
            final(self).requests() == old(self).requests().insert(
                key_of(request.request_id),
                request,
            ),
            final(self).queue_head == old(self).queue_head,
            final(self).queue_tail == old(self).queue_tail,
    {
        request_table_insert(&mut self.queued_requests, request.request_id.key(), request);
    }

    pub fn remove_request(&mut self, request_id: &U256)
        ensures
            final(self).requests() == old(self).requests().remove(key_of(*request_id)),
            final(self).queue_head == old(self).queue_head,
            final(self).queue_tail == old(self).queue_tail,
    {
        request_table_remove(&mut self.queued_requests, request_id.key());
    }

    /// Records the last request of the queue, as a cold sync reads it.
    pub fn update_queue_tail(&mut self, tail: U256)
        ensures
            final(self).queue_tail == tail,
            final(self).queue_head == old(self).queue_head,
            final(self).requests() == old(self).requests(),
    {
        self.queue_tail = tail;
    }

    pub fn update_current_block(&mut self, block: u64)
        ensures
            final(self).current_block == block,
            final(self).requests() == old(self).requests(),
            final(self).queue_head == old(self).queue_head,
    {
        self.current_block = block;
    }

    /// A copy of the replica, for the dispatcher's scratch simulation.
    pub fn clone_orderbook(&self) -> (r: OrderBookSimulator)
        ensures
            r.same_state(&self.orderbook),
    {
        self.orderbook.snapshot()
    }

    /// Appends a request announced by the Sequencer at the tail of the queue: linked
    /// after the current tail where that is stored, else made the head.
    pub fn append_request(&mut self, request: QueuedRequest)
        ensures
            forall|s: Seq<QueuedRequest>|
                #[trigger] queue_linked(old(self).requests(), old(self).queue_head, old(self).queue_tail, s)
                    && request.request_id@ != 0 && !old(self).requests().contains_key(
                    key_of(request.request_id),
                ) && request.next_request_id@ == 0 ==> queue_linked(
                    final(self).requests(),
                    final(self).queue_head,
                    final(self).queue_tail,
                    appended(s, request),
                ),
            final(self).queue_tail == request.request_id,
            old(self).requests().contains_key(key_of(old(self).queue_tail)) && old(
                self,
            ).queue_tail@ != 0 ==> {
                &&& final(self).queue_head == old(self).queue_head
                &&& final(self).requests() == old(self).requests().insert(
                    key_of(old(self).queue_tail),
                    QueuedRequest {
                        next_request_id: request.request_id,
                        ..old(self).requests()[key_of(old(self).queue_tail)]
                    },
                ).insert(key_of(request.request_id), request)
            },
            !(old(self).requests().contains_key(key_of(old(self).queue_tail)) && old(
                self,
            ).queue_tail@ != 0) ==> {
                &&& final(self).queue_head == request.request_id
                &&& final(self).requests() == old(self).requests().insert(
                    key_of(request.request_id),
                    request,
                )
            },
    {
        let tail = self.queue_tail;
        let tail_request = if tail.is_zero() {
            None
        } else {
            request_table_get(&self.queued_requests, tail.key())
        };
        match tail_request {
            Some(mut t) => {
                t.next_request_id = request.request_id;
                request_table_insert(&mut self.queued_requests, tail.key(), t);
            },
            None => {
                self.queue_head = request.request_id;
            },
        }
        request_table_insert(&mut self.queued_requests, request.request_id.key(), request);
        self.queue_tail = request.request_id;
        proof {
            let k = key_of(request.request_id);
            let reqs0 = old(self).requests();
            let reqs = self.requests();
            assert forall|sq: Seq<QueuedRequest>|
                #[trigger] queue_linked(reqs0, old(self).queue_head, old(self).queue_tail, sq)
                    && request.request_id@ != 0 && !reqs0.contains_key(k)
                    && request.next_request_id@ == 0 implies queue_linked(
                reqs,
                self.queue_head,
                self.queue_tail,
                appended(sq, request),
            ) by {
                let extended = appended(sq, request);
                crate::u256::lemma_zero_view(tail);
                crate::u256::lemma_zero_view(zero_u256());
                if sq.len() == 0 {
                    assert(tail@ == 0);
                    assert(queue_link_ok(reqs, extended, 0));
                } else {
                    let last = sq.len() - 1;
                    assert(queue_link_ok(reqs0, sq, last));
                    let kt = key_of(sq[last].request_id);
                    assert(tail == sq[last].request_id);
                    assert(tail@ != 0);
                    assert(kt != k);
                    assert forall|i: int| 0 <= i < extended.len() implies #[trigger] queue_link_ok(
                        reqs,
                        extended,
                        i,
                    ) by {
                        if i < last {
                            assert(queue_link_ok(reqs0, sq, i));
                            assert(key_of(sq[i].request_id) != kt);
                            assert(extended[i] == sq[i]);
                        } else if i == last {
                            assert(extended[i] == (QueuedRequest {
                                next_request_id: request.request_id,
                                ..sq[last]
                            }));
                        }
                    }
                    assert forall|i: int, j: int| 0 <= i < j < extended.len() implies key_of(
                        #[trigger] extended[i].request_id,
                    ) != key_of(#[trigger] extended[j].request_id) by {
                        if j < sq.len() {
                            assert(extended[i].request_id == sq[i].request_id);
                            assert(extended[j].request_id == sq[j].request_id);
                        } else {
                            assert(extended[i].request_id == sq[i].request_id);
                            assert(queue_link_ok(reqs0, sq, i));
                        }
                    }
                    assert(extended[0].request_id == sq[0].request_id);
                }
            }
        }
    }

    /// After a batch: drops its requests from the mirror and moves the head to the
    /// request that followed the batch where that is still stored, else to zero.
    /// An empty batch changes nothing.
    pub fn complete_batch(&mut self, batch: &Vec<QueuedRequest>)
        ensures
            final(self).requests() == old(self).requests().remove_keys(
                request_keys(batch@, batch@.len() as int),
            ),
            batch@.len() == 0 ==> final(self).queue_head == old(self).queue_head,
            batch@.len() > 0 ==> final(self).queue_head == if final(self).requests().contains_key(
                key_of(batch@.last().next_request_id),
            ) {
                batch@.last().next_request_id
            } else {
                zero_u256()
            },
    {
        let mut i: usize = 0;
        while i < batch.len()
            invariant
                0 <= i <= batch@.len(),
                self.queue_head == old(self).queue_head,
                self.requests() == old(self).requests().remove_keys(
                    request_keys(batch@, i as int),
                ),
            decreases batch@.len() - i,
        {
            let id = batch[i].request_id;
            request_table_remove(&mut self.queued_requests, id.key());
            assert(old(self).requests().remove_keys(request_keys(batch@, i as int)).remove(
                key_of(id),
            ) =~= old(self).requests().remove_keys(request_keys(batch@, i + 1)));
            i = i + 1;
        }
        if batch.len() > 0 {
            let next = batch[batch.len() - 1].next_request_id;
            match request_table_get(&self.queued_requests, next.key()) {
                Some(_) => {
                    self.queue_head = next;
                },
                None => {
                    self.queue_head = U256::zero();
                },
            }
        }
    }
}

/// The keys of the first `n` requests of `batch`.
pub open spec fn request_keys(batch: Seq<QueuedRequest>, n: int) -> Set<(u128, u128)>
    decreases n,
{
    if n <= 0 {
        Set::empty()
    } else {
        request_keys(batch, n - 1).insert(key_of(batch[n - 1].request_id))
    }
}

/// The `i`th request of `s` is stored under its id, which is not zero, and links to the
/// next one.
pub open spec fn queue_link_ok(reqs: RequestMap, s: Seq<QueuedRequest>, i: int) -> bool {
    &&& s[i].request_id@ != 0
    &&& reqs.contains_key(key_of(s[i].request_id))
    &&& reqs[key_of(s[i].request_id)] == s[i]
    &&& i + 1 < s.len() ==> s[i].next_request_id == s[i + 1].request_id
}

/// The queue from `head` to `tail` is exactly `s`, each id once.
pub open spec fn queue_linked(reqs: RequestMap, head: U256, tail: U256, s: Seq<QueuedRequest>) -> bool {
    &&& s.len() == 0 ==> head@ == 0 && tail@ == 0
    &&& s.len() > 0 ==> head == s[0].request_id && tail == s[s.len() - 1].request_id && s[s.len()
        - 1].next_request_id@ == 0
    &&& forall|i: int| 0 <= i < s.len() ==> #[trigger] queue_link_ok(reqs, s, i)
    &&& forall|i: int, j: int|
        0 <= i < j < s.len() ==> key_of(#[trigger] s[i].request_id) != key_of(
            #[trigger] s[j].request_id,
        )
}

/// `s` with `r` appended: the old last request now links to it.
pub open spec fn appended(s: Seq<QueuedRequest>, r: QueuedRequest) -> Seq<QueuedRequest> {
    if s.len() == 0 {
        seq![r]
    } else {
        s.update(
            s.len() - 1,
            QueuedRequest { next_request_id: r.request_id, ..s[s.len() - 1] },
        ).push(r)
    }
}

proof fn lemma_queue_walk_from(reqs: RequestMap, head: U256, tail: U256, s: Seq<QueuedRequest>, i: int, n: nat)
    requires
        queue_linked(reqs, head, tail, s),
        0 <= i <= s.len(),
    ensures
        walk_requests(reqs, if i < s.len() { s[i].request_id } else { zero_u256() }, n) == s.subrange(
            i,
            if i + n < s.len() { i + n } else { s.len() as int },
        ),
    decreases n,
{
    crate::u256::lemma_zero_view(zero_u256());
    let end = if i + n < s.len() { i + n } else { s.len() as int };
    if i == s.len() || n == 0 {
        assert(s.subrange(i, end) =~= Seq::<QueuedRequest>::empty());
    } else {
        assert(queue_link_ok(reqs, s, i));
        lemma_queue_walk_from(reqs, head, tail, s, i + 1, (n - 1) as nat);
        if i + 1 < s.len() {
            assert(s[i].next_request_id == s[i + 1].request_id);
        } else {
            crate::u256::lemma_zero_view(s[i].next_request_id);
            assert(s[i].next_request_id == zero_u256());
        }
        assert(s.subrange(i, end) =~= seq![s[i]] + s.subrange(i + 1, end));
    }
}

/// The walk from the head follows the queue: on a well-linked queue `s`, the first `n`
/// requests from the head are the first `n` of `s`.
pub proof fn law_queue_walk(state: GlobalState, s: Seq<QueuedRequest>, n: nat)
    requires
        queue_linked(state.requests(), state.queue_head, state.queue_tail, s),
    ensures
        state.head_requests(n) == s.take(if n < s.len() { n as int } else { s.len() as int }),
{
    lemma_queue_walk_from(state.requests(), state.queue_head, state.queue_tail, s, 0, n);
    crate::u256::lemma_zero_view(zero_u256());
    if s.len() == 0 {
        crate::u256::lemma_zero_view(state.queue_head);
        assert(state.queue_head == zero_u256());
    }
    assert(s.subrange(0, if n < s.len() { n as int } else { s.len() as int }) =~= s.take(
        if n < s.len() { n as int } else { s.len() as int },
    ));
}

} // verus!
