use std::collections::HashMap;
use vstd::prelude::*;

verus! {

broadcast use vstd::std_specs::hash::group_hash_axioms;

/// What the cache holds for one node id.
pub enum CacheEntry<V> {
    /// A computation was started and has not delivered its result yet.
    Pending,
    /// The computation delivered this result.
    Ready(V),
}

/// What a request found, and whether the caller must start the computation.
#[derive(Debug, Clone, Copy, PartialEq, Eq, Structural)]
pub enum RequestState {
    /// Nothing was known of the id: it is now pending, and the caller starts exactly one
    /// computation for it.
    Started,
    /// A computation for the id is in flight: nothing more is to be started.
    Pending,
    /// The result is known: read it with `ready_result`.
    Ready,
}

/// The state after a request for `id` in the state `m`.
pub open spec fn after_request<V>(m: Map<i64, CacheEntry<V>>, id: i64) -> Map<i64, CacheEntry<V>> {
    if m.contains_key(id) {
        m
    } else {
        m.insert(id, CacheEntry::Pending)
    }
}

/// What a request for `id` reports in the state `m`.
pub open spec fn request_outcome<V>(m: Map<i64, CacheEntry<V>>, id: i64) -> RequestState {
    if !m.contains_key(id) {
        RequestState::Started
    } else {
        match m[id] {
            CacheEntry::Pending => RequestState::Pending,
            CacheEntry::Ready(_) => RequestState::Ready,
        }
    }
}

/// The state after a computation for `id` delivered `v`: only a pending entry takes it.
pub open spec fn after_complete<V>(m: Map<i64, CacheEntry<V>>, id: i64, v: V) -> Map<
    i64,
    CacheEntry<V>,
> {
    if m.contains_key(id) && m[id] is Pending {
        m.insert(id, CacheEntry::Ready(v))
    } else {
        m
    }
}

/// The ids whose computation is in flight.
pub open spec fn pending_ids<V>(m: Map<i64, CacheEntry<V>>) -> Set<i64> {
    Set::new(|k: i64| m.contains_key(k) && m[k] is Pending)
}

/// How many computations `n` successive requests for `id` start, from the state `m`, with no
/// result delivered in between.
pub open spec fn started_count<V>(m: Map<i64, CacheEntry<V>>, id: i64, n: nat) -> nat
    decreases n,
{
    if n == 0 {
        0
    } else {
        (if request_outcome(m, id) == RequestState::Started {
            1nat
        } else {
            0nat
        }) + started_count(after_request(m, id), id, (n - 1) as nat)
    }
}

/// The state after `n` successive requests for `id`.
pub open spec fn after_requests<V>(m: Map<i64, CacheEntry<V>>, id: i64, n: nat) -> Map<
    i64,
    CacheEntry<V>,
>
    decreases n,
{
    if n == 0 {
        m
    } else {
        after_requests(after_request(m, id), id, (n - 1) as nat)
    }
}

proof fn lemma_known_id_starts_nothing<V>(m: Map<i64, CacheEntry<V>>, id: i64, n: nat)
    requires
        m.contains_key(id),
    ensures
        started_count(m, id, n) == 0,
        after_requests(m, id, n) == m,
    decreases n,
{
    if n > 0 {
        lemma_known_id_starts_nothing(m, id, (n - 1) as nat);
    }
}

/// Any number of requests for one id before its result arrives start exactly one computation
/// when the id was unknown, and none when it was already known.
pub proof fn lemma_requests_start_at_most_once<V>(m: Map<i64, CacheEntry<V>>, id: i64, n: nat)
    requires
        n >= 1,
    ensures
        started_count(m, id, n) == (if m.contains_key(id) {
            0nat
        } else {
            1nat
        }),
        after_requests(m, id, n) == after_request(m, id),
        after_requests(m, id, n)[id] == (if m.contains_key(id) {
            m[id]
        } else {
            CacheEntry::Pending
        }),
{
    lemma_known_id_starts_nothing(after_request(m, id), id, (n - 1) as nat);
}

/// Once an id is ready, any number of further requests leave the state as it is, start
/// nothing, and keep reporting the same result.
pub proof fn lemma_ready_is_stable<V>(m: Map<i64, CacheEntry<V>>, id: i64, v: V, n: nat)
    requires
        m.contains_key(id),
        m[id] == CacheEntry::Ready(v),
    ensures
        started_count(m, id, n) == 0,
        after_requests(m, id, n) == m,
        request_outcome(after_requests(m, id, n), id) == RequestState::Ready,
        after_requests(m, id, n)[id] == CacheEntry::Ready(v),
{
    lemma_known_id_starts_nothing(m, id, n);
}

/// Results of computations keyed by node id, each started at most once.
pub struct AnalysisCache<V> {
    entries: HashMap<i64, CacheEntry<V>>,
    pending: usize,
}

impl<V> View for AnalysisCache<V> {
    type V = Map<i64, CacheEntry<V>>;

    closed spec fn view(&self) -> Map<i64, CacheEntry<V>> {
        self.entries@
    }
}

impl<V> AnalysisCache<V> {
    /// The count of computations in flight is kept in step with the entries.
    pub closed spec fn wf(&self) -> bool {
        self.pending as nat == pending_ids(self@).len()
    }

    /// An empty cache.
    pub fn new() -> (r: Self)
        ensures
            r.wf(),
            r@ == Map::<i64, CacheEntry<V>>::empty(),
    {
        let r = AnalysisCache { entries: HashMap::new(), pending: 0 };
        proof {
            assert(pending_ids(r@) =~= Set::<i64>::empty());
        }
        r
    }

    /// Records a request for `id`. An unknown id becomes pending and `Started` tells the
    /// caller to start its one computation; a known id is left as it is.
    pub fn request(&mut self, id: i64) -> (r: RequestState)
        requires
            old(self).wf(),
        ensures
            final(self).wf(),
            final(self)@ == after_request(old(self)@, id),
            r == request_outcome(old(self)@, id),
    {
        match self.entries.get(&id) {
            Some(CacheEntry::Pending) => RequestState::Pending,
            Some(CacheEntry::Ready(_)) => RequestState::Ready,
            None => {
                let ghost m0 = self@;
                self.entries.insert(id, CacheEntry::Pending);
                let n = self.entries.len();
                proof {
                    let m1 = self@;
                    assert(pending_ids(m1) =~= pending_ids(m0).insert(id));
                    vstd::set_lib::lemma_len_subset(pending_ids(m0), m0.dom());
                    vstd::set_lib::lemma_len_subset(pending_ids(m1), m1.dom());
                    assert(pending_ids(m1).len() == pending_ids(m0).len() + 1);
                }
                self.pending = self.pending + 1;
                RequestState::Started
            },
        }
    }

    /// Stores the result of the computation for `id`. Only a pending id takes it: a ready
    /// result is never replaced.
    pub fn complete(&mut self, id: i64, v: V)
        requires
            old(self).wf(),
        ensures
            final(self).wf(),
            final(self)@ == after_complete(old(self)@, id, v),
    {
        let is_pending = match self.entries.get(&id) {
            Some(CacheEntry::Pending) => true,
            _ => false,
        };
        if is_pending {
            let ghost m0 = self@;
            self.entries.insert(id, CacheEntry::Ready(v));
            proof {
                let m1 = self@;
                assert(pending_ids(m1) =~= pending_ids(m0).remove(id));
                vstd::set_lib::lemma_len_subset(pending_ids(m0), m0.dom());
                assert(pending_ids(m0).contains(id));
            }
            self.pending = self.pending - 1;
        }
    }

    /// The result stored for `id`, once its computation has delivered it.
    pub fn ready_result(&self, id: i64) -> (r: Option<&V>)
        ensures
            match r {
                Some(v) => self@.contains_key(id) && self@[id] == CacheEntry::Ready(*v),
                None => !self@.contains_key(id) || self@[id] is Pending,
            },
    {
        match self.entries.get(&id) {
            Some(CacheEntry::Ready(v)) => Some(v),
            _ => None,
        }
    }

    /// The number of computations in flight.
    pub fn num_pending(&self) -> (r: usize)
        requires
            self.wf(),
        ensures
            r == pending_ids(self@).len(),
    {
        self.pending
    }
}

} // verus!
