//! The TTL-aware key-value store the connection engine executes operations
//! against: an unconditional upsert and a lookup that treats expired entries
//! as absent.
//!
//! Time is a caller-supplied instant; the store itself never reads a clock.

use vstd::prelude::*;
use vstd::map::*;
use crate::wire::bytes_eq;

verus! {

/// An opaque payload with its optional absolute expiry instant.
pub struct StoredMessage {
    pub data: Vec<u8>,
    pub expiry: Option<u64>,
}

/// The mathematical shape of a stored entry.
pub struct EntryModel {
    pub data: Seq<u8>,
    pub expiry: Option<u64>,
}

impl View for StoredMessage {
    type V = EntryModel;

    open spec fn view(&self) -> EntryModel {
        EntryModel { data: self.data@, expiry: self.expiry }
    }
}

/// An entry still answers lookups at `now` iff it has no expiry or the
/// expiry lies strictly in the future.
pub open spec fn entry_live(e: EntryModel, now: u64) -> bool {
    match e.expiry {
        Option::None => true,
        Option::Some(t) => now < t,
    }
}

/// The absolute expiry an upsert at `now` with the given TTL produces:
/// none without a TTL, otherwise `now + ttl`, saturating at the largest
/// representable instant.
pub open spec fn spec_expiry(ttl: Option<u64>, now: u64) -> Option<u64> {
    match ttl {
        Option::None => Option::None,
        Option::Some(t) => Option::Some(
            if now + t > u64::MAX {
                u64::MAX
            } else {
                (now + t) as u64
            },
        ),
    }
}

struct StoreSlot {
    id: Vec<u8>,
    msg: StoredMessage,
}

/// Key-value map from message identifier to stored payload and expiry.
pub struct MessageStore {
    slots: Vec<StoreSlot>,
}

impl MessageStore {
    /// No two slots share an identifier, and every payload fits the wire
    /// format's 32-bit length field.
    pub closed spec fn wf(self) -> bool {
        &&& forall|i: int, j: int|
            0 <= i < j < self.slots@.len() ==> (#[trigger] self.slots@[i]).id@ != (
            #[trigger] self.slots@[j]).id@
        &&& forall|i: int|
            0 <= i < self.slots@.len() ==> (#[trigger] self.slots@[i]).msg.data@.len() <= u32::MAX
    }

    spec fn has_id(self, k: Seq<u8>) -> bool {
        exists|i: int| 0 <= i < self.slots@.len() && (#[trigger] self.slots@[i]).id@ == k
    }

    spec fn idx_of(self, k: Seq<u8>) -> int {
        choose|i: int| 0 <= i < self.slots@.len() && (#[trigger] self.slots@[i]).id@ == k
    }

    pub fn new() -> (r: Self)
        ensures
            r.wf(),
            r@ == Map::<Seq<u8>, EntryModel>::empty(),
    {
        let r = MessageStore { slots: Vec::new() };
        proof {
            assert(r@ =~= Map::<Seq<u8>, EntryModel>::empty());
        }
        r
    }

    fn find_index(&self, id: &Vec<u8>) -> (r: Option<usize>)
        ensures
            (match r {
                Some(i) => i < self.slots@.len() && self.slots@[i as int].id@ == id@,
                None => !self.has_id(id@),
            }),
    {
        let n: usize = self.slots.len();
        let mut i: usize = 0;
        while i < n
            invariant
                i <= n,
                n == self.slots@.len(),
                forall|j: int| 0 <= j < i ==> (#[trigger] self.slots@[j]).id@ != id@,
            decreases n - i,
        {
            if bytes_eq(&self.slots[i].id, id) {
                return Some(i);
            }
            i = i + 1;
        }
        None
    }

    /// With unique identifiers, a slot holding `k` is the slot the view reads.
    proof fn lemma_found_is_viewed(self, i: int)
        requires
            self.wf(),
            0 <= i < self.slots@.len(),
        ensures
            self@.contains_key(self.slots@[i].id@),
            self@[self.slots@[i].id@] == self.slots@[i].msg@,
    {
        let k = self.slots@[i].id@;
        assert(self.has_id(k));
        let j = self.idx_of(k);
        assert(0 <= j < self.slots@.len() && self.slots@[j].id@ == k);
        if i != j {
            assert(false);
        }
    }

    /// Looks up `id` at instant `now`: the stored payload iff the entry is
    /// present and unexpired, and nothing otherwise.
    pub fn get(&self, id: &Vec<u8>, now: u64) -> (r: Option<Vec<u8>>)
        requires
            self.wf(),
        ensures
            (r is Some) <==> (self@.contains_key(id@) && entry_live(self@[id@], now)),
            (r matches Some(d) ==> d@ == self@[id@].data),
    {
        match self.find_index(id) {
            Some(i) => {
                proof {
                    self.lemma_found_is_viewed(i as int);
                }
                let live: bool = match self.slots[i].msg.expiry {
                    Some(t) => now < t,
                    None => true,
                };
                if live {
                    let n: usize = self.slots[i].msg.data.len();
                    Some(crate::wire::copy_range(&self.slots[i].msg.data, 0, n))
                } else {
                    None
                }
            },
            None => {
                proof {
                    assert(!self@.contains_key(id@));
                }
                None
            },
        }
    }

    /// Unconditional upsert: replaces any prior payload and expiry under `id`.
    pub fn insert(&mut self, id: Vec<u8>, data: Vec<u8>, ttl: Option<u64>, now: u64)
        requires
            old(self).wf(),
            data@.len() <= u32::MAX,
        ensures
            final(self).wf(),
            final(self)@ == old(self)@.insert(
                id@,
                EntryModel { data: data@, expiry: spec_expiry(ttl, now) },
            ),
    {
        let expiry: Option<u64> = match ttl {
            Some(t) => Some(
                if t > u64::MAX - now {
                    u64::MAX
                } else {
                    now + t
                },
            ),
            None => None,
        };
        let ghost m0 = self@;
        let ghost k = id@;
        let ghost e = EntryModel { data: data@, expiry: spec_expiry(ttl, now) };
        match self.find_index(&id) {
            Some(i) => {
                let ghost slots0 = self.slots@;
                self.slots[i] = StoreSlot { id, msg: StoredMessage { data, expiry } };
                proof {
                    let slots1 = self.slots@;
                    assert(slots1 == slots0.update(i as int, slots1[i as int]));
                    assert forall|a: int, b: int| 0 <= a < b < slots1.len() implies (
                    #[trigger] slots1[a]).id@ != (#[trigger] slots1[b]).id@ by {
                        assert(slots0[a].id@ == slots1[a].id@ || a == i);
                        assert(slots0[b].id@ == slots1[b].id@ || b == i);
                    }
                    assert(self.wf());
                    assert forall|q: Seq<u8>| true implies (self.has_id(q) <==> (m0.contains_key(q)
                        || q == k)) by {
                        if self.has_id(q) {
                            let a = self.idx_of(q);
                            if a == i {
                                assert(q == k);
                            } else {
                                assert(slots0[a].id@ == q);
                                assert(old(self).has_id(q));
                            }
                        }
                        if m0.contains_key(q) {
                            let a = old(self).idx_of(q);
                            if a == i {
                                assert(q == slots0[i as int].id@ && q == k);
                                assert(slots1[i as int].id@ == k);
                                assert(self.has_id(q));
                            } else {
                                assert(slots1[a].id@ == q);
                                assert(self.has_id(q));
                            }
                        }
                        if q == k {
                            assert(slots1[i as int].id@ == k);
                            assert(self.has_id(q));
                        }
                    }
                    assert forall|q: Seq<u8>| self@.contains_key(q) implies self@[q] == m0.insert(
                        k,
                        e,
                    )[q] by {
                        self.lemma_found_is_viewed(self.idx_of(q));
                        if q == k {
                            self.lemma_found_is_viewed(i as int);
                        } else {
                            let a = self.idx_of(q);
                            assert(a != i);
                            assert(slots0[a] == slots1[a]);
                            old(self).lemma_found_is_viewed(a);
                        }
                    }
                    assert(self@ =~= m0.insert(k, e));
                }
            },
            None => {
                let ghost slots0 = self.slots@;
                self.slots.push(StoreSlot { id, msg: StoredMessage { data, expiry } });
                proof {
                    let slots1 = self.slots@;
                    let n = slots0.len() as int;
                    assert forall|a: int, b: int| 0 <= a < b < slots1.len() implies (
                    #[trigger] slots1[a]).id@ != (#[trigger] slots1[b]).id@ by {
                        if b == n {
                            assert(slots0[a].id@ != k) by {
                                if slots0[a].id@ == k {
                                    assert(old(self).has_id(k));
                                }
                            }
                        }
                    }
                    assert(self.wf());
                    assert forall|q: Seq<u8>| true implies (self.has_id(q) <==> (m0.contains_key(q)
                        || q == k)) by {
                        if self.has_id(q) {
                            let a = self.idx_of(q);
                            if a == n {
                                assert(q == k);
                            } else {
                                assert(old(self).has_id(q));
                            }
                        }
                        if m0.contains_key(q) {
                            let a = old(self).idx_of(q);
                            assert(slots1[a].id@ == q);
                            assert(self.has_id(q));
                        }
                        if q == k {
                            assert(slots1[n].id@ == k);
                            assert(self.has_id(q));
                        }
                    }
                    assert forall|q: Seq<u8>| self@.contains_key(q) implies self@[q] == m0.insert(
                        k,
                        e,
                    )[q] by {
                        self.lemma_found_is_viewed(self.idx_of(q));
                        if q == k {
                            self.lemma_found_is_viewed(n);
                        } else {
                            let a = self.idx_of(q);
                            assert(a != n);
                            assert(slots0[a] == slots1[a]);
                            old(self).lemma_found_is_viewed(a);
                        }
                    }
                    assert(self@ =~= m0.insert(k, e));
                }
            },
        }
    }
}

/// Hit behavior: after an upsert of (`id`, `data`), a lookup of `id` at any
/// instant before the entry expires sees exactly `data`; with no TTL it sees
/// it at every instant.
pub proof fn lemma_store_then_retrieve(
    m: Map<Seq<u8>, EntryModel>,
    id: Seq<u8>,
    data: Seq<u8>,
    ttl: Option<u64>,
    now: u64,
    later: u64,
)
    requires
        ttl matches Some(t) ==> now + t <= u64::MAX && later < now + t,
    ensures
        ({
            let m2 = m.insert(id, EntryModel { data, expiry: spec_expiry(ttl, now) });
            &&& m2.contains_key(id)
            &&& entry_live(m2[id], later)
            &&& m2[id].data == data
        }),
{
}

/// Overwrite: upserting `a` then `b` under one identifier leaves exactly `b`
/// there, and a lookup of that identifier sees `b`.
pub proof fn lemma_overwrite(
    m: Map<Seq<u8>, EntryModel>,
    id: Seq<u8>,
    a: EntryModel,
    b: EntryModel,
)
    ensures
        m.insert(id, a).insert(id, b).contains_key(id),
        m.insert(id, a).insert(id, b)[id] == b,
        forall|q: Seq<u8>|
            q != id ==> (#[trigger] m.insert(id, a).insert(id, b).contains_key(q)
                == m.contains_key(q)),
{
}

/// TTL expiry: once the stored TTL has elapsed, the entry no longer answers
/// lookups, so a retrieve misses instead of returning the stored payload.
pub proof fn lemma_ttl_expiry(
    m: Map<Seq<u8>, EntryModel>,
    id: Seq<u8>,
    data: Seq<u8>,
    ttl: u64,
    now: u64,
    later: u64,
)
    requires
        now + ttl <= u64::MAX,
        later >= now + ttl,
    ensures
        ({
            let m2 = m.insert(id, EntryModel { data, expiry: spec_expiry(Some(ttl), now) });
            &&& m2.contains_key(id)
            &&& !entry_live(m2[id], later)
        }),
{
}

impl View for MessageStore {
    type V = Map<Seq<u8>, EntryModel>;

    closed spec fn view(&self) -> Map<Seq<u8>, EntryModel> {
        Map::new(|k: Seq<u8>| self.has_id(k), |k: Seq<u8>| self.slots@[self.idx_of(k)].msg@)
    }
}

} // verus!
