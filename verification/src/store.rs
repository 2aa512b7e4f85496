//! Lease storage and address allocation.
//!
//! Storage is a trait: the in-memory store lives here, persistent stores
//! (sqlite and the like) live with the caller, and the allocation logic does
//! not change with them.
//!
//! Leases are keyed by `(ScopeId, address)`, not by the bare address: with
//! several NICs two isolated segments may both use `192.168.1.0/24`, and the
//! same address in two scopes is two different things.

use std::collections::HashMap;

use vstd::prelude::*;
use vstd::std_specs::iter::IteratorSpec;

use crate::addr::{ClientId, ClientKey};
use crate::lease::{Lease, LeaseState, LeaseView, UnixTime};
use crate::scope::{lemma_pool_addrs_prefix, lemma_pool_addrs_step, spec_pool_addrs, Scope, ScopeId};

verus! {

/// Where a lease is stored: its scope and its address.
pub type LeaseKey = (ScopeId, u32);

/// The leases of a store, by key.
pub type LeaseMap = Map<LeaseKey, LeaseView>;

pub open spec fn key_of(l: LeaseView) -> LeaseKey {
    (l.scope_id, l.ip)
}

/// The order in which leases are listed: by scope, then by address.
pub open spec fn key_lt(a: LeaseKey, b: LeaseKey) -> bool {
    a.0.0 < b.0.0 || (a.0.0 == b.0.0 && a.1 < b.1)
}

/// A consistent set of leases: finite, each lease stored under its own
/// scope and address, and in each scope a client holds at most one lease.
pub open spec fn leases_wf(m: LeaseMap) -> bool {
    &&& m.dom().finite()
    &&& forall|k: LeaseKey| #[trigger] m.contains_key(k) ==> key_of(m[k]) == k
    &&& forall|k1: LeaseKey, k2: LeaseKey|
        #![trigger m[k1], m[k2]]
        m.contains_key(k1) && m.contains_key(k2) && k1 != k2 && k1.0 == k2.0 ==> m[k1].client
            != m[k2].client
}

/// The lease at `ip` in `scope`.
pub open spec fn spec_lease_at(m: LeaseMap, scope: ScopeId, ip: u32) -> Option<LeaseView> {
    if m.contains_key((scope, ip)) {
        Some(m[(scope, ip)])
    } else {
        None
    }
}

pub open spec fn holds(m: LeaseMap, k: LeaseKey, scope: ScopeId, client: ClientKey) -> bool {
    m.contains_key(k) && k.0 == scope && m[k].client == client
}

/// The lease that `client` holds in `scope`.
pub open spec fn spec_client_lease(m: LeaseMap, scope: ScopeId, client: ClientKey) -> Option<
    LeaseView,
> {
    if exists|k: LeaseKey| #[trigger] holds(m, k, scope, client) {
        Some(m[choose|k: LeaseKey| #[trigger] holds(m, k, scope, client)])
    } else {
        None
    }
}

/// Storing `l`: a client that held another address in that scope leaves it,
/// and whoever held `l`'s address before is replaced.
pub open spec fn spec_insert(m: LeaseMap, l: LeaseView) -> LeaseMap {
    let m1 = match spec_client_lease(m, l.scope_id, l.client) {
        Some(p) => if p.ip != l.ip {
            m.remove((l.scope_id, p.ip))
        } else {
            m
        },
        None => m,
    };
    m1.insert(key_of(l), l)
}

/// Whether `ip` may go to `client` now: nobody holds it; or the client
/// itself does and has not declined it; or someone else does whose lease
/// leaves it available.
pub open spec fn spec_usable_by(
    m: LeaseMap,
    scope: ScopeId,
    ip: u32,
    client: ClientKey,
    now: UnixTime,
) -> bool {
    match spec_lease_at(m, scope, ip) {
        None => true,
        Some(l) => if l.client == client {
            l.state != LeaseState::Declined
        } else {
            l.is_available_for_others(now)
        },
    }
}

/// A lease that reaping removes: expired, and not a declined address, which
/// stays until its quarantine ends.
pub open spec fn is_stale(l: LeaseView, now: UnixTime) -> bool {
    l.is_expired(now) && l.state != LeaseState::Declined
}

pub open spec fn spec_reap(m: LeaseMap, now: UnixTime) -> LeaseMap {
    Map::new(|k: LeaseKey| m.contains_key(k) && !is_stale(m[k], now), |k: LeaseKey| m[k])
}

pub open spec fn spec_clear_scope(m: LeaseMap, scope: ScopeId) -> LeaseMap {
    Map::new(|k: LeaseKey| m.contains_key(k) && k.0 != scope, |k: LeaseKey| m[k])
}

/// `v` lists exactly the leases of `m`, ordered by scope then address.
pub open spec fn lists_sorted(v: Seq<LeaseView>, m: LeaseMap) -> bool {
    &&& v.len() == m.dom().len()
    &&& forall|i: int| 0 <= i < v.len() ==> m.contains_key(key_of(#[trigger] v[i])) && m[key_of(v[i])] == v[i]
    &&& forall|i: int, j: int| 0 <= i < j < v.len() ==> key_lt(key_of(#[trigger] v[i]), key_of(#[trigger] v[j]))
}

/// Lease storage.
pub trait LeaseStore {
    /// The stored leases.
    spec fn leases(&self) -> LeaseMap;

    /// The store's own consistency; it implies [`leases_wf`].
    spec fn inv(&self) -> bool;

    proof fn lemma_inv_wf(&self)
        requires
            self.inv(),
        ensures
            leases_wf(self.leases()),
    ;

    /// Addresses that something outside the store knows to be in use (a
    /// device answering on them, say).
    spec fn occupied(&self) -> Set<u32>;

    fn get_by_ip(&self, scope: ScopeId, ip: u32) -> (r: Option<Lease>)
        requires
            self.inv(),
        ensures
            match r {
                Some(l) => spec_lease_at(self.leases(), scope, ip) == Some(l@),
                None => spec_lease_at(self.leases(), scope, ip) is None,
            },
    ;

    fn get_by_client(&self, scope: ScopeId, client: &ClientId) -> (r: Option<Lease>)
        requires
            self.inv(),
        ensures
            match r {
                Some(l) => spec_client_lease(self.leases(), scope, client@) == Some(l@),
                None => spec_client_lease(self.leases(), scope, client@) is None,
            },
    ;

    /// Stores `lease`, overwriting: see [`spec_insert`].
    fn insert(&mut self, lease: Lease)
        requires
            old(self).inv(),
        ensures
            final(self).inv(),
            final(self).leases() == spec_insert(old(self).leases(), lease@),
            final(self).occupied() == old(self).occupied(),
    ;

    /// Claims the lease's address atomically: stores `lease` if its address
    /// is usable by its client now, and reports whether it did.
    fn try_claim(&mut self, lease: Lease, now: UnixTime) -> (r: bool)
        requires
            old(self).inv(),
        ensures
            final(self).inv(),
            r == spec_usable_by(old(self).leases(), lease.scope_id, lease.ip, lease.client@, now),
            r ==> final(self).leases() == spec_insert(old(self).leases(), lease@),
            !r ==> final(self).leases() == old(self).leases(),
            final(self).occupied() == old(self).occupied(),
    ;

    fn remove(&mut self, scope: ScopeId, ip: u32) -> (r: Option<Lease>)
        requires
            old(self).inv(),
        ensures
            final(self).inv(),
            match r {
                Some(l) => spec_lease_at(old(self).leases(), scope, ip) == Some(l@),
                None => spec_lease_at(old(self).leases(), scope, ip) is None,
            },
            final(self).leases() == old(self).leases().remove((scope, ip)),
            final(self).occupied() == old(self).occupied(),
    ;

    /// Every lease, ordered by scope and address, so that an interface shows
    /// them in a stable order.
    fn all(&self) -> (r: Vec<Lease>)
        requires
            self.inv(),
        ensures
            lists_sorted(r@.map_values(|l: Lease| l@), self.leases()),
    ;

    /// Removes the leases that expired and need not be kept (see
    /// [`is_stale`]); returns how many it removed.
    fn reap(&mut self, now: UnixTime) -> (r: usize)
        requires
            old(self).inv(),
        ensures
            final(self).inv(),
            final(self).leases() == spec_reap(old(self).leases(), now),
            r + final(self).leases().dom().len() == old(self).leases().dom().len(),
            final(self).occupied() == old(self).occupied(),
    ;

    /// Removes every lease of a scope; returns how many there were.
    ///
    /// Deleting a scope must take its leases along, or the usage figures and
    /// the interface keep ghost records of a scope that no longer exists.
    fn clear_scope(&mut self, scope: ScopeId) -> (r: usize)
        requires
            old(self).inv(),
        ensures
            final(self).inv(),
            final(self).leases() == spec_clear_scope(old(self).leases(), scope),
            r + final(self).leases().dom().len() == old(self).leases().dom().len(),
            final(self).occupied() == old(self).occupied(),
    ;

    /// Whether `ip` may go to `client` now (see [`spec_usable_by`]).
    fn usable_by(&self, scope: ScopeId, ip: u32, client: &ClientId, now: UnixTime) -> (r: bool)
        requires
            self.inv(),
        ensures
            r == spec_usable_by(self.leases(), scope, ip, client@, now),
    {
        proof {
            self.lemma_inv_wf();
        }
        match self.get_by_ip(scope, ip) {
            None => true,
            Some(l) => if l.client.same_as(client) {
                l.state != LeaseState::Declined
            } else {
                l.is_available_for_others(now)
            },
        }
    }

    /// Whether something outside the store knows `ip` to be in use.
    fn is_occupied_elsewhere(&self, ip: u32) -> (r: bool)
        ensures
            r == self.occupied().contains(ip),
    ;
}

} // verus!

verus! {

/// `v` lists exactly the leases of `m`, ordered by scope then address.
pub open spec fn lists(v: Seq<Lease>, m: LeaseMap) -> bool {
    &&& m.dom().finite()
    &&& v.len() == m.dom().len()
    &&& forall|i: int|
        0 <= i < v.len() ==> m.contains_key(key_of((#[trigger] v[i])@)) && m[key_of(v[i]@)]
            == v[i]@
    &&& forall|i: int, j: int|
        0 <= i < j < v.len() ==> key_lt(key_of((#[trigger] v[i])@), key_of((#[trigger] v[j])@))
    &&& forall|k: LeaseKey| #[trigger]
        m.contains_key(k) ==> exists|i: int| 0 <= i < v.len() && key_of((#[trigger] v[i])@) == k
}

proof fn lemma_lists_insert(v: Seq<Lease>, m: LeaseMap, p: int, l: Lease)
    requires
        lists(v, m),
        0 <= p <= v.len(),
        forall|i: int| 0 <= i < p ==> key_lt(key_of((#[trigger] v[i])@), key_of(l@)),
        p < v.len() ==> key_lt(key_of(l@), key_of(v[p]@)),
    ensures
        lists(v.insert(p, l), m.insert(key_of(l@), l@)),
{
    let k = key_of(l@);
    let v2 = v.insert(p, l);
    let m2 = m.insert(k, l@);
    assert(!m.contains_key(k)) by {
        if m.contains_key(k) {
            let i = choose|i: int| 0 <= i < v.len() && key_of((#[trigger] v[i])@) == k;
            if i < p {
                assert(key_lt(key_of(v[i]@), k));
            } else {
                if i > p {
                    assert(key_lt(key_of(v[p]@), key_of(v[i]@)));
                }
                assert(key_lt(k, key_of(v[p]@)));
            }
        }
    }
    assert(m2.dom() =~= m.dom().insert(k));
    assert forall|i: int| 0 <= i < v2.len() implies m2.contains_key(key_of((#[trigger] v2[i])@))
        && m2[key_of(v2[i]@)] == v2[i]@ by {
        if i < p {
            assert(v2[i] == v[i]);
            assert(key_lt(key_of(v[i]@), k));
        } else if i > p {
            assert(v2[i] == v[i - 1]);
            if i - 1 > p {
                assert(key_lt(key_of(v[p]@), key_of(v[i - 1]@)));
            }
            assert(key_lt(k, key_of(v[i - 1]@)));
        }
    }
    assert forall|a: int, b: int| 0 <= a < b < v2.len() implies key_lt(
        key_of((#[trigger] v2[a])@),
        key_of((#[trigger] v2[b])@),
    ) by {
        if b < p {
            assert(key_lt(key_of(v[a]@), key_of(v[b]@)));
        } else if b == p {
            assert(v2[a] == v[a]);
        } else if a < p {
            assert(v2[a] == v[a]);
            assert(v2[b] == v[b - 1]);
            assert(key_lt(key_of(v[a]@), k));
            if b - 1 > p {
                assert(key_lt(key_of(v[p]@), key_of(v[b - 1]@)));
            }
            assert(key_lt(k, key_of(v[b - 1]@)));
        } else if a == p {
            assert(v2[b] == v[b - 1]);
            if b - 1 > p {
                assert(key_lt(key_of(v[p]@), key_of(v[b - 1]@)));
            }
        } else {
            assert(v2[a] == v[a - 1]);
            assert(v2[b] == v[b - 1]);
            assert(key_lt(key_of(v[a - 1]@), key_of(v[b - 1]@)));
        }
    }
    assert forall|q: LeaseKey| #[trigger] m2.contains_key(q) implies exists|i: int|
        0 <= i < v2.len() && key_of((#[trigger] v2[i])@) == q by {
        if q == k {
            assert(key_of(v2[p]@) == q);
        } else {
            let i = choose|i: int| 0 <= i < v.len() && key_of((#[trigger] v[i])@) == q;
            if i < p {
                assert(v2[i] == v[i]);
            } else {
                assert(v2[i + 1] == v[i]);
            }
        }
    }
}

/// Puts `l` into `v` where it belongs in key order.
fn place_sorted(v: &mut Vec<Lease>, l: Lease, m: Ghost<LeaseMap>)
    requires
        lists(old(v)@, m@),
        !m@.contains_key(key_of(l@)),
    ensures
        lists(final(v)@, m@.insert(key_of(l@), l@)),
{
    let mut p: usize = 0;
    while p < v.len() && (v[p].scope_id.0 < l.scope_id.0 || (v[p].scope_id.0 == l.scope_id.0
        && v[p].ip < l.ip))
        invariant
            0 <= p <= v@.len(),
            lists(v@, m@),
            !m@.contains_key(key_of(l@)),
            forall|i: int| 0 <= i < p ==> key_lt(key_of((#[trigger] v@[i])@), key_of(l@)),
        decreases v@.len() - p,
    {
        p = p + 1;
    }
    proof {
        if p < v@.len() {
            assert(key_of(v@[p as int]@) != key_of(l@));
        }
        lemma_lists_insert(v@, m@, p as int, l);
    }
    v.insert(p, l);
}

/// In a consistent map, the lease a client holds in a scope is the one under
/// any key at which it is found.
proof fn lemma_client_lease_at(m: LeaseMap, k: LeaseKey, scope: ScopeId, client: ClientKey)
    requires
        leases_wf(m),
        holds(m, k, scope, client),
    ensures
        spec_client_lease(m, scope, client) == Some(m[k]),
{
    let c = choose|q: LeaseKey| #[trigger] holds(m, q, scope, client);
    assert(holds(m, c, scope, client));
    if c != k {
        assert(m[c].client != m[k].client);
    }
}

} // verus!

verus! {

proof fn lemma_insert_wf(m: LeaseMap, l: LeaseView)
    requires
        leases_wf(m),
    ensures
        leases_wf(spec_insert(m, l)),
{
    let k = key_of(l);
    let m1 = match spec_client_lease(m, l.scope_id, l.client) {
        Some(p) => if p.ip != l.ip {
            m.remove((l.scope_id, p.ip))
        } else {
            m
        },
        None => m,
    };
    let m2 = m1.insert(k, l);
    assert(m2 == spec_insert(m, l));
    assert(m1.dom().finite());
    assert forall|k1: LeaseKey, k2: LeaseKey|
        m2.contains_key(k1) && m2.contains_key(k2) && k1 != k2 && k1.0 == k2.0 implies #[trigger] m2[k1].client
        != #[trigger] m2[k2].client by {
        if k1 == k {
            if m1[k2].client == l.client {
                assert(holds(m, k2, l.scope_id, l.client));
                lemma_client_lease_at(m, k2, l.scope_id, l.client);
            }
        } else if k2 == k {
            if m1[k1].client == l.client {
                assert(holds(m, k1, l.scope_id, l.client));
                lemma_client_lease_at(m, k1, l.scope_id, l.client);
            }
        }
    }
}

/// Where a key sits in the in-memory store's hash map: the scope in the
/// high half of the word, the address in the low half.
pub open spec fn slot(k: LeaseKey) -> u64 {
    ((k.0.0 as u64) << 32u64) | (k.1 as u64)
}

/// Two keys never share a slot.
proof fn lemma_slot_injective(a: LeaseKey, b: LeaseKey)
    requires
        slot(a) == slot(b),
    ensures
        a == b,
{
    let (x, y, z, w) = (a.0.0, a.1, b.0.0, b.1);
    assert(x == z && y == w) by (bit_vector)
        requires
            ((x as u64) << 32u64) | (y as u64) == ((z as u64) << 32u64) | (w as u64),
    ;
}

fn slot_of(scope: ScopeId, ip: u32) -> (r: u64)
    ensures
        r == slot((scope, ip)),
{
    ((scope.0 as u64) << 32u64) | (ip as u64)
}

/// `hm` holds exactly the leases of `m`, each in the slot of its key.
pub open spec fn stored(hm: Map<u64, Lease>, m: LeaseMap) -> bool {
    &&& forall|k: LeaseKey| #[trigger]
        m.contains_key(k) ==> hm.contains_key(slot(k)) && hm[slot(k)]@ == m[k]
    &&& forall|u: u64| #[trigger]
        hm.contains_key(u) ==> slot(key_of(hm[u]@)) == u && m.contains_key(key_of(hm[u]@))
}

proof fn lemma_stored_has(hm: Map<u64, Lease>, m: LeaseMap, k: LeaseKey)
    requires
        stored(hm, m),
    ensures
        m.contains_key(k) == hm.contains_key(slot(k)),
        hm.contains_key(slot(k)) ==> key_of(hm[slot(k)]@) == k,
{
    if hm.contains_key(slot(k)) {
        lemma_slot_injective(key_of(hm[slot(k)]@), k);
    }
}

proof fn lemma_stored_insert(hm: Map<u64, Lease>, m: LeaseMap, l: Lease)
    requires
        stored(hm, m),
    ensures
        stored(hm.insert(slot(key_of(l@)), l), m.insert(key_of(l@), l@)),
{
    let k = key_of(l@);
    let hm2 = hm.insert(slot(k), l);
    let m2 = m.insert(k, l@);
    assert forall|q: LeaseKey| #[trigger] m2.contains_key(q) implies hm2.contains_key(slot(q))
        && hm2[slot(q)]@ == m2[q] by {
        if q != k && slot(q) == slot(k) {
            lemma_slot_injective(q, k);
        }
    }
    assert forall|u: u64| #[trigger] hm2.contains_key(u) implies slot(key_of(hm2[u]@)) == u
        && m2.contains_key(key_of(hm2[u]@)) by {
    }
}

proof fn lemma_stored_remove(hm: Map<u64, Lease>, m: LeaseMap, k: LeaseKey)
    requires
        stored(hm, m),
    ensures
        stored(hm.remove(slot(k)), m.remove(k)),
{
    let hm2 = hm.remove(slot(k));
    let m2 = m.remove(k);
    assert forall|q: LeaseKey| #[trigger] m2.contains_key(q) implies hm2.contains_key(slot(q))
        && hm2[slot(q)]@ == m2[q] by {
        if slot(q) == slot(k) {
            lemma_slot_injective(q, k);
        }
    }
    assert forall|u: u64| #[trigger] hm2.contains_key(u) implies slot(key_of(hm2[u]@)) == u
        && m2.contains_key(key_of(hm2[u]@)) by {
    }
}

/// `v` lists each slot of `hm` once.
pub open spec fn lists_slots(v: Seq<u64>, hm: Map<u64, Lease>) -> bool {
    &&& v.no_duplicates()
    &&& forall|j: int| 0 <= j < v.len() ==> hm.contains_key(#[trigger] v[j])
    &&& forall|u: u64| #[trigger] hm.contains_key(u) ==> exists|j: int| 0 <= j < v.len() && v[j] == u
}

/// The in-memory store: leases in a hash map, each under the slot of its
/// scope and address.
pub struct MemoryStore {
    leases: HashMap<u64, Lease>,
    map: Ghost<LeaseMap>,
}

impl MemoryStore {
    pub closed spec fn consistent(&self) -> bool {
        &&& leases_wf(self.map@)
        &&& stored(self.leases@, self.map@)
        &&& self.leases@.len() == self.map@.len()
    }

    pub fn new() -> (r: MemoryStore)
        ensures
            r.inv(),
            r.leases() == Map::<LeaseKey, LeaseView>::empty(),
    {
        let r = MemoryStore { leases: HashMap::new(), map: Ghost(Map::empty()) };
        proof {
            assert(r.map@.dom() =~= Set::<LeaseKey>::empty());
            assert(r.leases@.dom() =~= Set::<u64>::empty());
        }
        r
    }

    /// The number of leases.
    pub fn len(&self) -> (r: usize)
        requires
            self.inv(),
        ensures
            r == self.leases().dom().len(),
    {
        self.leases.len()
    }

    pub fn is_empty(&self) -> (r: bool)
        requires
            self.inv(),
        ensures
            r == (self.leases().dom().len() == 0),
    {
        self.leases.len() == 0
    }

    /// The slots in use, each once.
    fn slots(&self) -> (r: Vec<u64>)
        requires
            self.consistent(),
        ensures
            lists_slots(r@, self.leases@),
    {
        let ghost ks = vstd::std_specs::hash::spec_keys_iter(&self.leases).remaining();
        let mut out: Vec<u64> = Vec::new();
        for u in it: self.leases.keys()
            invariant
                it.seq() == ks,
                ks.unref().to_set() == self.leases@.dom(),
                ks.no_duplicates(),
                out@.len() == it.index(),
                forall|j: int| 0 <= j < it.index() ==> out@[j] == *ks[j],
        {
            out.push(*u);
        }
        proof {
            assert(out@ =~= ks.unref());
            assert forall|j: int| 0 <= j < out@.len() implies self.leases@.contains_key(
                #[trigger] out@[j],
            ) by {
                assert(ks.unref().to_set().contains(out@[j]));
            }
            assert forall|u: u64| #[trigger] self.leases@.contains_key(u) implies exists|j: int|
                0 <= j < out@.len() && out@[j] == u by {
                assert(ks.unref().to_set().contains(u));
                assert(ks.unref().contains(u));
            }
            assert forall|a: int, b: int| 0 <= a < out@.len() && 0 <= b < out@.len() && a != b implies out@[a]
                != out@[b] by {
                assert(ks[a] != ks[b]);
            }
        }
        out
    }
}

} // verus!

verus! {

impl LeaseStore for MemoryStore {
    closed spec fn leases(&self) -> LeaseMap {
        self.map@
    }

    closed spec fn inv(&self) -> bool {
        self.consistent()
    }

    proof fn lemma_inv_wf(&self) {
    }

    /// Nothing outside a memory store marks addresses as occupied.
    open spec fn occupied(&self) -> Set<u32> {
        Set::empty()
    }

    fn get_by_ip(&self, scope: ScopeId, ip: u32) -> (r: Option<Lease>) {
        let u = slot_of(scope, ip);
        proof {
            lemma_stored_has(self.leases@, self.map@, (scope, ip));
        }
        match self.leases.get(&u) {
            Some(l) => Some(l.clone()),
            None => None,
        }
    }

    fn get_by_client(&self, scope: ScopeId, client: &ClientId) -> (r: Option<Lease>) {
        let slots = self.slots();
        let mut i: usize = 0;
        while i < slots.len()
            invariant
                self.consistent(),
                lists_slots(slots@, self.leases@),
                0 <= i <= slots@.len(),
                forall|j: int|
                    0 <= j < i ==> !(self.leases@[#[trigger] slots@[j]].scope_id == scope
                        && self.leases@[slots@[j]].client@ == client@),
            decreases slots@.len() - i,
        {
            let u = slots[i];
            match self.leases.get(&u) {
                Some(l) => {
                    if l.scope_id.0 == scope.0 && l.client.same_as(client) {
                        proof {
                            let k = key_of(l@);
                            assert(holds(self.map@, k, scope, client@));
                            lemma_client_lease_at(self.map@, k, scope, client@);
                        }
                        return Some(l.clone());
                    }
                },
                None => {},
            }
            i = i + 1;
        }
        proof {
            assert forall|k: LeaseKey| !#[trigger] holds(self.map@, k, scope, client@) by {
                if holds(self.map@, k, scope, client@) {
                    let j = choose|j: int| 0 <= j < slots@.len() && slots@[j] == slot(k);
                    assert(self.leases@.contains_key(slot(k)));
                }
            }
        }
        None
    }

    fn insert(&mut self, lease: Lease) {
        let ghost m0 = self.map@;
        let ghost l = lease@;
        let scope = lease.scope_id;
        // A client that held another address in this scope gives it up, or it
        // would keep occupying it.
        match self.get_by_client(scope, &lease.client) {
            Some(p) => {
                if p.ip != lease.ip {
                    self.remove(scope, p.ip);
                }
            },
            None => {},
        }
        let ghost m1 = self.map@;
        proof {
            assert(m1.insert(key_of(l), l) == spec_insert(m0, l));
            lemma_stored_has(self.leases@, m1, key_of(l));
            lemma_stored_insert(self.leases@, m1, lease);
            lemma_insert_wf(m0, l);
        }
        let u = slot_of(scope, lease.ip);
        self.leases.insert(u, lease);
        self.map = Ghost(m1.insert(key_of(l), l));
    }

    fn try_claim(&mut self, lease: Lease, now: UnixTime) -> (r: bool) {
        if self.usable_by(lease.scope_id, lease.ip, &lease.client, now) {
            self.insert(lease);
            true
        } else {
            false
        }
    }

    fn remove(&mut self, scope: ScopeId, ip: u32) -> (r: Option<Lease>) {
        let u = slot_of(scope, ip);
        proof {
            lemma_stored_has(self.leases@, self.map@, (scope, ip));
            lemma_stored_remove(self.leases@, self.map@, (scope, ip));
        }
        let r = self.leases.remove(&u);
        self.map = Ghost(self.map@.remove((scope, ip)));
        r
    }

    fn all(&self) -> (r: Vec<Lease>) {
        let slots = self.slots();
        let mut out: Vec<Lease> = Vec::new();
        let ghost mut km: LeaseMap = Map::empty();
        let mut i: usize = 0;
        proof {
            assert(km.dom() =~= Set::<LeaseKey>::empty());
        }
        while i < slots.len()
            invariant
                self.consistent(),
                lists_slots(slots@, self.leases@),
                0 <= i <= slots@.len(),
                lists(out@, km),
                forall|k: LeaseKey| #[trigger]
                    km.contains_key(k) <==> self.map@.contains_key(k) && exists|j: int|
                        0 <= j < i && slots@[j] == slot(k),
                forall|k: LeaseKey| #[trigger] km.contains_key(k) ==> km[k] == self.map@[k],
            decreases slots@.len() - i,
        {
            let u = slots[i];
            match self.leases.get(&u) {
                Some(l) => {
                    let ghost k = key_of(l@);
                    proof {
                        assert(!km.contains_key(k)) by {
                            if km.contains_key(k) {
                                let j = choose|j: int| 0 <= j < i && slots@[j] == slot(k);
                                assert(slots@[j] == slots@[i as int]);
                            }
                        }
                    }
                    let c = l.clone();
                    place_sorted(&mut out, c, Ghost(km));
                    proof {
                        let km2 = km.insert(k, l@);
                        assert forall|q: LeaseKey| #[trigger]
                            km2.contains_key(q) <==> self.map@.contains_key(q) && exists|j: int|
                                0 <= j < i + 1 && slots@[j] == slot(q) by {
                            if q == k {
                                assert(slots@[i as int] == slot(q));
                            } else if self.map@.contains_key(q) && slots@[i as int] == slot(q) {
                                lemma_slot_injective(q, k);
                            }
                        }
                        km = km2;
                    }
                },
                None => {},
            }
            i = i + 1;
        }
        proof {
            assert(km =~= self.map@) by {
                assert forall|k: LeaseKey| self.map@.contains_key(k) implies #[trigger] km.contains_key(k) by {
                    assert(self.leases@.contains_key(slot(k)));
                }
            }
            let v = out@.map_values(|l: Lease| l@);
            assert forall|a: int| 0 <= a < v.len() implies self.map@.contains_key(key_of(#[trigger] v[a]))
                && self.map@[key_of(v[a])] == v[a] by {
                assert(v[a] == out@[a]@);
            }
            assert forall|a: int, b: int| 0 <= a < b < v.len() implies key_lt(
                key_of(#[trigger] v[a]),
                key_of(#[trigger] v[b]),
            ) by {
                assert(v[a] == out@[a]@);
                assert(v[b] == out@[b]@);
            }
        }
        out
    }

    fn reap(&mut self, now: UnixTime) -> (r: usize) {
        let ghost m0 = self.map@;
        let ghost h0 = self.leases@;
        let slots = self.slots();
        let mut removed: usize = 0;
        let mut i: usize = 0;
        while i < slots.len()
            invariant
                self.consistent(),
                leases_wf(m0),
                stored(h0, m0),
                lists_slots(slots@, h0),
                0 <= i <= slots@.len(),
                removed <= i,
                removed + self.map@.dom().len() == m0.dom().len(),
                forall|j: int| i <= j < slots@.len() ==> self.leases@.contains_key(#[trigger] slots@[j]),
                forall|k: LeaseKey| #[trigger]
                    self.map@.contains_key(k) ==> m0.contains_key(k) && self.map@[k] == m0[k],
                forall|k: LeaseKey| #[trigger]
                    m0.contains_key(k) ==> (self.map@.contains_key(k) <==> !(is_stale(m0[k], now)
                        && exists|j: int| 0 <= j < i && slots@[j] == slot(k))),
            decreases slots@.len() - i,
        {
            let u = slots[i];
            let gone = match self.leases.get(&u) {
                Some(l) => {
                    proof {
                        lemma_stored_has(self.leases@, self.map@, key_of(l@));
                    }
                    // A declined address stays until its quarantine ends, or it
                    // would be handed straight back out.
                    l.is_expired(now) && l.state != LeaseState::Declined
                },
                None => false,
            };
            let ghost k = key_of(self.leases@[u]@);
            proof {
                assert forall|q: LeaseKey| q != k implies slot(q) != u by {
                    if slot(q) == u {
                        lemma_slot_injective(q, k);
                    }
                }
                assert forall|j: int| i < j < slots@.len() implies slots@[j] != u by {
                }
            }
            if gone {
                proof {
                    lemma_stored_remove(self.leases@, self.map@, k);
                }
                self.leases.remove(&u);
                self.map = Ghost(self.map@.remove(k));
                removed = removed + 1;
            }
            proof {
                assert forall|q: LeaseKey| #[trigger]
                    m0.contains_key(q) implies (self.map@.contains_key(q) <==> !(is_stale(m0[q], now)
                        && exists|j: int| 0 <= j < i + 1 && slots@[j] == slot(q))) by {
                    if q == k {
                        assert(slots@[i as int] == slot(q));
                    }
                }
            }
            i = i + 1;
        }
        proof {
            assert forall|k: LeaseKey| #[trigger] m0.contains_key(k) implies exists|j: int|
                0 <= j < slots@.len() && slots@[j] == slot(k) by {
                assert(h0.contains_key(slot(k)));
            }
            assert(self.map@ =~= spec_reap(m0, now));
        }
        removed
    }

    fn clear_scope(&mut self, scope: ScopeId) -> (r: usize) {
        let ghost m0 = self.map@;
        let ghost h0 = self.leases@;
        let slots = self.slots();
        let mut removed: usize = 0;
        let mut i: usize = 0;
        while i < slots.len()
            invariant
                self.consistent(),
                leases_wf(m0),
                stored(h0, m0),
                lists_slots(slots@, h0),
                0 <= i <= slots@.len(),
                removed <= i,
                removed + self.map@.dom().len() == m0.dom().len(),
                forall|j: int| i <= j < slots@.len() ==> self.leases@.contains_key(#[trigger] slots@[j]),
                forall|k: LeaseKey| #[trigger]
                    self.map@.contains_key(k) ==> m0.contains_key(k) && self.map@[k] == m0[k],
                forall|k: LeaseKey| #[trigger]
                    m0.contains_key(k) ==> (self.map@.contains_key(k) <==> !(k.0 == scope
                        && exists|j: int| 0 <= j < i && slots@[j] == slot(k))),
            decreases slots@.len() - i,
        {
            let u = slots[i];
            let gone = match self.leases.get(&u) {
                Some(l) => {
                    proof {
                        lemma_stored_has(self.leases@, self.map@, key_of(l@));
                    }
                    l.scope_id.0 == scope.0
                },
                None => false,
            };
            let ghost k = key_of(self.leases@[u]@);
            proof {
                assert forall|q: LeaseKey| q != k implies slot(q) != u by {
                    if slot(q) == u {
                        lemma_slot_injective(q, k);
                    }
                }
                assert forall|j: int| i < j < slots@.len() implies slots@[j] != u by {
                }
            }
            if gone {
                proof {
                    lemma_stored_remove(self.leases@, self.map@, k);
                }
                self.leases.remove(&u);
                self.map = Ghost(self.map@.remove(k));
                removed = removed + 1;
            }
            proof {
                assert forall|q: LeaseKey| #[trigger]
                    m0.contains_key(q) implies (self.map@.contains_key(q) <==> !(q.0 == scope
                        && exists|j: int| 0 <= j < i + 1 && slots@[j] == slot(q))) by {
                    if q == k {
                        assert(slots@[i as int] == slot(q));
                    }
                }
            }
            i = i + 1;
        }
        proof {
            assert forall|k: LeaseKey| #[trigger] m0.contains_key(k) implies exists|j: int|
                0 <= j < slots@.len() && slots@[j] == slot(k) by {
                assert(h0.contains_key(slot(k)));
            }
            assert(self.map@ =~= spec_clear_scope(m0, scope));
        }
        removed
    }

    fn is_occupied_elsewhere(&self, ip: u32) -> (r: bool) {
        false
    }
}

} // verus!

verus! {

/// The leases of `scope` in use at `now` (offered or bound, not expired).
pub open spec fn active_keys(m: LeaseMap, scope: ScopeId, now: UnixTime) -> Set<LeaseKey> {
    m.dom().filter(|k: LeaseKey| k.0 == scope && m[k].is_active(now))
}

impl MemoryStore {
    /// How many addresses of a scope are in use now, for capacity displays.
    pub fn used_in(&self, scope: ScopeId, now: UnixTime) -> (r: u64)
        requires
            self.inv(),
        ensures
            r == active_keys(self.leases(), scope, now).len(),
    {
        let ghost m = self.map@;
        let slots = self.slots();
        let ghost mut seen: Set<LeaseKey> = Set::empty();
        let mut count: u64 = 0;
        let mut i: usize = 0;
        while i < slots.len()
            invariant
                self.consistent(),
                m == self.map@,
                lists_slots(slots@, self.leases@),
                0 <= i <= slots@.len(),
                seen.finite(),
                count == seen.len(),
                count <= i,
                forall|k: LeaseKey| #[trigger]
                    seen.contains(k) <==> m.contains_key(k) && k.0 == scope && m[k].is_active(now)
                        && exists|j: int| 0 <= j < i && slots@[j] == slot(k),
            decreases slots@.len() - i,
        {
            let u = slots[i];
            let ghost k = key_of(self.leases@[u]@);
            proof {
                lemma_stored_has(self.leases@, m, k);
            }
            let hit = match self.leases.get(&u) {
                Some(l) => l.scope_id.0 == scope.0 && l.is_active(now),
                None => false,
            };
            if hit {
                proof {
                    assert(!seen.contains(k)) by {
                        if seen.contains(k) {
                            let j = choose|j: int| 0 <= j < i && slots@[j] == slot(k);
                            assert(slots@[j] == slots@[i as int]);
                        }
                    }
                    seen = seen.insert(k);
                }
                count = count + 1;
            }
            proof {
                assert forall|q: LeaseKey| #[trigger]
                    seen.contains(q) <==> m.contains_key(q) && q.0 == scope && m[q].is_active(now)
                        && exists|j: int| 0 <= j < i + 1 && slots@[j] == slot(q) by {
                    if q == k {
                        assert(slots@[i as int] == slot(q));
                    } else if slot(q) == u {
                        lemma_slot_injective(q, k);
                    }
                }
            }
            i = i + 1;
        }
        proof {
            assert(seen =~= active_keys(m, scope, now)) by {
                assert forall|q: LeaseKey| active_keys(m, scope, now).contains(q) implies seen.contains(q) by {
                    assert(self.leases@.contains_key(slot(q)));
                }
            }
        }
        count
    }
}

} // verus!

verus! {

/// Why an address was chosen, for logs and the interface.
#[derive(Clone, Copy, PartialEq, Eq, Debug, Structural)]
pub enum AllocSource {
    /// The client's own address, kept.
    Existing,
    /// A static reservation.
    Reservation,
    /// The address the client asked for.
    Requested,
    /// The next free address from the pool.
    Pool,
}

#[derive(Clone, Copy, PartialEq, Eq, Debug, Structural)]
pub struct Allocation {
    pub ip: u32,
    pub source: AllocSource,
}

/// A pool address that may go to `client`: not reserved for someone else,
/// usable by it given the leases `m`, and not among the addresses `occ`
/// known to be in use outside the store.
pub open spec fn pool_ok(
    scope: Scope,
    m: LeaseMap,
    occ: Set<u32>,
    client: ClientKey,
    now: UnixTime,
    ip: u32,
) -> bool {
    &&& !scope.spec_is_reserved_for_other(ip, client)
    &&& spec_usable_by(m, scope.id, ip, client, now)
    &&& !occ.contains(ip)
}

/// The first poolable address (in allocation order) that may go to `client`.
pub open spec fn spec_pool_pick(
    scope: Scope,
    m: LeaseMap,
    occ: Set<u32>,
    client: ClientKey,
    now: UnixTime,
) -> Option<u32> {
    let p = scope.spec_poolable_addrs();
    if exists|i: int| 0 <= i < p.len() && #[trigger] pool_ok(scope, m, occ, client, now, p[i]) {
        Some(
            p[choose|i: int|
                0 <= i < p.len() && pool_ok(scope, m, occ, client, now, p[i]) && forall|j: int|
                    0 <= j < i ==> !#[trigger] pool_ok(scope, m, occ, client, now, p[j])],
        )
    } else {
        None
    }
}

/// Steps 2 to 4 of [`spec_allocate`]: the client's own address, then the
/// requested one, then the pool.
pub open spec fn spec_pick_unreserved(
    scope: Scope,
    m: LeaseMap,
    occ: Set<u32>,
    client: ClientKey,
    requested: Option<u32>,
    now: UnixTime,
) -> Option<Allocation> {
    let existing = match spec_client_lease(m, scope.id, client) {
        Some(e) => if e.state != LeaseState::Declined && scope.spec_is_poolable(e.ip)
            && !scope.spec_is_reserved_for_other(e.ip, client) {
            Some(e.ip)
        } else {
            None
        },
        None => None,
    };
    let wanted = match requested {
        Some(w) => if scope.spec_is_poolable(w) && !scope.spec_is_reserved_for_other(w, client)
            && spec_usable_by(m, scope.id, w, client, now) {
            Some(w)
        } else {
            None
        },
        None => None,
    };
    match existing {
        Some(ip) => Some(Allocation { ip, source: AllocSource::Existing }),
        None => match wanted {
            Some(ip) => Some(Allocation { ip, source: AllocSource::Requested }),
            None => match spec_pool_pick(scope, m, occ, client, now) {
                Some(ip) => Some(Allocation { ip, source: AllocSource::Pool }),
                None => None,
            },
        },
    }
}

/// The address for `client` by the priority of RFC 2131 §4.3.1:
///
/// 1. its static reservation (one the administrator added later takes
///    effect at once, so it wins over the client's history);
/// 2. its own lease, even an expired one (handing back the same address
///    reduces drift);
/// 3. the address it asked for, if usable;
/// 4. the next usable address of the pool.
pub open spec fn spec_allocate(
    scope: Scope,
    m: LeaseMap,
    occ: Set<u32>,
    client: ClientKey,
    requested: Option<u32>,
    now: UnixTime,
) -> Option<Allocation> {
    match scope.reservation_index(client) {
        Some(i) => Some(
            Allocation { ip: scope.reservations@[i].ip, source: AllocSource::Reservation },
        ),
        None => spec_pick_unreserved(scope, m, occ, client, requested, now),
    }
}

/// What [`allocate_and_claim`] settles on: [`spec_allocate`], except that a
/// reservation whose address cannot be claimed (someone else holds it)
/// gives way to the other steps.
pub open spec fn spec_allocate_claim(
    scope: Scope,
    m: LeaseMap,
    occ: Set<u32>,
    client: ClientKey,
    requested: Option<u32>,
    now: UnixTime,
) -> Option<Allocation> {
    match scope.reservation_index(client) {
        Some(i) => if spec_usable_by(m, scope.id, scope.reservations@[i].ip, client, now) {
            Some(Allocation { ip: scope.reservations@[i].ip, source: AllocSource::Reservation })
        } else {
            spec_pick_unreserved(scope, m, occ, client, requested, now)
        },
        None => spec_pick_unreserved(scope, m, occ, client, requested, now),
    }
}

/// No address before position `n` of the pool order may go to `client`.
pub open spec fn none_ok_before(
    scope: Scope,
    m: LeaseMap,
    occ: Set<u32>,
    client: ClientKey,
    now: UnixTime,
    n: int,
) -> bool {
    forall|j: int|
        0 <= j < n ==> !#[trigger] pool_ok(scope, m, occ, client, now, scope.spec_poolable_addrs()[j])
}

/// The pool pick is the first address that may go to the client.
proof fn lemma_pool_pick_is(
    scope: Scope,
    m: LeaseMap,
    occ: Set<u32>,
    client: ClientKey,
    now: UnixTime,
    idx: int,
)
    requires
        0 <= idx < scope.spec_poolable_addrs().len(),
        pool_ok(scope, m, occ, client, now, scope.spec_poolable_addrs()[idx]),
        none_ok_before(scope, m, occ, client, now, idx),
    ensures
        spec_pool_pick(scope, m, occ, client, now) == Some(scope.spec_poolable_addrs()[idx]),
{
    let p = scope.spec_poolable_addrs();
    assert(exists|i: int| 0 <= i < p.len() && #[trigger] pool_ok(scope, m, occ, client, now, p[i]));
    assert(0 <= idx < p.len() && pool_ok(scope, m, occ, client, now, p[idx]) && forall|j: int|
        0 <= j < idx ==> !#[trigger] pool_ok(scope, m, occ, client, now, p[j]));
    let c = choose|c: int|
        0 <= c < p.len() && pool_ok(scope, m, occ, client, now, p[c]) && forall|j: int|
            0 <= j < c ==> !#[trigger] pool_ok(scope, m, occ, client, now, p[j]);
    if c < idx {
        assert(!pool_ok(scope, m, occ, client, now, p[c]));
    }
    if idx < c {
        assert(!pool_ok(scope, m, occ, client, now, p[idx]));
    }
}

/// The poolable addresses among a prefix of the pool addresses are a prefix
/// of the whole pool order.
proof fn lemma_poolable_prefix(scope: Scope, upto: Seq<u32>, next: Seq<u32>)
    requires
        upto.len() <= spec_pool_addrs(scope.pools@).len(),
        spec_pool_addrs(scope.pools@).take(upto.len() as int) == upto,
        next.len() <= upto.len(),
        upto.take(next.len() as int) == next,
    ensures
        scope.poolable_among(next).len() <= scope.spec_poolable_addrs().len(),
        scope.spec_poolable_addrs().take(scope.poolable_among(next).len() as int)
            == scope.poolable_among(next),
{
    let full = spec_pool_addrs(scope.pools@);
    assert(full.take(next.len() as int) =~= next);
    scope.lemma_poolable_among_prefix(next, full);
}

/// The first poolable address that may go to `client`.
fn pool_pick<S: LeaseStore>(scope: &Scope, store: &S, client: &ClientId, now: UnixTime) -> (r:
    Option<u32>)
    requires
        store.inv(),
    ensures
        r == spec_pool_pick(*scope, store.leases(), store.occupied(), client@, now),
{
    proof {
        store.lemma_inv_wf();
    }
    let ghost m = store.leases();
    let ghost occ = store.occupied();
    let mut i: usize = 0;
    while i < scope.pools.len()
        invariant
            0 <= i <= scope.pools@.len(),
            store.inv(),
            m == store.leases(),
            occ == store.occupied(),
            none_ok_before(
                *scope,
                m,
                occ,
                client@,
                now,
                scope.poolable_among(spec_pool_addrs(scope.pools@.take(i as int))).len() as int,
            ),
        decreases scope.pools@.len() - i,
    {
        let rg = scope.pools[i];
        let ghost before = spec_pool_addrs(scope.pools@.take(i as int));
        let ghost upto = spec_pool_addrs(scope.pools@.take(i + 1));
        proof {
            lemma_pool_addrs_step(scope.pools@, i as int);
            lemma_pool_addrs_prefix(scope.pools@, (i + 1) as int);
        }
        if rg.start <= rg.end {
            let mut ip: u64 = rg.start as u64;
            while ip <= rg.end as u64
                invariant
                    0 <= i < scope.pools@.len(),
                    store.inv(),
                    m == store.leases(),
                    occ == store.occupied(),
                    rg.start <= ip <= rg.end as u64 + 1,
                    rg == scope.pools@[i as int],
                    rg.start <= rg.end,
                    upto == before + rg.addrs(),
                    upto.len() <= spec_pool_addrs(scope.pools@).len(),
                    spec_pool_addrs(scope.pools@).take(upto.len() as int) == upto,
                    none_ok_before(
                        *scope,
                        m,
                        occ,
                        client@,
                        now,
                        scope.poolable_among(before + rg.addrs().take(ip - rg.start)).len() as int,
                    ),
                decreases rg.end as u64 + 1 - ip,
            {
                let ghost seen = before + rg.addrs().take(ip - rg.start);
                let ghost next = before + rg.addrs().take(ip - rg.start + 1);
                let a = ip as u32;
                proof {
                    assert(next.drop_last() =~= seen);
                    assert(next.last() == a);
                    assert(upto.take(next.len() as int) =~= next);
                    lemma_poolable_prefix(*scope, upto, next);
                }
                if scope.is_poolable(a) && !scope.is_reserved_for_other(a, client)
                    && store.usable_by(scope.id, a, client, now) && !store.is_occupied_elsewhere(
                    a,
                ) {
                    proof {
                        let n = scope.poolable_among(seen).len() as int;
                        let p = scope.spec_poolable_addrs();
                        assert(scope.poolable_among(next) == scope.poolable_among(seen).push(a));
                        assert(p.take(n + 1)[n] == a);
                        lemma_pool_pick_is(*scope, m, occ, client@, now, n);
                    }
                    return Some(a);
                }
                proof {
                    let n = scope.poolable_among(seen).len() as int;
                    let p = scope.spec_poolable_addrs();
                    if scope.spec_is_poolable(a) {
                        assert(scope.poolable_among(next) == scope.poolable_among(seen).push(a));
                        assert(p.take(n + 1)[n] == a);
                        assert(!pool_ok(*scope, m, occ, client@, now, p[n]));
                    }
                }
                ip = ip + 1;
            }
            proof {
                assert(rg.addrs().take(ip - rg.start) =~= rg.addrs());
            }
        } else {
            proof {
                assert(rg.addrs() =~= Seq::<u32>::empty());
                assert(before + rg.addrs() =~= before);
            }
        }
        i = i + 1;
    }
    proof {
        assert(scope.pools@.take(scope.pools@.len() as int) =~= scope.pools@);
    }
    None
}

/// Whatever steps 2 to 4 pick is usable by the client, so claiming it
/// succeeds.
proof fn lemma_pick_usable(
    scope: Scope,
    m: LeaseMap,
    occ: Set<u32>,
    client: ClientKey,
    requested: Option<u32>,
    now: UnixTime,
)
    requires
        leases_wf(m),
    ensures
        spec_pick_unreserved(scope, m, occ, client, requested, now) matches Some(a)
            ==> spec_usable_by(m, scope.id, a.ip, client, now),
{
    if let Some(e) = spec_client_lease(m, scope.id, client) {
        let k = choose|k: LeaseKey| #[trigger] holds(m, k, scope.id, client);
        assert(holds(m, k, scope.id, client));
        assert(m[k] == e);
        assert(k == (scope.id, e.ip));
    }
    let p = scope.spec_poolable_addrs();
    if exists|i: int| 0 <= i < p.len() && #[trigger] pool_ok(scope, m, occ, client, now, p[i]) {
        let c = choose|i: int|
            0 <= i < p.len() && pool_ok(scope, m, occ, client, now, p[i]) && forall|j: int|
                0 <= j < i ==> !#[trigger] pool_ok(scope, m, occ, client, now, p[j]);
        let w = choose|i: int| 0 <= i < p.len() && #[trigger] pool_ok(scope, m, occ, client, now, p[i]);
        lemma_first_ok(scope, m, occ, client, now, w);
        assert(pool_ok(scope, m, occ, client, now, p[c]));
    }
}

/// If some pool address may go to the client, a first one does.
proof fn lemma_first_ok(
    scope: Scope,
    m: LeaseMap,
    occ: Set<u32>,
    client: ClientKey,
    now: UnixTime,
    w: int,
)
    requires
        0 <= w < scope.spec_poolable_addrs().len(),
        pool_ok(scope, m, occ, client, now, scope.spec_poolable_addrs()[w]),
    ensures
        exists|i: int|
            0 <= i < scope.spec_poolable_addrs().len() && pool_ok(
                scope,
                m,
                occ,
                client,
                now,
                scope.spec_poolable_addrs()[i],
            ) && forall|j: int|
                0 <= j < i ==> !#[trigger] pool_ok(
                    scope,
                    m,
                    occ,
                    client,
                    now,
                    scope.spec_poolable_addrs()[j],
                ),
    decreases w,
{
    let p = scope.spec_poolable_addrs();
    if exists|j: int| 0 <= j < w && #[trigger] pool_ok(scope, m, occ, client, now, p[j]) {
        let j = choose|j: int| 0 <= j < w && #[trigger] pool_ok(scope, m, occ, client, now, p[j]);
        lemma_first_ok(scope, m, occ, client, now, j);
    } else {
        assert(0 <= w < p.len() && pool_ok(scope, m, occ, client, now, p[w]) && forall|j: int|
            0 <= j < w ==> !#[trigger] pool_ok(scope, m, occ, client, now, p[j]));
    }
}

/// Steps 2 to 4 of the allocation order (see [`spec_pick_unreserved`]).
fn pick_unreserved<S: LeaseStore>(
    scope: &Scope,
    store: &S,
    client: &ClientId,
    requested: Option<u32>,
    now: UnixTime,
) -> (r: Option<Allocation>)
    requires
        store.inv(),
    ensures
        r == spec_pick_unreserved(*scope, store.leases(), store.occupied(), client@, requested, now),
{
    if let Some(existing) = store.get_by_client(scope.id, client) {
        if existing.state != LeaseState::Declined && scope.is_poolable(existing.ip)
            && !scope.is_reserved_for_other(existing.ip, client) {
            return Some(Allocation { ip: existing.ip, source: AllocSource::Existing });
        }
    }
    if let Some(want) = requested {
        if scope.is_poolable(want) && !scope.is_reserved_for_other(want, client)
            && store.usable_by(scope.id, want, client, now) {
            return Some(Allocation { ip: want, source: AllocSource::Requested });
        }
    }
    match pool_pick(scope, store, client, now) {
        Some(ip) => Some(Allocation { ip, source: AllocSource::Pool }),
        None => None,
    }
}

/// Picks an address for `client` by the priority of RFC 2131 §4.3.1 (see
/// [`spec_allocate`]), without storing anything.
pub fn allocate<S: LeaseStore>(
    scope: &Scope,
    store: &S,
    client: &ClientId,
    requested: Option<u32>,
    now: UnixTime,
) -> (r: Option<Allocation>)
    requires
        store.inv(),
    ensures
        r == spec_allocate(*scope, store.leases(), store.occupied(), client@, requested, now),
{
    if let Some(res) = scope.reservation_for(client) {
        return Some(Allocation { ip: res.ip, source: AllocSource::Reservation });
    }
    pick_unreserved(scope, store, client, requested, now)
}

/// `l` moved to the address `ip`.
pub open spec fn at_ip(l: LeaseView, ip: u32) -> LeaseView {
    LeaseView { ip, ..l }
}

/// A copy of `l` at the address `ip`.
pub fn lease_at_ip(l: &Lease, ip: u32) -> (r: Lease)
    ensures
        r@ == at_ip(l@, ip),
{
    let mut c = l.clone();
    c.ip = ip;
    c
}

/// Picks an address and claims it in one go: each candidate is claimed with
/// [`LeaseStore::try_claim`] as it is picked, and a candidate that cannot be
/// claimed gives way to the next one, so that two requests racing for the
/// same address cannot both get it.
///
/// `template` is the lease to store; its address is replaced by the one
/// picked.
pub fn allocate_and_claim<S: LeaseStore>(
    scope: &Scope,
    store: &mut S,
    client: &ClientId,
    requested: Option<u32>,
    now: UnixTime,
    template: &Lease,
) -> (r: Option<Allocation>)
    requires
        old(store).inv(),
        template.client@ == client@,
        template.scope_id == scope.id,
    ensures
        final(store).inv(),
        r == spec_allocate_claim(
            *scope,
            old(store).leases(),
            old(store).occupied(),
            client@,
            requested,
            now,
        ),
        match r {
            Some(a) => final(store).leases() == spec_insert(
                old(store).leases(),
                at_ip(template@, a.ip),
            ),
            None => final(store).leases() == old(store).leases(),
        },
        final(store).occupied() == old(store).occupied(),
{
    if let Some(res) = scope.reservation_for(client) {
        let ip = res.ip;
        if store.try_claim(lease_at_ip(template, ip), now) {
            return Some(Allocation { ip, source: AllocSource::Reservation });
        }
    }
    proof {
        store.lemma_inv_wf();
        lemma_pick_usable(*scope, store.leases(), store.occupied(), client@, requested, now);
    }
    match pick_unreserved(scope, store, client, requested, now) {
        Some(a) => {
            let ok = store.try_claim(lease_at_ip(template, a.ip), now);
            if ok {
                Some(a)
            } else {
                None
            }
        },
        None => None,
    }
}

/// A client that holds a lease in the scope, not declined, on an address
/// of the pool that is reserved for nobody else, and that has no
/// reservation of its own, gets that address back, as its own: whatever
/// address it asks for, and whether or not the lease has expired.
pub proof fn law_own_lease_before_the_request(
    scope: Scope,
    m: LeaseMap,
    occ: Set<u32>,
    client: ClientKey,
    requested: Option<u32>,
    now: UnixTime,
    ip: u32,
)
    requires
        leases_wf(m),
        m.contains_key((scope.id, ip)),
        m[(scope.id, ip)].client == client,
        m[(scope.id, ip)].state != LeaseState::Declined,
        scope.spec_is_poolable(ip),
        !scope.spec_is_reserved_for_other(ip, client),
        forall|i: int| 0 <= i < scope.reservations@.len() ==> (#[trigger] scope.reservations@[i]).client@ != client,
    ensures
        spec_allocate(scope, m, occ, client, requested, now) == Some(
            Allocation { ip, source: AllocSource::Existing },
        ),
        spec_allocate_claim(scope, m, occ, client, requested, now) == Some(
            Allocation { ip, source: AllocSource::Existing },
        ),
{
    let k = (scope.id, ip);
    assert(holds(m, k, scope.id, client));
    lemma_client_lease_at(m, k, scope.id, client);
    assert(m[k].ip == ip);
    assert(scope.reservation_index(client) is None);
}

/// Storing a lease keeps the leases consistent, and afterwards the lease
/// is found both by its address and by its client; the client's previous
/// address in that scope is freed, whoever held the address before loses
/// it, and nothing in another scope changes.
pub proof fn law_insert_then_lookup(m: LeaseMap, l: LeaseView)
    requires
        leases_wf(m),
    ensures
        leases_wf(spec_insert(m, l)),
        spec_lease_at(spec_insert(m, l), l.scope_id, l.ip) == Some(l),
        spec_client_lease(spec_insert(m, l), l.scope_id, l.client) == Some(l),
        forall|ip: u32|
            ip != l.ip && #[trigger] spec_lease_at(m, l.scope_id, ip) is Some && spec_lease_at(
                m,
                l.scope_id,
                ip,
            ).unwrap().client == l.client ==> spec_lease_at(spec_insert(m, l), l.scope_id, ip) is None,
        forall|c: ClientKey|
            c != l.client && #[trigger] spec_client_lease(spec_insert(m, l), l.scope_id, c) is Some
                ==> spec_client_lease(spec_insert(m, l), l.scope_id, c).unwrap().ip != l.ip,
        forall|k: LeaseKey|
            k.0 != l.scope_id ==> (#[trigger] spec_insert(m, l).contains_key(k) == m.contains_key(k)
                && spec_insert(m, l)[k] == m[k]),
{
    lemma_insert_wf(m, l);
    let m2 = spec_insert(m, l);
    let k = key_of(l);
    assert(holds(m2, k, l.scope_id, l.client));
    lemma_client_lease_at(m2, k, l.scope_id, l.client);
    assert forall|ip: u32|
        ip != l.ip && #[trigger] spec_lease_at(m, l.scope_id, ip) is Some && spec_lease_at(
            m,
            l.scope_id,
            ip,
        ).unwrap().client == l.client implies spec_lease_at(spec_insert(m, l), l.scope_id, ip)
        is None by {
        assert(holds(m, (l.scope_id, ip), l.scope_id, l.client));
        lemma_client_lease_at(m, (l.scope_id, ip), l.scope_id, l.client);
    }
    assert forall|c: ClientKey|
        c != l.client && #[trigger] spec_client_lease(spec_insert(m, l), l.scope_id, c)
            is Some implies spec_client_lease(spec_insert(m, l), l.scope_id, c).unwrap().ip
        != l.ip by {
        let q2 = choose|q: LeaseKey| #[trigger] holds(m2, q, l.scope_id, c);
        assert(holds(m2, q2, l.scope_id, c));
    }
}

/// A removed lease is gone, and nothing else changes.
pub proof fn law_remove_then_lookup(m: LeaseMap, scope: ScopeId, ip: u32)
    requires
        leases_wf(m),
    ensures
        leases_wf(m.remove((scope, ip))),
        spec_lease_at(m.remove((scope, ip)), scope, ip) is None,
        forall|s: ScopeId, a: u32|
            (s, a) != (scope, ip) ==> #[trigger] spec_lease_at(m.remove((scope, ip)), s, a)
                == spec_lease_at(m, s, a),
{
}

/// Allocation never hands out an address whose lease the client cannot use
/// (see [`spec_usable_by`]): one that another client holds and has not
/// given up (an offer or binding that has not expired, or a quarantined
/// address), nor one the client itself declined. This is what keeps two
/// clients off one address, and a declined address out of circulation.
pub proof fn law_allocation_skips_unusable(
    scope: Scope,
    m: LeaseMap,
    occ: Set<u32>,
    client: ClientKey,
    requested: Option<u32>,
    now: UnixTime,
    ip: u32,
)
    requires
        leases_wf(m),
        !spec_usable_by(m, scope.id, ip, client, now),
    ensures
        spec_allocate_claim(scope, m, occ, client, requested, now) matches Some(a) ==> a.ip != ip,
{
    lemma_pick_usable(scope, m, occ, client, requested, now);
}

/// Every address the pool order lists is poolable.
proof fn lemma_poolable_among_all(scope: Scope, a: Seq<u32>)
    ensures
        forall|i: int|
            0 <= i < scope.poolable_among(a).len() ==> scope.spec_is_poolable(
                #[trigger] scope.poolable_among(a)[i],
            ),
    decreases a.len(),
{
    if a.len() > 0 {
        lemma_poolable_among_all(scope, a.drop_last());
        let rest = scope.poolable_among(a.drop_last());
        assert forall|i: int|
            0 <= i < scope.poolable_among(a).len() implies scope.spec_is_poolable(
            #[trigger] scope.poolable_among(a)[i],
        ) by {
            if i < rest.len() {
                assert(scope.poolable_among(a)[i] == rest[i]);
            }
        }
    }
}

/// What allocation settles on is usable by the client, so claiming it
/// succeeds; unless it is the client's reservation it is not reserved for
/// anyone else; and a pool address is poolable and not known to be in use
/// outside the store.
pub proof fn law_allocation_is_claimable(
    scope: Scope,
    m: LeaseMap,
    occ: Set<u32>,
    client: ClientKey,
    requested: Option<u32>,
    now: UnixTime,
)
    requires
        leases_wf(m),
    ensures
        spec_allocate_claim(scope, m, occ, client, requested, now) matches Some(a) ==> {
            &&& spec_usable_by(m, scope.id, a.ip, client, now)
            &&& a.source != AllocSource::Reservation ==> !scope.spec_is_reserved_for_other(
                a.ip,
                client,
            )
            &&& a.source == AllocSource::Pool ==> !occ.contains(a.ip) && scope.spec_is_poolable(
                a.ip,
            )
        },
{
    lemma_pick_usable(scope, m, occ, client, requested, now);
    let p = scope.spec_poolable_addrs();
    lemma_poolable_among_all(scope, spec_pool_addrs(scope.pools@));
    if exists|i: int| 0 <= i < p.len() && #[trigger] pool_ok(scope, m, occ, client, now, p[i]) {
        let c = choose|i: int|
            0 <= i < p.len() && pool_ok(scope, m, occ, client, now, p[i]) && forall|j: int|
                0 <= j < i ==> !#[trigger] pool_ok(scope, m, occ, client, now, p[j]);
        let w = choose|i: int| 0 <= i < p.len() && #[trigger] pool_ok(scope, m, occ, client, now, p[i]);
        lemma_first_ok(scope, m, occ, client, now, w);
        assert(pool_ok(scope, m, occ, client, now, p[c]));
        assert(scope.spec_is_poolable(p[c]));
    }
}

} // verus!
