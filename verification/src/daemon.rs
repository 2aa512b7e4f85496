//! The service's state: its scopes, its listeners and its leases, and every
//! change the interface can ask for. Locking, notifying the interface and
//! writing the configuration back are the caller's part; what changes, and
//! when a change is refused, is decided here.

use vstd::prelude::*;

use crate::addr::{ClientId, ClientKey, Range};
use crate::config::{Config, Listener};
use crate::net::{model_of, models, Interface, InterfaceModel, Platform};
use crate::lease::opt_text;
use crate::events::{changes_leases, event_views, packet_event, spec_counted, spec_packet_events, Counters, Event};
use crate::lease::{Lease, UnixTime};
use crate::message::Request;
use crate::parse::{push_dec, push_ipv4, push_str, spec_dec, spec_ipv4_text};
use crate::scope::{
    spec_scope_error_text, spec_validate, ScopeError,
    reservation_value, reservation_values, scope_values, Reservation, ReservationValue, Scope, ScopeId,
    ScopeValue, spec_scope_id_text, push_net, spec_net_text, spec_pool_addrs,
};
use crate::server::{handle, spec_handle, time_ok, Outcome, RecvCtx, ServerConfig};
use crate::store::{
    active_keys, lists_sorted, leases_wf, spec_clear_scope, spec_client_lease, spec_insert, spec_lease_at,
    spec_reap, LeaseMap, LeaseStore, MemoryStore,
};
use crate::text::string_from_chars;

verus! {

/// The store the service runs on: the leases, and the addresses the probe
/// found held by someone else (which allocation must skip).
pub struct ProbedStore {
    pub store: MemoryStore,
    pub taken: Vec<u32>,
}

impl LeaseStore for ProbedStore {
    open spec fn leases(&self) -> LeaseMap {
        self.store.leases()
    }

    open spec fn inv(&self) -> bool {
        self.store.inv()
    }

    proof fn lemma_inv_wf(&self) {
        self.store.lemma_inv_wf();
    }

    open spec fn occupied(&self) -> Set<u32> {
        Set::new(|ip: u32| self.taken@.contains(ip))
    }

    fn get_by_ip(&self, scope: ScopeId, ip: u32) -> (r: Option<Lease>) {
        self.store.get_by_ip(scope, ip)
    }

    fn get_by_client(&self, scope: ScopeId, client: &ClientId) -> (r: Option<Lease>) {
        self.store.get_by_client(scope, client)
    }

    fn insert(&mut self, lease: Lease) {
        self.store.insert(lease);
    }

    fn try_claim(&mut self, lease: Lease, now: UnixTime) -> (r: bool) {
        self.store.try_claim(lease, now)
    }

    fn remove(&mut self, scope: ScopeId, ip: u32) -> (r: Option<Lease>) {
        self.store.remove(scope, ip)
    }

    fn all(&self) -> (r: Vec<Lease>) {
        self.store.all()
    }

    fn reap(&mut self, now: UnixTime) -> (r: usize) {
        self.store.reap(now)
    }

    fn clear_scope(&mut self, scope: ScopeId) -> (r: usize) {
        self.store.clear_scope(scope)
    }

    fn is_occupied_elsewhere(&self, ip: u32) -> (r: bool) {
        let mut k: usize = 0;
        while k < self.taken.len()
            invariant
                0 <= k <= self.taken@.len(),
                forall|j: int| 0 <= j < k ==> self.taken@[j] != ip,
            decreases self.taken@.len() - k,
        {
            if self.taken[k] == ip {
                return true;
            }
            k = k + 1;
        }
        false
    }
}

/// The service's state.
pub struct Daemon {
    pub server: ServerConfig,
    pub listeners: Vec<Listener>,
    pub store: ProbedStore,
    /// What has been handled so far.
    pub counts: Counters,
}

/// Whether some scope in `scopes` has the identifier `id`.
pub open spec fn has_scope(scopes: Seq<Scope>, id: ScopeId) -> bool {
    exists|k: int| 0 <= k < scopes.len() && #[trigger] scopes[k].id == id
}

/// The first scope with the identifier `id`.
pub open spec fn scope_index(scopes: Seq<Scope>, id: ScopeId) -> int {
    choose|k: int| 0 <= k < scopes.len() && scopes[k].id == id && forall|j: int| 0 <= j < k ==> #[trigger] scopes[j].id != id
}

/// "No such scope".
pub open spec fn spec_no_scope_text(id: ScopeId) -> Seq<char> {
    "没有 "@ + spec_scope_id_text(id) + " 这个作用域"@
}

fn no_scope_text(id: ScopeId) -> (r: String)
    ensures
        r@ == spec_no_scope_text(id),
{
    let mut out: Vec<char> = Vec::new();
    push_str(&mut out, "没有 ");
    push_str(&mut out, id.to_text().as_str());
    push_str(&mut out, " 这个作用域");
    string_from_chars(out.as_slice())
}

pub open spec fn ip_set(v: Seq<u32>) -> Set<u32> {
    Set::new(|ip: u32| v.contains(ip))
}

impl Daemon {
    pub open spec fn wf(&self) -> bool {
        self.store.inv()
    }

    pub open spec fn leases(&self) -> LeaseMap {
        self.store.leases()
    }

    /// A service with the given configuration and no leases.
    pub fn new(cfg: Config) -> (r: Daemon)
        ensures
            r.wf(),
            r.server.scopes@ == cfg.scopes@,
            r.listeners@ == cfg.listeners@,
            r.leases() == Map::<(ScopeId, u32), crate::lease::LeaseView>::empty(),
            r.counts == (Counters { packets: 0, offers: 0, acks: 0, naks: 0, drops: 0, last_packet_at: 0 }),
    {
        let Config { listeners, scopes } = cfg;
        Daemon {
            server: ServerConfig::new(scopes),
            listeners,
            store: ProbedStore { store: MemoryStore::new(), taken: Vec::new() },
            counts: Counters::new(),
        }
    }

    /// The index of the scope `id`.
    fn find_scope(&self, id: ScopeId) -> (r: Option<usize>)
        ensures
            match r {
                Some(k) => has_scope(self.server.scopes@, id) && k == scope_index(self.server.scopes@, id)
                    && k < self.server.scopes@.len() && self.server.scopes@[k as int].id == id,
                None => !has_scope(self.server.scopes@, id),
            },
    {
        let ghost s = self.server.scopes@;
        let mut k: usize = 0;
        while k < self.server.scopes.len()
            invariant
                0 <= k <= s.len(),
                s == self.server.scopes@,
                forall|j: int| 0 <= j < k ==> #[trigger] s[j].id != id,
            decreases s.len() - k,
        {
            if self.server.scopes[k].id.0 == id.0 {
                proof {
                    assert(s[k as int].id == id);
                    let c = scope_index(s, id);
                    assert(c == k) by {
                        if c < k {
                            assert(s[c].id != id);
                        }
                        if c > k {
                            assert(s[k as int].id == id);
                        }
                    }
                }
                return Some(k);
            }
            k = k + 1;
        }
        None
    }

    /// Handles one packet that came at `at` on the listener `server_ip`,
    /// with `taken` the addresses the probe holds back and `blocked` its
    /// summary of them; gives the outcome and what to tell the interface,
    /// in order (see [`spec_packet_events`]).
    pub fn handle_packet(&mut self, req: &Request, server_ip: u32, at: u64, taken: Vec<u32>, blocked: &str) -> (r: (
        Outcome,
        Vec<Event>,
    ))
        requires
            old(self).wf(),
            time_ok(at),
        ensures
            final(self).wf(),
            final(self).server.scopes@ == old(self).server.scopes@,
            final(self).listeners@ == old(self).listeners@,
            (r.0@, final(self).leases()) == spec_handle(
                old(self).server.scopes@,
                old(self).leases(),
                ip_set(taken@),
                req@,
                RecvCtx { now: at, server_ip },
            ),
            event_views(r.1@) == spec_packet_events(req@, r.0@, at, blocked@),
            final(self).counts == spec_counted(old(self).counts, r.0@, at),
    {
        self.store.taken = taken;
        let ctx = RecvCtx { now: at, server_ip };
        let outcome = handle(&self.server, &mut self.store, req, ctx);
        proof {
            assert(self.store.occupied() =~= ip_set(taken@));
        }
        self.counts.count(&outcome, at);
        let mut events: Vec<Event> = Vec::new();
        events.push(Event::Packet(packet_event(req, &outcome, at, blocked)));
        if changes_leases(&outcome) {
            events.push(Event::LeasesChanged);
        }
        proof {
            assert(event_views(events@) =~= spec_packet_events(req@, outcome@, at, blocked@));
        }
        (outcome, events)
    }

    /// Every lease, ordered by scope and address.
    pub fn leases_list(&self) -> (r: Vec<Lease>)
        requires
            self.wf(),
        ensures
            lists_sorted(r@.map_values(|l: Lease| l@), self.leases()),
    {
        self.store.all()
    }

    /// Revokes a lease by hand; says whether there was one.
    pub fn revoke(&mut self, scope: ScopeId, ip: u32) -> (r: bool)
        requires
            old(self).wf(),
        ensures
            final(self).wf(),
            final(self).counts == old(self).counts,
            r == (spec_lease_at(old(self).leases(), scope, ip) is Some),
            final(self).leases() == old(self).leases().remove((scope, ip)),
            final(self).server.scopes@ == old(self).server.scopes@,
            final(self).listeners@ == old(self).listeners@,
    {
        self.store.remove(scope, ip).is_some()
    }

    /// Removes the expired leases that need not be kept; says how many.
    pub fn reap(&mut self, now: UnixTime) -> (r: usize)
        requires
            old(self).wf(),
        ensures
            final(self).wf(),
            final(self).counts == old(self).counts,
            final(self).leases() == spec_reap(old(self).leases(), now),
            r + final(self).leases().dom().len() == old(self).leases().dom().len(),
            final(self).server.scopes@ == old(self).server.scopes@,
            final(self).listeners@ == old(self).listeners@,
    {
        self.store.reap(now)
    }

    /// The addresses of a scope already handed out; the probe looks only
    /// at the others.
    pub fn leased_ips(&self, scope: ScopeId) -> (r: Vec<u32>)
        requires
            self.wf(),
        ensures
            forall|ip: u32| r@.contains(ip) <==> self.leases().contains_key((scope, ip)),
    {
        let all = self.store.all();
        let ghost views = all@.map_values(|l: Lease| l@);
        let mut out: Vec<u32> = Vec::new();
        let mut k: usize = 0;
        while k < all.len()
            invariant
                0 <= k <= all@.len(),
                views == all@.map_values(|l: Lease| l@),
                lists_sorted(views, self.leases()),
                forall|ip: u32| out@.contains(ip) <==> exists|j: int| 0 <= j < k && #[trigger] views[j].scope_id == scope && views[j].ip == ip,
            decreases all@.len() - k,
        {
            if all[k].scope_id.0 == scope.0 {
                let ghost prev = out@;
                out.push(all[k].ip);
                proof {
                    assert forall|ip: u32| out@.contains(ip) <==> exists|j: int| 0 <= j < k + 1 && #[trigger] views[j].scope_id == scope && views[j].ip == ip by {
                        if out@.contains(ip) {
                            let x = choose|x: int| 0 <= x < out@.len() && out@[x] == ip;
                            if x < prev.len() {
                                assert(prev.contains(ip));
                            } else {
                                assert(views[k as int].scope_id == scope && views[k as int].ip == ip);
                            }
                        }
                        if exists|j: int| 0 <= j < k + 1 && #[trigger] views[j].scope_id == scope && views[j].ip == ip {
                            let j = choose|j: int| 0 <= j < k + 1 && #[trigger] views[j].scope_id == scope && views[j].ip == ip;
                            if j < k {
                                assert(prev.contains(ip));
                                let x = choose|x: int| 0 <= x < prev.len() && prev[x] == ip;
                                assert(out@[x] == ip);
                            } else {
                                assert(out@[prev.len() as int] == ip);
                            }
                        }
                    }
                }
            }
            k = k + 1;
        }
        proof {
            assert forall|ip: u32| out@.contains(ip) <==> self.leases().contains_key((scope, ip)) by {
                if out@.contains(ip) {
                    let j = choose|j: int| 0 <= j < all@.len() && #[trigger] views[j].scope_id == scope && views[j].ip == ip;
                    assert(self.leases().contains_key(crate::store::key_of(views[j])));
                }
                if self.leases().contains_key((scope, ip)) {
                    self.store.lemma_inv_wf();
                    lemma_listed(views, self.leases(), (scope, ip));
                }
            }
        }
        out
    }

    /// Deletes a scope with its leases; says how many leases went with it.
    /// The listeners stay: a listener only receives on an interface, and a
    /// scope created later on the same network needs it.
    pub fn remove_scope(&mut self, id: ScopeId) -> (r: Result<usize, String>)
        requires
            old(self).wf(),
        ensures
            final(self).wf(),
            final(self).counts == old(self).counts,
            final(self).listeners@ == old(self).listeners@,
            match r {
                Ok(n) => has_scope(old(self).server.scopes@, id)
                    && final(self).server.scopes@ == old(self).server.scopes@.filter(other_than(id))
                    && final(self).leases() == spec_clear_scope(old(self).leases(), id)
                    && n + final(self).leases().dom().len() == old(self).leases().dom().len(),
                Err(e) => !has_scope(old(self).server.scopes@, id) && e@ == spec_no_scope_text(id)
                    && final(self).server.scopes@ == old(self).server.scopes@
                    && final(self).leases() == old(self).leases(),
            },
    {
        if self.find_scope(id).is_none() {
            return Err(no_scope_text(id));
        }
        let mut all: Vec<Scope> = Vec::new();
        std::mem::swap(&mut all, &mut self.server.scopes);
        self.server.scopes = without_scope(all, id);
        let n = self.store.clear_scope(id);
        Ok(n)
    }
}

pub open spec fn other_than(id: ScopeId) -> spec_fn(Scope) -> bool {
    |s: Scope| s.id != id
}

/// The scopes other than `id`, in order.
fn without_scope(all: Vec<Scope>, id: ScopeId) -> (r: Vec<Scope>)
    ensures
        r@ == all@.filter(other_than(id)),
{
    let ghost orig = all@;
    let mut rest = all;
    let mut kept: Vec<Scope> = Vec::new();
    while rest.len() > 0
        invariant
            rest@.len() <= orig.len(),
            rest@ == orig.skip(orig.len() - rest@.len()),
            kept@ == orig.take(orig.len() - rest@.len()).filter(other_than(id)),
        decreases rest@.len(),
    {
        let ghost done = orig.len() - rest@.len();
        let x = rest.remove(0);
        proof {
            assert(orig.take(done + 1) =~= orig.take(done).push(x));
            assert(rest@ =~= orig.skip(done + 1));
            orig.take(done).lemma_filter_push(x, other_than(id));
        }
        if x.id.0 != id.0 {
            kept.push(x);
        }
    }
    proof {
        assert(orig.take(orig.len() as int) =~= orig);
    }
    kept
}

/// Every key of a well-formed lease table appears in a list that
/// [`lists_sorted`] relates to it.
proof fn lemma_listed(v: Seq<crate::lease::LeaseView>, m: LeaseMap, k: (ScopeId, u32))
    requires
        lists_sorted(v, m),
        m.contains_key(k),
        m.dom().finite(),
    ensures
        exists|j: int| 0 <= j < v.len() && #[trigger] v[j].scope_id == k.0 && v[j].ip == k.1,
{
    let keys = Set::new(|x: (ScopeId, u32)| exists|j: int| 0 <= j < v.len() && crate::store::key_of(#[trigger] v[j]) == x);
    if !(exists|j: int| 0 <= j < v.len() && #[trigger] v[j].scope_id == k.0 && v[j].ip == k.1) {
        assert(keys.subset_of(m.dom().remove(k))) by {
            assert forall|x: (ScopeId, u32)| keys.contains(x) implies m.dom().remove(k).contains(x) by {
                let j = choose|j: int| 0 <= j < v.len() && crate::store::key_of(#[trigger] v[j]) == x;
                assert(m.contains_key(crate::store::key_of(v[j])));
            }
        }
        lemma_distinct_keys_len(v, m);
        vstd::set_lib::lemma_len_subset(keys, m.dom().remove(k));
    }
}

/// A sorted list of distinct keys has as many keys as entries.
proof fn lemma_distinct_keys_len(v: Seq<crate::lease::LeaseView>, m: LeaseMap)
    requires
        lists_sorted(v, m),
    ensures
        Set::new(|x: (ScopeId, u32)| exists|j: int| 0 <= j < v.len() && crate::store::key_of(#[trigger] v[j]) == x).len() == v.len(),
        Set::new(|x: (ScopeId, u32)| exists|j: int| 0 <= j < v.len() && crate::store::key_of(#[trigger] v[j]) == x).finite(),
{
    let ks = v.map_values(|l: crate::lease::LeaseView| crate::store::key_of(l));
    assert forall|i: int, j: int| 0 <= i < j < ks.len() implies ks[i] != ks[j] by {
        assert(crate::store::key_lt(crate::store::key_of(v[i]), crate::store::key_of(v[j])));
    }
    ks.unique_seq_to_set();
    assert(ks.to_set() =~= Set::new(|x: (ScopeId, u32)| exists|j: int| 0 <= j < v.len() && crate::store::key_of(#[trigger] v[j]) == x)) by {
        assert forall|x: (ScopeId, u32)| ks.to_set().contains(x) <==> exists|j: int| 0 <= j < v.len() && crate::store::key_of(#[trigger] v[j]) == x by {
            if ks.to_set().contains(x) {
                assert(ks.contains(x));
                let i = choose|i: int| 0 <= i < ks.len() && ks[i] == x;
                assert(crate::store::key_of(v[i]) == x);
            }
            if exists|j: int| 0 <= j < v.len() && crate::store::key_of(#[trigger] v[j]) == x {
                let j = choose|j: int| 0 <= j < v.len() && crate::store::key_of(#[trigger] v[j]) == x;
                assert(ks[j] == x);
                assert(ks.contains(x));
            }
        }
    }
}

/// The messages for a scope's problems, in order.
pub open spec fn error_texts(errs: Seq<ScopeError>) -> Seq<Seq<char>> {
    errs.map_values(|e: ScopeError| spec_scope_error_text(e))
}

pub open spec fn strings(v: Seq<String>) -> Seq<Seq<char>> {
    v.map_values(|s: String| s@)
}

/// The problems [`Scope::validate`] finds in a scope.
#[verifier::opaque]
pub open spec fn scope_errors(s: Scope) -> Seq<ScopeError> {
    spec_validate(s)
}

fn problems_of(s: &Scope) -> (r: Vec<String>)
    ensures
        strings(r@) == error_texts(scope_errors(*s)),
{
    proof {
        reveal(scope_errors);
    }
    let errs = s.validate();
    let mut out: Vec<String> = Vec::new();
    let mut k: usize = 0;
    while k < errs.len()
        invariant
            0 <= k <= errs@.len(),
            errs@ == spec_validate(*s),
            strings(out@) == error_texts(errs@.take(k as int)),
        decreases errs@.len() - k,
    {
        let ghost prev = out@;
        let t = errs[k].text();
        out.push(t);
        proof {
            assert(errs@.take(k + 1) =~= errs@.take(k as int).push(errs@[k as int]));
            assert(strings(out@) =~= strings(prev).push(t@));
            assert(error_texts(errs@.take(k + 1)) =~= error_texts(errs@.take(k as int)).push(spec_scope_error_text(errs@[k as int])));
        }
        k = k + 1;
    }
    proof {
        assert(errs@.take(errs@.len() as int) =~= errs@);
    }
    out
}

pub open spec fn not_for(client: ClientKey) -> spec_fn(ReservationValue) -> bool {
    |r: ReservationValue| r.client != client
}

/// The reservations other than `client`'s, in order.
fn reservations_without(all: Vec<Reservation>, client: &ClientId) -> (r: Vec<Reservation>)
    ensures
        reservation_values(r@) == reservation_values(all@).filter(not_for(client@)),
{
    let ghost orig = all@;
    let ghost vals = reservation_values(orig);
    let mut rest = all;
    let mut kept: Vec<Reservation> = Vec::new();
    while rest.len() > 0
        invariant
            rest@.len() <= orig.len(),
            vals == reservation_values(orig),
            rest@ == orig.skip(orig.len() - rest@.len()),
            reservation_values(kept@) == vals.take(orig.len() - rest@.len()).filter(not_for(client@)),
        decreases rest@.len(),
    {
        let ghost done = orig.len() - rest@.len();
        let x = rest.remove(0);
        proof {
            assert(x == orig[done]);
            assert(vals.take(done + 1) =~= vals.take(done).push(reservation_value(x)));
            assert(rest@ =~= orig.skip(done + 1));
            vals.take(done).lemma_filter_push(reservation_value(x), not_for(client@));
        }
        if !x.client.same_as(client) {
            let ghost prev = kept@;
            kept.push(x);
            proof {
                assert(reservation_values(kept@) =~= reservation_values(prev).push(reservation_value(x)));
            }
        }
    }
    proof {
        assert(vals.take(orig.len() as int) =~= vals);
    }
    kept
}

/// What the interface may change on a scope; `None` leaves a part as it
/// is. The network and the listener cannot be changed: that is another
/// scope, which is clearer deleted and created again.
#[derive(Debug, Default)]
pub struct ScopePatch {
    pub name: Option<String>,
    pub enabled: Option<bool>,
    pub pool: Option<(u32, u32)>,
    pub router: Option<Option<u32>>,
    pub dns: Option<Vec<u32>>,
    pub lease_secs: Option<u32>,
}

/// A scope after a patch: each part given replaces the old one; a pool
/// replaces all pools; a lease time also caps the offer time. `None` when
/// the pool's ends are the wrong way round.
pub open spec fn spec_patched(v: ScopeValue, p: ScopePatch) -> Option<ScopeValue> {
    match p.pool {
        Some((a, b)) if a > b => None,
        _ => Some(ScopeValue {
            name: match p.name { Some(n) => n@, None => v.name },
            enabled: match p.enabled { Some(e) => e, None => v.enabled },
            pools: match p.pool { Some((a, b)) => seq![Range { start: a, end: b }], None => v.pools },
            router: match p.router { Some(r) => r, None => v.router },
            dns: match p.dns { Some(d) => d@, None => v.dns },
            lease_secs: match p.lease_secs { Some(t) => t, None => v.lease_secs },
            offer_secs: match p.lease_secs {
                Some(t) => if v.offer_secs <= t { v.offer_secs } else { t },
                None => v.offer_secs,
            },
            ..v
        }),
    }
}

/// The scopes with the one at `k` replaced by a scope of value `v`, the
/// others as they were.
pub open spec fn replaced(old: Seq<Scope>, new: Seq<Scope>, k: int, v: ScopeValue) -> bool {
    &&& new.len() == old.len()
    &&& new[k]@ == v
    &&& forall|j: int| 0 <= j < old.len() && j != k ==> #[trigger] new[j] == old[j]
}

/// A copy of `s` with `patch` applied (see [`spec_patched`]).
fn apply_patch(s: Scope, patch: ScopePatch) -> (r: Option<Scope>)
    ensures
        match r {
            Some(n) => spec_patched(s@, patch) == Some(n@),
            None => spec_patched(s@, patch) is None,
        },
{
    let mut next = s;
    let ghost before = next@;
    let ScopePatch { name, enabled, pool, router, dns, lease_secs } = patch;
    match name {
        Some(n) => next.name = n,
        None => {},
    }
    match enabled {
        Some(e) => next.enabled = e,
        None => {},
    }
    match pool {
        Some((start, end)) => match Range::new(start, end) {
            Some(range) => {
                let mut pools: Vec<Range> = Vec::new();
                pools.push(range);
                next.pools = pools;
            },
            None => return None,
        },
        None => {},
    }
    match router {
        Some(r) => next.router = r,
        None => {},
    }
    match dns {
        Some(d) => next.dns = d,
        None => {},
    }
    match lease_secs {
        Some(secs) => {
            next.lease_secs = secs;
            if secs < next.offer_secs {
                next.offer_secs = secs;
            }
        },
        None => {},
    }
    proof {
        assert(next@ =~= spec_patched(before, patch)->0);
    }
    Some(next)
}

impl Daemon {
    /// Puts `s` in place of the scope at `k`.
    fn put_scope(&mut self, k: usize, s: Scope)
        requires
            k < old(self).server.scopes@.len(),
        ensures
            final(self).server.scopes@ == old(self).server.scopes@.update(k as int, s),
            final(self).listeners@ == old(self).listeners@,
            final(self).store == old(self).store,
            final(self).counts == old(self).counts,
    {
        let _ = self.server.scopes.remove(k);
        self.server.scopes.insert(k, s);
        proof {
            assert(self.server.scopes@ =~= old(self).server.scopes@.update(k as int, s));
        }
    }

    /// Changes the changeable parts of a scope. The change is made on a copy
    /// and checked there first: a refused change leaves nothing half done.
    #[verifier::rlimit(40)]
    pub fn patch_scope(&mut self, id: ScopeId, patch: ScopePatch) -> (r: Result<(), Vec<String>>)
        requires
            old(self).wf(),
        ensures
            final(self).wf(),
            final(self).counts == old(self).counts,
            final(self).listeners@ == old(self).listeners@,
            final(self).leases() == old(self).leases(),
            match r {
                Ok(()) => {
                    let k = scope_index(old(self).server.scopes@, id);
                    &&& has_scope(old(self).server.scopes@, id)
                    &&& spec_patched(old(self).server.scopes@[k]@, patch) matches Some(v)
                        && replaced(old(self).server.scopes@, final(self).server.scopes@, k, v)
                    &&& scope_errors(final(self).server.scopes@[k]).len() == 0
                },
                Err(ps) => {
                    &&& final(self).server.scopes@ == old(self).server.scopes@
                    &&& if !has_scope(old(self).server.scopes@, id) {
                        strings(ps@) == seq![spec_no_scope_text(id)]
                    } else {
                        let k = scope_index(old(self).server.scopes@, id);
                        match spec_patched(old(self).server.scopes@[k]@, patch) {
                            None => strings(ps@) == seq!["地址池起止顺序不对"@],
                            Some(v) => ps@.len() > 0 && exists|c: Scope| c@ == v && strings(ps@) == error_texts(scope_errors(c)),
                        }
                    }
                },
            },
    {
        let k = match self.find_scope(id) {
            Some(k) => k,
            None => {
                let mut v: Vec<String> = Vec::new();
                v.push(no_scope_text(id));
                proof {
                    assert(strings(v@) =~= seq![spec_no_scope_text(id)]);
                }
                return Err(v);
            },
        };
        let current = self.server.scopes[k].clone();
        let next = match apply_patch(current, patch) {
            Some(n) => n,
            None => {
                let mut v: Vec<String> = Vec::new();
                v.push("地址池起止顺序不对".to_owned());
                proof {
                    assert(strings(v@) =~= seq!["地址池起止顺序不对"@]);
                }
                return Err(v);
            },
        };
        let problems = problems_of(&next);
        if problems.len() > 0 {
            return Err(problems);
        }
        proof {
            assert(strings(problems@).len() == 0);
            assert(scope_errors(next).len() == 0);
        }
        let ghost nv = next@;
        self.put_scope(k, next);
        proof {
            assert(self.server.scopes@[k as int]@ == nv);
        }
        Ok(())
    }

    /// Deletes a reservation. A lease already handed out stays until it
    /// expires.
    #[verifier::rlimit(40)]
    pub fn remove_reservation(&mut self, id: ScopeId, client: &ClientId) -> (r: Result<bool, String>)
        requires
            old(self).wf(),
        ensures
            final(self).wf(),
            final(self).counts == old(self).counts,
            final(self).listeners@ == old(self).listeners@,
            final(self).leases() == old(self).leases(),
            match r {
                Ok(removed) => {
                    let k = scope_index(old(self).server.scopes@, id);
                    let old_v = old(self).server.scopes@[k]@;
                    let rs = old_v.reservations.filter(not_for(client@));
                    &&& has_scope(old(self).server.scopes@, id)
                    &&& replaced(old(self).server.scopes@, final(self).server.scopes@, k, ScopeValue { reservations: rs, ..old_v })
                    &&& removed == (rs.len() != old_v.reservations.len())
                },
                Err(e) => !has_scope(old(self).server.scopes@, id) && e@ == spec_no_scope_text(id)
                    && final(self).server.scopes@ == old(self).server.scopes@,
            },
    {
        let k = match self.find_scope(id) {
            Some(k) => k,
            None => return Err(no_scope_text(id)),
        };
        let mut sc = self.server.scopes.remove(k);
        let ghost old_v = sc@;
        let before = sc.reservations.len();
        let mut all: Vec<Reservation> = Vec::new();
        std::mem::swap(&mut all, &mut sc.reservations);
        sc.reservations = reservations_without(all, client);
        let after = sc.reservations.len();
        proof {
            assert(sc@ =~= ScopeValue { reservations: old_v.reservations.filter(not_for(client@)), ..old_v });
        }
        self.server.scopes.insert(k, sc);
        proof {
            assert(self.server.scopes@ =~= old(self).server.scopes@.update(k as int, sc));
        }
        Ok(before != after)
    }

    /// Adds a static reservation: how a BMC is pinned to its planned address.
    /// A client has one reservation per scope; adding another replaces it.
    /// A dynamic lease of someone else's on that address is revoked, or the
    /// reservation would stay blocked by it; says whether one was.
    #[verifier::rlimit(60)]
    pub fn add_reservation(&mut self, id: ScopeId, r: Reservation) -> (res: Result<bool, Vec<String>>)
        requires
            old(self).wf(),
        ensures
            final(self).wf(),
            final(self).counts == old(self).counts,
            final(self).listeners@ == old(self).listeners@,
            match res {
                Ok(evicted) => {
                    let k = scope_index(old(self).server.scopes@, id);
                    let old_v = old(self).server.scopes@[k]@;
                    let rs = old_v.reservations.filter(not_for(r.client@)).push(reservation_value(r));
                    let held = spec_lease_at(old(self).leases(), id, r.ip);
                    &&& has_scope(old(self).server.scopes@, id)
                    &&& replaced(old(self).server.scopes@, final(self).server.scopes@, k, ScopeValue { reservations: rs, ..old_v })
                    &&& scope_errors(final(self).server.scopes@[k]).len() == 0
                    &&& evicted == (held matches Some(l) && l.client != r.client@)
                    &&& final(self).leases() == if evicted {
                        old(self).leases().remove((id, r.ip))
                    } else {
                        old(self).leases()
                    }
                },
                Err(ps) => {
                    &&& final(self).server.scopes@ == old(self).server.scopes@
                    &&& final(self).leases() == old(self).leases()
                    &&& if !has_scope(old(self).server.scopes@, id) {
                        strings(ps@) == seq![spec_no_scope_text(id)]
                    } else {
                        let k = scope_index(old(self).server.scopes@, id);
                        let old_v = old(self).server.scopes@[k]@;
                        let rs = old_v.reservations.filter(not_for(r.client@)).push(reservation_value(r));
                        ps@.len() > 0 && exists|c: Scope| c@ == (ScopeValue { reservations: rs, ..old_v }) && strings(ps@) == error_texts(scope_errors(c))
                    }
                },
            },
    {
        let k = match self.find_scope(id) {
            Some(k) => k,
            None => {
                let mut v: Vec<String> = Vec::new();
                v.push(no_scope_text(id));
                proof {
                    assert(strings(v@) =~= seq![spec_no_scope_text(id)]);
                }
                return Err(v);
            },
        };
        let mut next = self.server.scopes[k].clone();
        let ghost old_v = next@;
        let ip = r.ip;
        let who = r.client.clone();
        let mut all: Vec<Reservation> = Vec::new();
        std::mem::swap(&mut all, &mut next.reservations);
        let mut kept = reservations_without(all, &r.client);
        let ghost rv = reservation_value(r);
        let ghost prev = kept@;
        kept.push(r);
        proof {
            assert(reservation_values(kept@) =~= reservation_values(prev).push(rv));
        }
        next.reservations = kept;
        proof {
            assert(next@ =~= ScopeValue { reservations: old_v.reservations.filter(not_for(who@)).push(rv), ..old_v });
        }
        let problems = problems_of(&next);
        if problems.len() > 0 {
            return Err(problems);
        }
        proof {
            assert(strings(problems@).len() == 0);
            assert(scope_errors(next).len() == 0);
        }
        let ghost nv = next@;
        self.put_scope(k, next);
        proof {
            assert(self.server.scopes@[k as int]@ == nv);
        }
        let evict = match self.store.get_by_ip(id, ip) {
            Some(l) => !l.client.same_as(&who),
            None => false,
        };
        if evict {
            let _ = self.store.remove(id, ip);
        }
        Ok(evict)
    }
}

/// Whether some listener's address lies in the scope.
pub open spec fn has_listener_in(s: Scope, ls: Seq<Listener>) -> bool {
    exists|i: int| 0 <= i < ls.len() && s.spec_contains(#[trigger] ls[i].server_ip)
}

/// The first usable interface whose first address lies in the scope: its
/// name and that address.
pub open spec fn first_local(s: Scope, ifs: Seq<InterfaceModel>) -> Option<(Seq<char>, u32)>
    decreases ifs.len(),
{
    if ifs.len() == 0 {
        None
    } else {
        let i = ifs[0];
        if !i.is_loopback && i.has_address && i.ipv4.len() > 0 && s.spec_contains(i.ipv4[0].addr) {
            Some((i.name, i.ipv4[0].addr))
        } else {
            first_local(s, ifs.drop_first())
        }
    }
}

/// Whether an existing scope and the new one would share a listener.
pub open spec fn clashes(t: Scope, s: Scope, ls: Seq<Listener>) -> bool {
    exists|i: int| 0 <= i < ls.len() && #[trigger] t.spec_contains(ls[i].server_ip) && s.spec_contains(ls[i].server_ip)
}

/// The first existing scope that would share a listener with `s`.
pub open spec fn first_clash(scopes: Seq<Scope>, ls: Seq<Listener>, s: Scope) -> Option<int>
    decreases scopes.len(),
{
    if scopes.len() == 0 {
        None
    } else {
        match first_clash(scopes.drop_last(), ls, s) {
            Some(k) => Some(k),
            None => if clashes(scopes.last(), s, ls) { Some(scopes.len() - 1) } else { None },
        }
    }
}

/// The largest scope identifier, 0 for none.
pub open spec fn max_id(scopes: Seq<Scope>) -> u32
    decreases scopes.len(),
{
    if scopes.len() == 0 {
        0
    } else {
        let m = max_id(scopes.drop_last());
        if scopes.last().id.0 > m { scopes.last().id.0 } else { m }
    }
}

pub open spec fn no_local_text(s: Scope) -> Seq<char> {
    "本机没有落在 "@ + spec_net_text(s.subnet, s.prefix) + " 里的地址 —— 建了作用域也收不到这个网段的请求"@
}

pub open spec fn clash_text(t: Scope) -> Seq<char> {
    "与已有作用域「"@ + t.name@ + "」抢同一个监听器地址"@
}

/// The listener a new scope needs, if it has none yet and this host has an
/// address in it: that address, and on Linux the interface name (only
/// Linux binds to an interface by name).
pub open spec fn spec_new_listener(s: Scope, ls: Seq<Listener>, ifs: Option<Seq<InterfaceModel>>, p: Platform) -> Option<(u32, Option<Seq<char>>)> {
    if has_listener_in(s, ls) {
        None
    } else {
        match ifs {
            Some(v) => match first_local(s, v) {
                Some((name, ip)) => Some((ip, if p == Platform::Linux { Some(name) } else { None })),
                None => None,
            },
            None => None,
        }
    }
}

/// Everything wrong with creating `s`: its own problems, no address of
/// this host in it (nothing could receive its requests), and sharing a
/// listener with an existing scope.
pub open spec fn spec_add_problems(scopes: Seq<Scope>, ls: Seq<Listener>, s: Scope, ifs: Option<Seq<InterfaceModel>>, p: Platform) -> Seq<Seq<char>> {
    let own = error_texts(scope_errors(s));
    let local = if !has_listener_in(s, ls) && spec_new_listener(s, ls, ifs, p) is None {
        seq![no_local_text(s)]
    } else {
        Seq::empty()
    };
    let clash = match first_clash(scopes, ls, s) {
        Some(k) => seq![clash_text(scopes[k])],
        None => Seq::empty(),
    };
    own + local + clash
}

pub open spec fn if_models(ifs: Option<Vec<Interface>>) -> Option<Seq<InterfaceModel>> {
    match ifs {
        Some(v) => Some(models(v@)),
        None => None,
    }
}

pub open spec fn ids_below_max(scopes: Seq<Scope>) -> bool {
    forall|k: int| 0 <= k < scopes.len() ==> (#[trigger] scopes[k]).id.0 < u32::MAX
}

fn has_listener(s: &Scope, ls: &Vec<Listener>) -> (r: bool)
    ensures
        r == has_listener_in(*s, ls@),
{
    let mut k: usize = 0;
    while k < ls.len()
        invariant
            0 <= k <= ls@.len(),
            forall|j: int| 0 <= j < k ==> !s.spec_contains(#[trigger] ls@[j].server_ip),
        decreases ls@.len() - k,
    {
        if s.contains(ls[k].server_ip) {
            return true;
        }
        k = k + 1;
    }
    false
}

fn find_local(s: &Scope, ifs: &Vec<Interface>) -> (r: Option<(String, u32)>)
    ensures
        match r {
            Some((n, ip)) => first_local(*s, models(ifs@)) == Some((n@, ip)),
            None => first_local(*s, models(ifs@)) is None,
        },
{
    let ghost ms = models(ifs@);
    proof {
        assert(ms.skip(0) =~= ms);
    }
    let mut k: usize = 0;
    while k < ifs.len()
        invariant
            0 <= k <= ifs@.len(),
            ms == models(ifs@),
            first_local(*s, ms) == first_local(*s, ms.skip(k as int)),
        decreases ifs@.len() - k,
    {
        let i = &ifs[k];
        proof {
            assert(ms.skip(k as int)[0] == model_of(ifs@[k as int]));
            assert(ms.skip(k as int).drop_first() =~= ms.skip(k + 1));
        }
        if i.is_servable() {
            match i.primary_ipv4() {
                Some(c) => if s.contains(c.addr) {
                    return Some((i.name.clone(), c.addr));
                },
                None => {},
            }
        }
        k = k + 1;
    }
    proof {
        assert(ms.skip(ifs@.len() as int) =~= Seq::<InterfaceModel>::empty());
    }
    None
}

fn find_clash(scopes: &Vec<Scope>, ls: &Vec<Listener>, s: &Scope) -> (r: Option<usize>)
    ensures
        match r {
            Some(k) => first_clash(scopes@, ls@, *s) == Some(k as int) && k < scopes@.len(),
            None => first_clash(scopes@, ls@, *s) is None,
        },
{
    let mut k: usize = 0;
    while k < scopes.len()
        invariant
            0 <= k <= scopes@.len(),
            first_clash(scopes@.take(k as int), ls@, *s) is None,
        decreases scopes@.len() - k,
    {
        let t = &scopes[k];
        let mut hit = false;
        let mut j: usize = 0;
        while j < ls.len()
            invariant
                0 <= j <= ls@.len(),
                hit == exists|x: int| 0 <= x < j && #[trigger] t.spec_contains(ls@[x].server_ip) && s.spec_contains(ls@[x].server_ip),
            decreases ls@.len() - j,
        {
            if t.contains(ls[j].server_ip) && s.contains(ls[j].server_ip) {
                hit = true;
            }
            j = j + 1;
        }
        proof {
            assert(scopes@.take(k + 1).drop_last() =~= scopes@.take(k as int));
            assert(scopes@.take(k + 1).last() == scopes@[k as int]);
        }
        if hit {
            proof {
                lemma_first_clash_prefix(scopes@, ls@, *s, k as int);
            }
            return Some(k);
        }
        k = k + 1;
    }
    proof {
        assert(scopes@.take(scopes@.len() as int) =~= scopes@);
    }
    None
}

/// A clash found at `k` after none before it is the first clash of the
/// whole list.
proof fn lemma_first_clash_prefix(scopes: Seq<Scope>, ls: Seq<Listener>, s: Scope, k: int)
    requires
        0 <= k < scopes.len(),
        first_clash(scopes.take(k + 1), ls, s) == Some(k),
    ensures
        first_clash(scopes, ls, s) == Some(k),
    decreases scopes.len(),
{
    if scopes.len() > k + 1 {
        assert(scopes.drop_last().take(k + 1) =~= scopes.take(k + 1));
        lemma_first_clash_prefix(scopes.drop_last(), ls, s, k);
    } else {
        assert(scopes.take(k + 1) =~= scopes);
    }
}

fn largest_id(scopes: &Vec<Scope>) -> (r: u32)
    ensures
        r == max_id(scopes@),
{
    let mut m: u32 = 0;
    let mut k: usize = 0;
    while k < scopes.len()
        invariant
            0 <= k <= scopes@.len(),
            m == max_id(scopes@.take(k as int)),
        decreases scopes@.len() - k,
    {
        proof {
            assert(scopes@.take(k + 1).drop_last() =~= scopes@.take(k as int));
        }
        if scopes[k].id.0 > m {
            m = scopes[k].id.0;
        }
        k = k + 1;
    }
    proof {
        assert(scopes@.take(scopes@.len() as int) =~= scopes@);
    }
    m
}

proof fn lemma_max_id_member(scopes: Seq<Scope>)
    requires
        scopes.len() > 0,
    ensures
        exists|k: int| 0 <= k < scopes.len() && #[trigger] scopes[k].id.0 == max_id(scopes),
    decreases scopes.len(),
{
    if scopes.len() > 1 {
        lemma_max_id_member(scopes.drop_last());
        let k = choose|k: int| 0 <= k < scopes.drop_last().len() && #[trigger] scopes.drop_last()[k].id.0 == max_id(scopes.drop_last());
        assert(scopes[k] == scopes.drop_last()[k]);
    } else {
        assert(scopes.drop_last().len() == 0);
        assert(max_id(scopes.drop_last()) == 0);
        assert(scopes[0].id.0 == max_id(scopes));
    }
}

impl Daemon {
    /// Creates a scope at run time. The scope is checked on its own and
    /// against the others: this host must have an address on its network
    /// (when no listener has one, a listener is started on the first usable
    /// interface that does, `ifs` being the interfaces, `None` when they
    /// could not be listed), and it must not share a listener with an
    /// existing scope. A mistake typed into the interface must not break
    /// the service. The identifier is the service's to give: one more than
    /// the largest so far. Gives the identifier and the listener to start.
    pub fn add_scope(&mut self, scope: Scope, ifs: Option<Vec<Interface>>, p: Platform) -> (r: Result<(ScopeId, Option<Listener>), Vec<String>>)
        requires
            old(self).wf(),
            ids_below_max(old(self).server.scopes@),
        ensures
            final(self).wf(),
            final(self).counts == old(self).counts,
            final(self).leases() == old(self).leases(),
            match r {
                Ok((id, l)) => {
                    let nl = spec_new_listener(scope, old(self).listeners@, if_models(ifs), p);
                    &&& spec_add_problems(old(self).server.scopes@, old(self).listeners@, scope, if_models(ifs), p).len() == 0
                    &&& id.0 == max_id(old(self).server.scopes@) + 1
                    &&& final(self).server.scopes@.len() == old(self).server.scopes@.len() + 1
                    &&& final(self).server.scopes@.drop_last() == old(self).server.scopes@
                    &&& final(self).server.scopes@.last()@ == (ScopeValue { id, ..scope@ })
                    &&& match nl {
                        Some((ip, iface)) => l matches Some(x) && x.server_ip == ip && opt_text(x.iface) == iface
                            && final(self).listeners@.len() == old(self).listeners@.len() + 1
                            && final(self).listeners@.drop_last() == old(self).listeners@
                            && final(self).listeners@.last().server_ip == ip
                            && opt_text(final(self).listeners@.last().iface) == iface,
                        None => l is None && final(self).listeners@ == old(self).listeners@,
                    }
                },
                Err(ps) => {
                    &&& strings(ps@) == spec_add_problems(old(self).server.scopes@, old(self).listeners@, scope, if_models(ifs), p)
                    &&& ps@.len() > 0
                    &&& final(self).server.scopes@ == old(self).server.scopes@
                    &&& final(self).listeners@ == old(self).listeners@
                },
            },
    {
        let ghost ifm = if_models(ifs);
        let mut problems = problems_of(&scope);
        let mut new_listener: Option<Listener> = None;
        let covered = has_listener(&scope, &self.listeners);
        if !covered {
            let found = match &ifs {
                Some(v) => find_local(&scope, v),
                None => None,
            };
            match found {
                Some((name, ip)) => {
                    let iface = if p == Platform::Linux { Some(name) } else { None };
                    new_listener = Some(Listener { server_ip: ip, iface });
                },
                None => {
                    let mut out: Vec<char> = Vec::new();
                    push_str(&mut out, "本机没有落在 ");
                    push_net(&mut out, scope.subnet, scope.prefix);
                    push_str(&mut out, " 里的地址 —— 建了作用域也收不到这个网段的请求");
                    let ghost prev = problems@;
                    problems.push(string_from_chars(out.as_slice()));
                    proof {
                        assert(strings(problems@) =~= strings(prev).push(no_local_text(scope)));
                    }
                },
            }
        }
        proof {
            assert(strings(problems@) =~= error_texts(scope_errors(scope)) + (if !has_listener_in(scope, self.listeners@) && spec_new_listener(scope, self.listeners@, ifm, p) is None {
                seq![no_local_text(scope)]
            } else {
                Seq::empty()
            }));
        }
        match find_clash(&self.server.scopes, &self.listeners, &scope) {
            Some(k) => {
                let mut out: Vec<char> = Vec::new();
                push_str(&mut out, "与已有作用域「");
                push_str(&mut out, self.server.scopes[k].name.as_str());
                push_str(&mut out, "」抢同一个监听器地址");
                let ghost prev = problems@;
                problems.push(string_from_chars(out.as_slice()));
                proof {
                    assert(strings(problems@) =~= strings(prev).push(clash_text(self.server.scopes@[k as int])));
                }
            },
            None => {},
        }
        proof {
            assert(strings(problems@) =~= spec_add_problems(self.server.scopes@, self.listeners@, scope, ifm, p));
        }
        if problems.len() > 0 {
            return Err(problems);
        }
        let top = largest_id(&self.server.scopes);
        proof {
            if self.server.scopes@.len() > 0 {
                lemma_max_id_member(self.server.scopes@);
            }
        }
        let id = ScopeId(top + 1);
        let mut s = scope;
        s.id = id;
        self.server.scopes.push(s);
        proof {
            assert(self.server.scopes@.drop_last() =~= old(self).server.scopes@);
        }
        let handed = match new_listener {
            Some(l) => {
                let copy = l.clone();
                self.listeners.push(l);
                proof {
                    assert(self.listeners@.drop_last() =~= old(self).listeners@);
                }
                Some(copy)
            },
            None => None,
        };
        Ok((id, handed))
    }
}

/// A scope as the interface shows it at a moment.
#[derive(Debug)]
pub struct ScopeStatus {
    pub id: ScopeId,
    pub name: String,
    pub enabled: bool,
    pub subnet: u32,
    pub prefix: u8,
    pub capacity: u64,
    pub used: u64,
    pub reservations: usize,
    /// This host's address on the network; `None` for a network served
    /// through a relay, which is intended (see `via_relay`).
    pub server_ip: Option<u32>,
    /// The network is served through a DHCP relay: the interface shows the
    /// missing local address as intended rather than as an unexplained gap.
    pub via_relay: bool,
}

/// The first listener address in the scope.
pub open spec fn first_listener_in(s: Scope, ls: Seq<Listener>) -> Option<u32>
    decreases ls.len(),
{
    if ls.len() == 0 {
        None
    } else if s.spec_contains(ls[0].server_ip) {
        Some(ls[0].server_ip)
    } else {
        first_listener_in(s, ls.drop_first())
    }
}

pub open spec fn pools_fit(scopes: Seq<Scope>) -> bool {
    forall|k: int| 0 <= k < scopes.len() ==> spec_pool_addrs((#[trigger] scopes[k]).pools@).len() <= u64::MAX
}

/// The status of the scope `s` at `now`.
pub open spec fn status_matches(st: ScopeStatus, s: Scope, ls: Seq<Listener>, m: LeaseMap, now: u64) -> bool {
    &&& st.id == s.id
    &&& st.name@ == s.name@
    &&& st.enabled == s.enabled
    &&& st.subnet == s.subnet
    &&& st.prefix == s.prefix
    &&& st.capacity == s.spec_poolable_addrs().len()
    &&& st.used == active_keys(m, s.id, now).len()
    &&& st.reservations == s.reservations@.len()
    &&& st.server_ip == first_listener_in(s, ls)
    &&& st.via_relay == s.via_relay
}

fn first_listener(s: &Scope, ls: &Vec<Listener>) -> (r: Option<u32>)
    ensures
        r == first_listener_in(*s, ls@),
{
    let mut k: usize = 0;
    proof {
        assert(ls@.skip(0) =~= ls@);
    }
    while k < ls.len()
        invariant
            0 <= k <= ls@.len(),
            first_listener_in(*s, ls@) == first_listener_in(*s, ls@.skip(k as int)),
        decreases ls@.len() - k,
    {
        proof {
            assert(ls@.skip(k as int)[0] == ls@[k as int]);
            assert(ls@.skip(k as int).drop_first() =~= ls@.skip(k + 1));
        }
        if s.contains(ls[k].server_ip) {
            return Some(ls[k].server_ip);
        }
        k = k + 1;
    }
    None
}

impl Daemon {
    /// What the interface shows of each scope at `now`.
    pub fn scope_status(&self, now: u64) -> (r: Vec<ScopeStatus>)
        requires
            self.wf(),
            pools_fit(self.server.scopes@),
        ensures
            r@.len() == self.server.scopes@.len(),
            forall|k: int| 0 <= k < r@.len() ==> status_matches(#[trigger] r@[k], self.server.scopes@[k], self.listeners@, self.leases(), now),
    {
        let mut out: Vec<ScopeStatus> = Vec::new();
        let mut k: usize = 0;
        while k < self.server.scopes.len()
            invariant
                0 <= k <= self.server.scopes@.len(),
                self.wf(),
                pools_fit(self.server.scopes@),
                out@.len() == k,
                forall|j: int| 0 <= j < k ==> status_matches(#[trigger] out@[j], self.server.scopes@[j], self.listeners@, self.leases(), now),
            decreases self.server.scopes@.len() - k,
        {
            let s = &self.server.scopes[k];
            proof {
                assert(spec_pool_addrs(self.server.scopes@[k as int].pools@).len() <= u64::MAX);
            }
            let st = ScopeStatus {
                id: s.id,
                name: s.name.clone(),
                enabled: s.enabled,
                subnet: s.subnet,
                prefix: s.prefix,
                capacity: s.capacity(),
                used: self.store.store.used_in(s.id, now),
                reservations: s.reservations.len(),
                server_ip: first_listener(s, &self.listeners),
                via_relay: s.via_relay,
            };
            out.push(st);
            k = k + 1;
        }
        out
    }
}

/// A metrics label value: `"` would end it, so it becomes `'`.
pub open spec fn label_text(s: Seq<char>) -> Seq<char> {
    s.map_values(|c: char| if c == '"' { '\'' } else { c })
}

/// One counter in the Prometheus text format: help, type, value.
pub open spec fn counter_block(name: Seq<char>, help: Seq<char>, v: u64) -> Seq<char> {
    "# HELP "@ + name + " "@ + help + "\n# TYPE "@ + name + " counter\n"@ + name + " "@ + spec_dec(v as nat) + "\n"@
}

/// One line per scope: `metric{scope="name"} value`.
pub open spec fn scope_lines(metric: Seq<char>, st: Seq<ScopeStatus>, capacity: bool) -> Seq<char>
    decreases st.len(),
{
    if st.len() == 0 {
        Seq::empty()
    } else {
        scope_lines(metric, st.drop_last(), capacity) + metric + "{scope=\""@ + label_text(st.last().name@) + "\"} "@
            + spec_dec((if capacity { st.last().capacity } else { st.last().used }) as nat) + "\n"@
    }
}

/// The metrics in Prometheus' text format: the five counts, the uptime,
/// and each scope's capacity and use (the alert everyone sets up is "the
/// pool is nearly full").
pub open spec fn spec_metrics(packets: u64, offers: u64, acks: u64, naks: u64, drops: u64, uptime: u64, st: Seq<ScopeStatus>) -> Seq<char> {
    counter_block("lessor_packets_total"@, "收到并处理的 DHCP 报文数"@, packets)
        + counter_block("lessor_offers_total"@, "发出的 OFFER 数"@, offers)
        + counter_block("lessor_acks_total"@, "发出的 ACK 数"@, acks)
        + counter_block("lessor_naks_total"@, "发出的 NAK 数"@, naks)
        + counter_block("lessor_drops_total"@, "未应答的报文数"@, drops)
        + "# HELP lessor_uptime_seconds 进程已运行时长\n# TYPE lessor_uptime_seconds gauge\nlessor_uptime_seconds "@ + spec_dec(uptime as nat) + "\n"@
        + "# HELP lessor_scope_capacity 作用域可分配地址总数\n# TYPE lessor_scope_capacity gauge\n"@
        + scope_lines("lessor_scope_capacity"@, st, true)
        + "# HELP lessor_scope_used 作用域已占用地址数\n# TYPE lessor_scope_used gauge\n"@
        + scope_lines("lessor_scope_used"@, st, false)
}

fn push_counter(out: &mut Vec<char>, name: &str, help: &str, v: u64)
    ensures
        final(out)@ == old(out)@ + counter_block(name@, help@, v),
{
    let ghost start = out@;
    push_str(out, "# HELP ");
    push_str(out, name);
    push_str(out, " ");
    push_str(out, help);
    push_str(out, "\n# TYPE ");
    push_str(out, name);
    push_str(out, " counter\n");
    push_str(out, name);
    push_str(out, " ");
    push_dec(out, v);
    push_str(out, "\n");
    proof {
        assert(out@ =~= start + counter_block(name@, help@, v));
    }
}

fn push_label(out: &mut Vec<char>, s: &str)
    ensures
        final(out)@ == old(out)@ + label_text(s@),
{
    let cs = crate::text::chars_of(s);
    let ghost start = out@;
    let mut i: usize = 0;
    while i < cs.len()
        invariant
            0 <= i <= cs@.len(),
            cs@ == s@,
            out@ == start + label_text(cs@.take(i as int)),
        decreases cs@.len() - i,
    {
        let c = cs[i];
        if c == '"' {
            out.push('\'');
        } else {
            out.push(c);
        }
        i = i + 1;
        proof {
            assert(out@ =~= start + label_text(cs@.take(i as int)));
        }
    }
    proof {
        assert(cs@.take(cs@.len() as int) =~= s@);
    }
}

fn push_scope_lines(out: &mut Vec<char>, metric: &str, st: &Vec<ScopeStatus>, capacity: bool)
    ensures
        final(out)@ == old(out)@ + scope_lines(metric@, st@, capacity),
{
    let ghost start = out@;
    let mut k: usize = 0;
    while k < st.len()
        invariant
            0 <= k <= st@.len(),
            out@ == start + scope_lines(metric@, st@.take(k as int), capacity),
        decreases st@.len() - k,
    {
        let ghost prev = out@;
        push_str(out, metric);
        push_str(out, "{scope=\"");
        push_label(out, st[k].name.as_str());
        push_str(out, "\"} ");
        push_dec(out, if capacity { st[k].capacity } else { st[k].used });
        push_str(out, "\n");
        proof {
            assert(st@.take(k + 1).drop_last() =~= st@.take(k as int));
            assert(st@.take(k + 1).last() == st@[k as int]);
            assert(out@ =~= start + scope_lines(metric@, st@.take(k + 1), capacity));
        }
        k = k + 1;
    }
    proof {
        assert(st@.take(st@.len() as int) =~= st@);
    }
}

/// The metrics text (see [`spec_metrics`]).
pub fn metrics(packets: u64, offers: u64, acks: u64, naks: u64, drops: u64, uptime: u64, st: &Vec<ScopeStatus>) -> (r: String)
    ensures
        r@ == spec_metrics(packets, offers, acks, naks, drops, uptime, st@),
{
    let mut out: Vec<char> = Vec::new();
    push_counter(&mut out, "lessor_packets_total", "收到并处理的 DHCP 报文数", packets);
    push_counter(&mut out, "lessor_offers_total", "发出的 OFFER 数", offers);
    push_counter(&mut out, "lessor_acks_total", "发出的 ACK 数", acks);
    push_counter(&mut out, "lessor_naks_total", "发出的 NAK 数", naks);
    push_counter(&mut out, "lessor_drops_total", "未应答的报文数", drops);
    push_str(&mut out, "# HELP lessor_uptime_seconds 进程已运行时长\n# TYPE lessor_uptime_seconds gauge\nlessor_uptime_seconds ");
    push_dec(&mut out, uptime);
    push_str(&mut out, "\n");
    push_str(&mut out, "# HELP lessor_scope_capacity 作用域可分配地址总数\n# TYPE lessor_scope_capacity gauge\n");
    push_scope_lines(&mut out, "lessor_scope_capacity", st, true);
    push_str(&mut out, "# HELP lessor_scope_used 作用域已占用地址数\n# TYPE lessor_scope_used gauge\n");
    push_scope_lines(&mut out, "lessor_scope_used", st, false);
    proof {
        assert(out@ =~= spec_metrics(packets, offers, acks, naks, drops, uptime, st@));
    }
    string_from_chars(out.as_slice())
}

/// How many unleased addresses one probing round of a scope looks at: a
/// large network is probed in turns rather than flooding the switch with
/// ARP all at once.
pub const PROBE_BATCH: usize = 256;

/// The listener address the probe of a scope binds to: the first in it.
pub fn probe_bind(s: &Scope, ls: &Vec<Listener>) -> (r: Option<u32>)
    ensures
        r == first_listener_in(*s, ls@),
{
    first_listener(s, ls)
}

/// The addresses one probing round of a scope looks at: poolable ones not
/// leased and not the probe's own, in pool order, at most
/// [`PROBE_BATCH`]. Leased addresses are the clients' business: a conflict
/// there comes back as a DECLINE.
pub open spec fn spec_probe_candidates(poolable: Seq<u32>, leased: Seq<u32>, bind: u32) -> Seq<u32>
    decreases poolable.len(),
{
    if poolable.len() == 0 {
        Seq::empty()
    } else {
        let rest = spec_probe_candidates(poolable.drop_last(), leased, bind);
        let ip = poolable.last();
        if !leased.contains(ip) && ip != bind && rest.len() < PROBE_BATCH {
            rest.push(ip)
        } else {
            rest
        }
    }
}

pub fn probe_candidates(poolable: &Vec<u32>, leased: &Vec<u32>, bind: u32) -> (r: Vec<u32>)
    ensures
        r@ == spec_probe_candidates(poolable@, leased@, bind),
        r@.len() <= PROBE_BATCH,
{
    let mut out: Vec<u32> = Vec::new();
    let mut k: usize = 0;
    while k < poolable.len()
        invariant
            0 <= k <= poolable@.len(),
            out@ == spec_probe_candidates(poolable@.take(k as int), leased@, bind),
            out@.len() <= PROBE_BATCH,
        decreases poolable@.len() - k,
    {
        proof {
            assert(poolable@.take(k + 1).drop_last() =~= poolable@.take(k as int));
        }
        let ip = poolable[k];
        let mut is_leased = false;
        let mut j: usize = 0;
        while j < leased.len()
            invariant
                0 <= j <= leased@.len(),
                is_leased == exists|x: int| 0 <= x < j && leased@[x] == ip,
            decreases leased@.len() - j,
        {
            if leased[j] == ip {
                is_leased = true;
            }
            j = j + 1;
        }
        if !is_leased && ip != bind && out.len() < PROBE_BATCH {
            out.push(ip);
        }
        k = k + 1;
    }
    proof {
        assert(poolable@.take(poolable@.len() as int) =~= poolable@);
    }
    out
}

proof fn lemma_max_id_bounds(scopes: Seq<Scope>)
    ensures
        forall|k: int| 0 <= k < scopes.len() ==> (#[trigger] scopes[k]).id.0 <= max_id(scopes),
    decreases scopes.len(),
{
    if scopes.len() > 0 {
        lemma_max_id_bounds(scopes.drop_last());
        assert forall|k: int| 0 <= k < scopes.len() implies (#[trigger] scopes[k]).id.0 <= max_id(scopes) by {
            if k < scopes.len() - 1 {
                assert(scopes[k] == scopes.drop_last()[k]);
            }
        }
    }
}

/// A scope created at run time gets an identifier no existing scope has.
pub proof fn law_new_scope_id_is_fresh(scopes: Seq<Scope>)
    requires
        ids_below_max(scopes),
    ensures
        forall|k: int| 0 <= k < scopes.len() ==> (#[trigger] scopes[k]).id.0 != max_id(scopes) + 1,
{
    lemma_max_id_bounds(scopes);
}

} // verus!
