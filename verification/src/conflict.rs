//! Addresses found in use by someone else.
//!
//! Before an address is offered it must not be held by a statically
//! configured device. Probing is not on the handshake path: a client cannot
//! wait for an ARP round trip, and a failed probe must not cost it its
//! address. So a background probe keeps a record of what answered, and
//! allocation only looks the record up. Until the first round has run the
//! record is empty and nothing is held back; that is cheaper than making
//! every client wait, and static addresses belong outside the pool anyway.

use std::collections::HashMap;

use vstd::prelude::*;
use vstd::std_specs::iter::IteratorSpec;

use crate::addr::{spec_mac_text, MacAddr};
use crate::parse::{push_dec, push_ipv4, push_str, spec_dec, spec_ipv4_text};
use crate::text::string_from_chars;

verus! {

/// How long a sighting counts, in seconds: shorter would probe too often,
/// longer would keep a device that just left holding its address.
pub const TTL_SECS: u64 = 300;

/// A device seen answering on an address.
#[derive(Clone, Copy, Debug, PartialEq, Eq)]
pub struct Seen {
    pub ip: u32,
    /// When (seconds on a clock that only goes forward).
    pub at: u64,
    /// Who: saying only "taken" would leave nothing to go on.
    pub mac: Option<MacAddr>,
}

/// The probe's record: each address with its latest sighting.
pub type Sightings = Map<u32, Seen>;

/// Whether the record shows `ip` taken at `now`.
pub open spec fn taken_in(m: Sightings, ip: u32, now: u64) -> bool {
    m.contains_key(ip) && is_fresh(m[ip].at, now)
}

/// Whether a sighting at `at` still counts at `now`.
pub open spec fn is_fresh(at: u64, now: u64) -> bool {
    (if now >= at { now - at } else { 0 }) < TTL_SECS
}

/// Sightings in address order, each address once.
pub open spec fn ordered(s: Seq<Seen>) -> bool {
    forall|i: int, j: int| 0 <= i < j < s.len() ==> s[i].ip < s[j].ip
}

/// The record after a sighting of `ip` at `now`.
pub open spec fn spec_record(m: Sightings, ip: u32, mac: Option<MacAddr>, now: u64) -> Sightings {
    m.insert(ip, Seen { ip, at: now, mac })
}

/// The sightings that still count at `now`.
pub open spec fn spec_fresh(m: Sightings, now: u64) -> Sightings {
    Map::new(|ip: u32| taken_in(m, ip, now), |ip: u32| m[ip])
}

/// `v` lists the sightings of `m` that still count at `now`, in address
/// order.
pub open spec fn lists_live(v: Seq<Seen>, m: Sightings, now: u64) -> bool {
    &&& ordered(v)
    &&& forall|i: int|
        0 <= i < v.len() ==> taken_in(m, (#[trigger] v[i]).ip, now) && m[v[i].ip] == v[i]
    &&& forall|ip: u32| #[trigger] taken_in(m, ip, now) ==> exists|i: int| 0 <= i < v.len() && v[i].ip == ip
}

/// What the probe knows to be in use.
pub struct Occupied {
    seen: HashMap<u32, Seen>,
}

impl View for Occupied {
    type V = Sightings;

    closed spec fn view(&self) -> Sightings {
        self.seen@
    }
}

impl Occupied {
    /// Each sighting is stored under its own address.
    pub open spec fn wf(&self) -> bool {
        forall|ip: u32| #[trigger] self@.contains_key(ip) ==> self@[ip].ip == ip
    }

    /// Nothing known yet.
    pub fn new() -> (r: Occupied)
        ensures
            r.wf(),
            r@ == Map::<u32, Seen>::empty(),
    {
        Occupied { seen: HashMap::new() }
    }

    /// Whether `ip` is known to be held by someone else at `now`. Only the
    /// record is consulted, no I/O: that is what lets it sit on the
    /// allocation path. An address not in the record is not taken.
    pub fn is_taken(&self, ip: u32, now: u64) -> (r: bool)
        ensures
            r == taken_in(self@, ip, now),
    {
        match self.seen.get(&ip) {
            Some(s) => {
                let age: u64 = if now >= s.at { now - s.at } else { 0 };
                age < TTL_SECS
            },
            None => false,
        }
    }

    /// Records that a device (`mac`, when known) answered on `ip` at `now`.
    pub fn record(&mut self, ip: u32, mac: Option<MacAddr>, now: u64)
        requires
            old(self).wf(),
        ensures
            final(self).wf(),
            final(self)@ == spec_record(old(self)@, ip, mac, now),
    {
        self.seen.insert(ip, Seen { ip, at: now, mac });
    }

    /// Forgets the sightings that no longer count.
    pub fn forget_stale(&mut self, now: u64)
        requires
            old(self).wf(),
        ensures
            final(self).wf(),
            final(self)@ == spec_fresh(old(self)@, now),
    {
        let ghost m = self@;
        let live = self.live(now);
        let mut kept: HashMap<u32, Seen> = HashMap::new();
        let mut i: usize = 0;
        while i < live.len()
            invariant
                0 <= i <= live@.len(),
                lists_live(live@, m, now),
                forall|ip: u32| #[trigger]
                    kept@.contains_key(ip) <==> exists|j: int| 0 <= j < i && live@[j].ip == ip,
                forall|ip: u32| #[trigger] kept@.contains_key(ip) ==> kept@[ip] == m[ip],
            decreases live@.len() - i,
        {
            let e = live[i];
            kept.insert(e.ip, e);
            proof {
                assert forall|ip: u32| #[trigger]
                    kept@.contains_key(ip) <==> exists|j: int| 0 <= j < i + 1 && live@[j].ip == ip by {
                    if ip == e.ip {
                        assert(live@[i as int].ip == ip);
                    }
                }
            }
            i = i + 1;
        }
        proof {
            assert(kept@ =~= spec_fresh(m, now)) by {
                assert forall|ip: u32| #[trigger] kept@.contains_key(ip) implies taken_in(m, ip, now) by {
                    let j = choose|j: int| 0 <= j < live@.len() && live@[j].ip == ip;
                    assert(taken_in(m, live@[j].ip, now));
                }
            }
        }
        self.seen = kept;
    }

    /// The sightings that still count at `now`, in address order.
    pub fn live(&self, now: u64) -> (r: Vec<Seen>)
        requires
            self.wf(),
        ensures
            lists_live(r@, self@, now),
    {
        let ghost m = self@;
        let ghost ks = vstd::std_specs::hash::spec_keys_iter(&self.seen).remaining();
        let mut ips: Vec<u32> = Vec::new();
        for u in it: self.seen.keys()
            invariant
                it.seq() == ks,
                ks.unref().to_set() == m.dom(),
                ips@.len() == it.index(),
                forall|j: int| 0 <= j < it.index() ==> ips@[j] == *ks[j],
        {
            ips.push(*u);
        }
        let mut out: Vec<Seen> = Vec::new();
        let mut k: usize = 0;
        proof {
            assert(ips@ =~= ks.unref());
        }
        while k < ips.len()
            invariant
                self.wf(),
                m == self@,
                0 <= k <= ips@.len(),
                ips@.to_set() == m.dom(),
                ordered(out@),
                forall|x: Seen| #[trigger] out@.contains(x) ==> taken_in(m, x.ip, now) && m[x.ip] == x,
                forall|ip: u32| #[trigger]
                    taken_in(m, ip, now) && (exists|j: int| 0 <= j < k && ips@[j] == ip) ==> out@.contains(m[ip]),
            decreases ips@.len() - k,
        {
            let ip = ips[k];
            proof {
                assert(ips@.to_set().contains(ip));
            }
            let hit = match self.seen.get(&ip) {
                Some(s) => {
                    let e = *s;
                    let age: u64 = if now >= e.at { now - e.at } else { 0 };
                    if age < TTL_SECS {
                        Some(e)
                    } else {
                        None
                    }
                },
                None => None,
            };
            match hit {
                Some(e) => {
                    proof {
                        assert forall|i: int| 0 <= i < out@.len() implies m[(#[trigger] out@[i]).ip] == out@[i] by {
                            assert(out@.contains(out@[i]));
                        }
                    }
                    place_sighting(&mut out, e, Ghost(m));
                },
                None => {},
            }
            proof {
                assert forall|q: u32| #[trigger]
                    taken_in(m, q, now) && (exists|j: int| 0 <= j < k + 1 && ips@[j] == q) implies out@.contains(m[q]) by {
                    if q != ip {
                        let j = choose|j: int| 0 <= j < k + 1 && ips@[j] == q;
                        assert(j < k);
                    }
                }
            }
            k = k + 1;
        }
        proof {
            assert forall|i: int|
                0 <= i < out@.len() implies taken_in(m, (#[trigger] out@[i]).ip, now) && m[out@[i].ip] == out@[i] by {
                assert(out@.contains(out@[i]));
            }
            assert forall|ip: u32| #[trigger] taken_in(m, ip, now) implies exists|i: int|
                0 <= i < out@.len() && out@[i].ip == ip by {
                assert(ips@.to_set().contains(ip));
                assert(ips@.contains(ip));
                let j = choose|j: int| 0 <= j < ips@.len() && ips@[j] == ip;
                assert(exists|j: int| 0 <= j < k && ips@[j] == ip);
                assert(out@.contains(m[ip]));
                let i = choose|i: int| 0 <= i < out@.len() && out@[i] == m[ip];
                assert(out@[i].ip == ip);
            }
        }
        out
    }
}

/// Puts the sighting `e` into the ordered list `v`, where an entry for its
/// address is not there already.
fn place_sighting(v: &mut Vec<Seen>, e: Seen, m: Ghost<Sightings>)
    requires
        ordered(old(v)@),
        m@[e.ip] == e,
        forall|i: int| 0 <= i < old(v)@.len() ==> m@[(#[trigger] old(v)@[i]).ip] == old(v)@[i],
    ensures
        ordered(final(v)@),
        forall|x: Seen| #[trigger] final(v)@.contains(x) <==> old(v)@.contains(x) || x == e,
{
    let ghost s = v@;
    let mut p: usize = 0;
    while p < v.len() && v[p].ip < e.ip
        invariant
            0 <= p <= s.len(),
            v@ == s,
            forall|j: int| 0 <= j < p ==> #[trigger] s[j].ip < e.ip,
        decreases s.len() - p,
    {
        p = p + 1;
    }
    if p < v.len() && v[p].ip == e.ip {
        proof {
            assert(s[p as int] == e);
        }
        return;
    }
    v.insert(p, e);
    proof {
        let t = v@;
        assert(t[p as int] == e);
        assert forall|i: int, j: int| 0 <= i < j < t.len() implies t[i].ip < t[j].ip by {
            if j < p {
                assert(t[i] == s[i] && t[j] == s[j]);
            } else if j == p {
                assert(t[i] == s[i]);
            } else if i < p {
                assert(t[i] == s[i] && t[j] == s[j - 1]);
                if j - 1 > p {
                    assert(s[p as int].ip < s[j - 1].ip);
                }
            } else if i == p {
                assert(t[j] == s[j - 1]);
                if j - 1 > p {
                    assert(s[p as int].ip < s[j - 1].ip);
                }
            } else {
                assert(t[i] == s[i - 1] && t[j] == s[j - 1]);
            }
        }
        assert forall|x: Seen| #[trigger] t.contains(x) <==> s.contains(x) || x == e by {
            if t.contains(x) {
                let i = choose|i: int| 0 <= i < t.len() && t[i] == x;
                if i < p {
                    assert(s[i] == x);
                } else if i > p {
                    assert(s[i - 1] == x);
                }
            }
            if s.contains(x) {
                let i = choose|i: int| 0 <= i < s.len() && s[i] == x;
                if i < p {
                    assert(t[i] == x);
                } else {
                    assert(t[i + 1] == x);
                }
            }
            if x == e {
                assert(t[p as int] == x);
            }
        }
    }
}

/// One sighting in words: who holds the address, when that is known.
pub open spec fn spec_sighting_text(e: Seen) -> Seq<char> {
    match e.mac {
        Some(m) => spec_ipv4_text(e.ip) + " 被 "@ + spec_mac_text(m.0@) + " 占用"@,
        None => spec_ipv4_text(e.ip) + " 已被占用"@,
    }
}

/// The first `n` sightings in words, separated by `、`.
pub open spec fn spec_sample(live: Seq<Seen>, n: int) -> Seq<char>
    decreases n,
{
    if n <= 0 || live.len() == 0 {
        Seq::empty()
    } else if n == 1 {
        spec_sighting_text(live[0])
    } else {
        spec_sample(live, n - 1) + "、"@ + spec_sighting_text(live[n - 1])
    }
}

/// What the probe is holding back, in a sentence for the interface: the
/// first three addresses in address order (a fixed order, so that the same
/// situation is always worded the same), and how many there are when there
/// are more. Empty when nothing is held back.
pub open spec fn spec_blocked_summary(live: Seq<Seen>) -> Seq<char> {
    let n = live.len();
    if n == 0 {
        Seq::empty()
    } else if n > 3 {
        "探测到 "@ + spec_dec(n) + " 个地址被静态占用："@ + spec_sample(live, 3) + " 等"@
    } else {
        "探测到 "@ + spec_sample(live, n as int)
    }
}

fn push_sighting(out: &mut Vec<char>, e: Seen)
    ensures
        final(out)@ == old(out)@ + spec_sighting_text(e),
{
    let ghost start = out@;
    push_ipv4(out, e.ip);
    match e.mac {
        Some(m) => {
            push_str(out, " 被 ");
            let t = m.text_chars();
            let mut i: usize = 0;
            let ghost mid = out@;
            while i < t.len()
                invariant
                    0 <= i <= t@.len(),
                    out@ == mid + t@.take(i as int),
                decreases t@.len() - i,
            {
                out.push(t[i]);
                i = i + 1;
                proof {
                    assert(out@ =~= mid + t@.take(i as int));
                }
            }
            proof {
                assert(t@.take(t@.len() as int) =~= t@);
            }
            push_str(out, " 占用");
        },
        None => {
            push_str(out, " 已被占用");
        },
    }
    proof {
        assert(out@ =~= start + spec_sighting_text(e));
    }
}

impl Occupied {
    /// What the probe is holding back at `now`: [`spec_blocked_summary`] of
    /// the live sightings in address order (one list, by
    /// [`law_live_list_is_unique`]).
    pub fn blocked_summary(&self, now: u64) -> (r: String)
        requires
            self.wf(),
        ensures
            exists|v: Seq<Seen>| lists_live(v, self@, now),
            forall|v: Seq<Seen>| lists_live(v, self@, now) ==> r@ == spec_blocked_summary(v),
    {
        let live = self.live(now);
        let n = live.len();
        if n == 0 {
            proof {
                assert forall|v: Seq<Seen>| lists_live(v, self@, now) implies v == live@ by {
                    law_live_list_is_unique(v, live@, self@, now);
                }
            }
            return string_from_chars(Vec::<char>::new().as_slice());
        }
        let mut out: Vec<char> = Vec::new();
        push_str(&mut out, "探测到 ");
        if n > 3 {
            push_dec(&mut out, n as u64);
            push_str(&mut out, " 个地址被静态占用：");
        }
        let ghost head = out@;
        let take: usize = if n > 3 { 3 } else { n };
        let mut i: usize = 0;
        while i < take
            invariant
                0 <= i <= take <= live@.len(),
                take == (if n > 3 { 3 } else { n }),
                out@ == head + spec_sample(live@, i as int),
            decreases take - i,
        {
            if i > 0 {
                push_str(&mut out, "、");
            }
            push_sighting(&mut out, live[i]);
            i = i + 1;
            proof {
                assert(out@ =~= head + spec_sample(live@, i as int));
            }
        }
        if n > 3 {
            push_str(&mut out, " 等");
        }
        proof {
            assert(out@ =~= spec_blocked_summary(live@));
            assert forall|v: Seq<Seen>| lists_live(v, self@, now) implies v == live@ by {
                law_live_list_is_unique(v, live@, self@, now);
            }
        }
        string_from_chars(out.as_slice())
    }
}

/// An address just seen answering counts as taken; nothing else changes.
pub proof fn law_recorded_address_is_taken(m: Sightings, ip: u32, mac: Option<MacAddr>, now: u64)
    ensures
        taken_in(spec_record(m, ip, mac, now), ip, now),
        forall|x: u32| x != ip ==> (taken_in(m, x, now) <==> #[trigger] taken_in(spec_record(m, ip, mac, now), x, now)),
{
}

/// Only one list names the live sightings in address order, so what is
/// said of it is said of the record.
pub proof fn law_live_list_is_unique(a: Seq<Seen>, b: Seq<Seen>, m: Sightings, now: u64)
    requires
        lists_live(a, m, now),
        lists_live(b, m, now),
    ensures
        a == b,
{
    assert forall|k: int| 0 <= k < a.len() && k < b.len() implies a[k] == b[k] by {
        lemma_live_agree(a, b, m, now, k);
    }
    if a.len() < b.len() {
        let n = a.len() as int;
        assert(taken_in(m, b[n].ip, now));
        let j = choose|j: int| 0 <= j < a.len() && a[j].ip == b[n].ip;
        assert(a[j] == b[j]);
    } else if b.len() < a.len() {
        let n = b.len() as int;
        assert(taken_in(m, a[n].ip, now));
        let j = choose|j: int| 0 <= j < b.len() && b[j].ip == a[n].ip;
        assert(a[j] == b[j]);
    }
    assert(a =~= b);
}

proof fn lemma_live_agree(a: Seq<Seen>, b: Seq<Seen>, m: Sightings, now: u64, k: int)
    requires
        lists_live(a, m, now),
        lists_live(b, m, now),
        0 <= k < a.len(),
        k < b.len(),
    ensures
        a[k] == b[k],
    decreases k,
{
    if k > 0 {
        lemma_live_agree(a, b, m, now, k - 1);
    }
    assert forall|i: int| 0 <= i < k implies a[i] == b[i] by {
        lemma_live_agree(a, b, m, now, i);
    }
    assert(taken_in(m, a[k].ip, now));
    assert(taken_in(m, b[k].ip, now));
    let ja = choose|j: int| 0 <= j < b.len() && b[j].ip == a[k].ip;
    let jb = choose|j: int| 0 <= j < a.len() && a[j].ip == b[k].ip;
    if ja < k {
        assert(a[ja] == b[ja]);
    }
    if jb < k {
        assert(a[jb] == b[jb]);
    }
    assert(a[k].ip == b[k].ip);
}

} // verus!
