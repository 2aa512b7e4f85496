//! Leases and their state machine.

use vstd::prelude::*;

use crate::addr::{ClientId, ClientKey};
use crate::scope::ScopeId;
use crate::text::chars_of;

verus! {

/// Unix time in seconds. The core never reads a clock: callers pass the time
/// in, which keeps the state machine deterministic.
pub type UnixTime = u64;

#[derive(Clone, Copy, PartialEq, Eq, Debug, Structural)]
pub enum LeaseState {
    /// OFFER sent, waiting for the client's REQUEST. A short hold so that two
    /// concurrent DISCOVERs cannot be given the same address.
    Offered,
    /// ACK sent; the client is using the address.
    Bound,
    /// Released or expired; the address can be reused.
    Free,
    /// The client sent DECLINE: someone else on the wire already uses the
    /// address, so it is quarantined for a while.
    Declined,
}

/// The characters of an optional string.
pub open spec fn opt_text(o: Option<String>) -> Option<Seq<char>> {
    match o {
        Some(s) => Some(s@),
        None => None,
    }
}

/// A copy of an optional string.
pub fn clone_opt_string(o: &Option<String>) -> (r: Option<String>)
    ensures
        opt_text(r) == opt_text(*o),
{
    match o {
        Some(s) => Some(s.clone()),
        None => None,
    }
}

#[derive(Debug, PartialEq)]
pub struct Lease {
    pub ip: u32,
    pub client: ClientId,
    /// The scope that issued the lease. With several NICs the same address
    /// can mean different things in different scopes, so a lease has to
    /// remember who issued it.
    pub scope_id: ScopeId,
    pub state: LeaseState,
    /// Expiry. `Offered` uses the short offer hold, `Bound` the scope's lease
    /// time.
    pub expires_at: UnixTime,
    pub hostname: Option<String>,
    /// Option 60 (vendor class identifier). PXE clients send
    /// `PXEClient:Arch:00007:...`, which tells firmware from the OS stage.
    pub vendor_class: Option<String>,
    /// When the address was first handed out; shown to people only.
    pub created_at: UnixTime,
    /// The last time a packet from this client was seen.
    pub last_seen: UnixTime,
}

/// The mathematical value of a [`Lease`].
pub struct LeaseView {
    pub ip: u32,
    pub client: ClientKey,
    pub scope_id: ScopeId,
    pub state: LeaseState,
    pub expires_at: UnixTime,
    pub hostname: Option<Seq<char>>,
    pub vendor_class: Option<Seq<char>>,
    pub created_at: UnixTime,
    pub last_seen: UnixTime,
}

impl View for Lease {
    type V = LeaseView;

    open spec fn view(&self) -> LeaseView {
        LeaseView {
            ip: self.ip,
            client: self.client@,
            scope_id: self.scope_id,
            state: self.state,
            expires_at: self.expires_at,
            hostname: opt_text(self.hostname),
            vendor_class: opt_text(self.vendor_class),
            created_at: self.created_at,
            last_seen: self.last_seen,
        }
    }
}

impl Clone for Lease {
    fn clone(&self) -> (r: Self)
        ensures
            r@ == self@,
    {
        Lease {
            ip: self.ip,
            client: self.client.clone(),
            scope_id: self.scope_id,
            state: self.state,
            expires_at: self.expires_at,
            hostname: clone_opt_string(&self.hostname),
            vendor_class: clone_opt_string(&self.vendor_class),
            created_at: self.created_at,
            last_seen: self.last_seen,
        }
    }
}

/// The characters `PXEClient`.
pub open spec fn pxe_client_prefix() -> Seq<char> {
    seq!['P', 'X', 'E', 'C', 'l', 'i', 'e', 'n', 't']
}

/// Whether `s` begins with `p`.
pub open spec fn starts_with(s: Seq<char>, p: Seq<char>) -> bool {
    p.len() <= s.len() && s.take(p.len() as int) == p
}

impl LeaseView {
    pub open spec fn is_expired(self, now: UnixTime) -> bool {
        now >= self.expires_at
    }

    pub open spec fn is_active(self, now: UnixTime) -> bool {
        (self.state == LeaseState::Offered || self.state == LeaseState::Bound)
            && !self.is_expired(now)
    }

    pub open spec fn is_available_for_others(self, now: UnixTime) -> bool {
        match self.state {
            LeaseState::Free => true,
            _ => self.is_expired(now),
        }
    }

    pub open spec fn is_pxe(self) -> bool {
        match self.vendor_class {
            Some(v) => starts_with(v, pxe_client_prefix()),
            None => false,
        }
    }
}

/// Whether the characters of `s` begin with those of `prefix`.
pub fn str_starts_with(s: &str, prefix: &str) -> (r: bool)
    ensures
        r == starts_with(s@, prefix@),
{
    let a = chars_of(s);
    let p = chars_of(prefix);
    if p.len() > a.len() {
        return false;
    }
    let mut i: usize = 0;
    while i < p.len()
        invariant
            0 <= i <= p@.len() <= a@.len(),
            a@ == s@,
            p@ == prefix@,
            a@.take(i as int) == p@.take(i as int),
        decreases p@.len() - i,
    {
        if a[i] != p[i] {
            proof {
                assert(a@.take(p@.len() as int)[i as int] != p@[i as int]);
            }
            return false;
        }
        proof {
            assert(a@.take(i + 1) =~= a@.take(i as int).push(a@[i as int]));
            assert(p@.take(i + 1) =~= p@.take(i as int).push(p@[i as int]));
        }
        i = i + 1;
    }
    proof {
        assert(p@.take(p@.len() as int) =~= p@);
    }
    true
}

impl Lease {
    pub fn is_expired(&self, now: UnixTime) -> (r: bool)
        ensures
            r == self@.is_expired(now),
    {
        now >= self.expires_at
    }

    /// In use by its client: handed out and not expired.
    pub fn is_active(&self, now: UnixTime) -> (r: bool)
        ensures
            r == self@.is_active(now),
    {
        matches!(self.state, LeaseState::Offered | LeaseState::Bound) && !self.is_expired(now)
    }

    /// Whether the address may be given to a **different** client now.
    ///
    /// A declined address stays quarantined until it expires; the caller
    /// sets the quarantine through `expires_at`.
    pub fn is_available_for_others(&self, now: UnixTime) -> (r: bool)
        ensures
            r == self@.is_available_for_others(now),
    {
        match self.state {
            LeaseState::Free => true,
            LeaseState::Declined => self.is_expired(now),
            LeaseState::Offered | LeaseState::Bound => self.is_expired(now),
        }
    }

    /// Whether this is a PXE client (option 60 begins with `PXEClient`), so
    /// that boot options only go to machines that need them.
    pub fn is_pxe(&self) -> (r: bool)
        ensures
            r == self@.is_pxe(),
    {
        match &self.vendor_class {
            Some(v) => {
                let r = str_starts_with(v.as_str(), "PXEClient");
                proof {
                    reveal_strlit("PXEClient");
                    assert("PXEClient"@ =~= pxe_client_prefix());
                }
                r
            },
            None => false,
        }
    }
}

} // verus!
