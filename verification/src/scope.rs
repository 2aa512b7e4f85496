//! Scopes: a managed subnet and the configuration handed out on it.

use vstd::prelude::*;

use crate::addr::{ClientId, ClientKey, Range};
use crate::lease::{clone_opt_string, opt_text, starts_with, str_starts_with};
use crate::parse::{push_dec, push_ipv4, push_str, spec_dec, spec_ipv4_text};
use crate::text::string_from_chars;

verus! {

/// The stable identity of a scope. The name can change; leases refer to this.
#[derive(Clone, Copy, PartialEq, Eq, Hash, PartialOrd, Ord, Debug, Structural)]
pub struct ScopeId(pub u32);

/// A static reservation: a client pinned to an address.
#[derive(Debug, PartialEq)]
pub struct Reservation {
    pub client: ClientId,
    pub ip: u32,
    pub hostname: Option<String>,
}

impl Clone for Reservation {
    fn clone(&self) -> (r: Self)
        ensures
            r.client@ == self.client@,
            r.ip == self.ip,
            opt_text(r.hostname) == opt_text(self.hostname),
    {
        Reservation {
            client: self.client.clone(),
            ip: self.ip,
            hostname: clone_opt_string(&self.hostname),
        }
    }
}

/// How a client says it wants to boot from the network.
///
/// The three kinds want different things: PXE firmware a TFTP file name,
/// UEFI HTTP Boot firmware a full URL, a running iPXE a boot script. Sending
/// the wrong one at best does nothing and at worst loops forever (see
/// [`BootClient::Ipxe`]).
#[derive(Clone, Copy, PartialEq, Eq, Debug, Structural)]
pub enum BootClient {
    /// No boot identity: an ordinary client, or old firmware without option 60.
    Plain,
    /// PXE firmware: option 60 begins with `PXEClient`.
    Pxe,
    /// UEFI HTTP Boot firmware: option 60 begins with `HTTPClient`.
    HttpBoot,
    /// An iPXE that is already running: option 77 (user class) is `iPXE`.
    ///
    /// **Must be decided before option 60**: iPXE also sends
    /// `PXEClient:Arch:...`; judged by option 60 alone it would be sent
    /// `ipxe.efi` again, load it, ask again, and so on forever.
    Ipxe,
}

impl Default for BootClient {
    fn default() -> (r: Self)
        ensures
            r == BootClient::Plain,
    {
        BootClient::Plain
    }
}

/// Network boot parameters (PXE / iPXE / UEFI HTTP Boot).
#[derive(Debug, Default, PartialEq)]
pub struct BootConfig {
    /// Option 66: the TFTP server name.
    pub server_name: Option<String>,
    /// Option 67: the boot file name. The default, for PXE firmware and for
    /// clients that name no boot identity.
    pub filename: Option<String>,
    /// The next server, carried in `siaddr`.
    pub next_server: Option<u32>,
    /// The boot URL for UEFI HTTP Boot clients. Must be a full URL: they do
    /// not fetch from TFTP.
    pub http_url: Option<String>,
    /// The boot script for an iPXE that is already running, usually
    /// `http://.../boot.ipxe`. Without it iPXE gets the same `filename` as
    /// the firmware, which is usually iPXE itself: an endless reload.
    pub ipxe_url: Option<String>,
}

impl Clone for BootConfig {
    fn clone(&self) -> (r: Self)
        ensures
            opt_text(r.server_name) == opt_text(self.server_name),
            opt_text(r.filename) == opt_text(self.filename),
            r.next_server == self.next_server,
            opt_text(r.http_url) == opt_text(self.http_url),
            opt_text(r.ipxe_url) == opt_text(self.ipxe_url),
    {
        BootConfig {
            server_name: clone_opt_string(&self.server_name),
            filename: clone_opt_string(&self.filename),
            next_server: self.next_server,
            http_url: clone_opt_string(&self.http_url),
            ipxe_url: clone_opt_string(&self.ipxe_url),
        }
    }
}

pub open spec fn http_prefix() -> Seq<char> {
    seq!['h', 't', 't', 'p', ':', '/', '/']
}

pub open spec fn https_prefix() -> Seq<char> {
    seq!['h', 't', 't', 'p', 's', ':', '/', '/']
}

/// Begins with `http://` or `https://`.
pub open spec fn spec_looks_like_url(s: Seq<char>) -> bool {
    starts_with(s, http_prefix()) || starts_with(s, https_prefix())
}

/// What [`BootConfig::file_for`] hands out to a client of kind `c`.
pub open spec fn spec_file_for(b: BootConfig, c: BootClient) -> Option<Seq<char>> {
    let filename = opt_text(b.filename);
    match c {
        BootClient::Ipxe => match opt_text(b.ipxe_url) {
            Some(u) => Some(u),
            None => filename,
        },
        BootClient::HttpBoot => match opt_text(b.http_url) {
            Some(u) => Some(u),
            None => match filename {
                Some(f) => if spec_looks_like_url(f) { Some(f) } else { None },
                None => None,
            },
        },
        _ => filename,
    }
}

/// Whether `s` begins with `http://` or `https://`.
pub fn looks_like_url(s: &str) -> (r: bool)
    ensures
        r == spec_looks_like_url(s@),
{
    let a = str_starts_with(s, "http://");
    let b = str_starts_with(s, "https://");
    proof {
        reveal_strlit("http://");
        reveal_strlit("https://");
        assert("http://"@ =~= http_prefix());
        assert("https://"@ =~= https_prefix());
    }
    a || b
}

impl BootConfig {
    /// What to send to this kind of client. `None` means nothing it can use,
    /// in which case no boot option is sent at all: one it cannot use is
    /// worse than none.
    pub fn file_for(&self, client: BootClient) -> (r: Option<&str>)
        ensures
            match r {
                Some(s) => spec_file_for(*self, client) == Some(s@),
                None => spec_file_for(*self, client) is None,
            },
    {
        match client {
            // Already iPXE: it wants the script. Without one fall back to the
            // default, as before this setting existed.
            BootClient::Ipxe => match &self.ipxe_url {
                Some(u) => Some(u.as_str()),
                None => match &self.filename {
                    Some(f) => Some(f.as_str()),
                    None => None,
                },
            },
            // HTTP Boot firmware only takes a URL; the default is usable only
            // when it is itself a URL.
            BootClient::HttpBoot => match &self.http_url {
                Some(u) => Some(u.as_str()),
                None => match &self.filename {
                    Some(f) => if looks_like_url(f.as_str()) {
                        Some(f.as_str())
                    } else {
                        None
                    },
                    None => None,
                },
            },
            BootClient::Pxe | BootClient::Plain => match &self.filename {
                Some(f) => Some(f.as_str()),
                None => None,
            },
        }
    }

    /// Whether no boot parameter is set.
    pub fn is_empty(&self) -> (r: bool)
        ensures
            r == (self.server_name is None && self.filename is None && self.next_server is None
                && self.http_url is None && self.ipxe_url is None),
    {
        self.server_name.is_none() && self.filename.is_none() && self.next_server.is_none()
            && self.http_url.is_none() && self.ipxe_url.is_none()
    }
}

} // verus!

verus! {

/// A problem that [`Scope::validate`] finds in a scope's configuration.
#[derive(Clone, Copy, PartialEq, Eq, Debug, Structural)]
pub enum ScopeError {
    /// The prefix length is not in 0..=32.
    BadPrefix(u8),
    /// The subnet has host bits set.
    NotANetworkAddress { subnet: u32, prefix: u8 },
    /// A pool reaches outside the subnet.
    PoolOutsideSubnet { range: Range, subnet: u32, prefix: u8 },
    /// Two pools share an address.
    PoolsOverlap { a: Range, b: Range },
    /// A reserved address lies outside the subnet.
    ReservationOutsideSubnet { ip: u32, subnet: u32, prefix: u8 },
    /// One address is reserved for several clients.
    DuplicateReservation { ip: u32, count: usize },
    /// The gateway lies outside the subnet.
    GatewayOutsideSubnet { gw: u32, subnet: u32, prefix: u8 },
    /// The lease time is zero.
    ZeroLease,
    /// The offer hold is longer than the lease.
    OfferLongerThanLease { offer: u32, lease: u32 },
    /// The scope has no address it could hand out.
    NoUsableAddresses,
}

/// Option 43, vendor-specific information.
pub const VENDOR_SPECIFIC: u8 = 43;

#[derive(Debug)]
pub struct Scope {
    pub id: ScopeId,
    pub name: String,
    /// A disabled scope answers nothing, but keeps its configuration and leases.
    pub enabled: bool,
    /// The network address, such as 192.168.88.0.
    pub subnet: u32,
    /// The prefix length, such as 24.
    pub prefix: u8,
    /// The ranges handed out, used in order.
    pub pools: Vec<Range>,
    /// Ranges taken out of the pools (a few addresses kept for switches, say).
    pub exclusions: Vec<Range>,
    pub reservations: Vec<Reservation>,
    pub router: Option<u32>,
    pub dns: Vec<u32>,
    pub domain: Option<String>,
    /// The lease time.
    pub lease_secs: u32,
    /// How long an OFFER holds its address: when the client never follows up
    /// with a REQUEST the address must come back quickly.
    pub offer_secs: u32,
    /// How long a DECLINEd address stays quarantined.
    pub decline_quarantine_secs: u32,
    pub boot: Option<BootConfig>,
    /// Extra raw options `(code, value)`, for what this struct has no field for.
    pub extra_options: Vec<(u8, Vec<u8>)>,
    /// The subnet is served through a DHCP relay: this host has no address on
    /// it, and replies go back to `giaddr`.
    pub via_relay: bool,
}

/// The netmask of a prefix length; prefixes of 32 and more give all ones.
pub open spec fn spec_netmask(prefix: u8) -> u32 {
    if prefix >= 32 {
        0xffff_ffffu32
    } else if prefix == 0 {
        0u32
    } else {
        (0xffff_ffffu32 << ((32 - prefix) as u32)) as u32
    }
}

/// Whether `ip` is in one of `ranges`.
pub open spec fn in_ranges(ranges: Seq<Range>, ip: u32) -> bool {
    exists|i: int| 0 <= i < ranges.len() && #[trigger] ranges[i].spec_contains(ip)
}

/// Every address of every range, range after range, each in ascending order.
pub open spec fn spec_pool_addrs(pools: Seq<Range>) -> Seq<u32>
    decreases pools.len(),
{
    if pools.len() == 0 {
        Seq::empty()
    } else {
        spec_pool_addrs(pools.drop_last()) + pools.last().addrs()
    }
}

impl Scope {
    pub open spec fn spec_netmask(&self) -> u32 {
        spec_netmask(self.prefix)
    }

    pub open spec fn spec_broadcast(&self) -> u32 {
        self.subnet | !spec_netmask(self.prefix)
    }

    pub open spec fn spec_contains(&self, ip: u32) -> bool {
        ip & spec_netmask(self.prefix) == self.subnet & spec_netmask(self.prefix)
    }

    /// In some pool, in no exclusion, and neither the network nor the
    /// broadcast address.
    pub open spec fn spec_is_poolable(&self, ip: u32) -> bool {
        &&& in_ranges(self.pools@, ip)
        &&& !in_ranges(self.exclusions@, ip)
        &&& ip != self.subnet
        &&& ip != self.spec_broadcast()
    }

    /// The poolable addresses among `addrs`, in their order.
    pub open spec fn poolable_among(&self, addrs: Seq<u32>) -> Seq<u32>
        decreases addrs.len(),
    {
        if addrs.len() == 0 {
            Seq::empty()
        } else {
            let rest = self.poolable_among(addrs.drop_last());
            if self.spec_is_poolable(addrs.last()) {
                rest.push(addrs.last())
            } else {
                rest
            }
        }
    }

    /// The addresses handed out dynamically, in allocation order: the pools
    /// in order, each ascending, keeping only the poolable ones.
    pub open spec fn spec_poolable_addrs(&self) -> Seq<u32> {
        self.poolable_among(spec_pool_addrs(self.pools@))
    }

    pub open spec fn spec_has_pxe_vendor_options(&self) -> bool {
        exists|i: int|
            0 <= i < self.extra_options@.len() && #[trigger] self.extra_options@[i].0
                == VENDOR_SPECIFIC && self.extra_options@[i].1@.len() > 0
    }

    /// The index of the first reservation for `client`.
    pub open spec fn reservation_index(&self, client: ClientKey) -> Option<int> {
        if exists|i: int|
            0 <= i < self.reservations@.len() && #[trigger] self.reservations@[i].client@
                == client {
            Some(
                choose|i: int|
                    0 <= i < self.reservations@.len() && self.reservations@[i].client@ == client
                        && forall|j: int|
                        0 <= j < i ==> #[trigger] self.reservations@[j].client@ != client,
            )
        } else {
            None
        }
    }

    pub open spec fn spec_is_reserved_for_other(&self, ip: u32, client: ClientKey) -> bool {
        exists|i: int|
            0 <= i < self.reservations@.len() && #[trigger] self.reservations@[i].ip == ip
                && self.reservations@[i].client@ != client
    }
}

} // verus!

verus! {

/// Whether `ip` is in one of `ranges`.
pub fn in_any_range(ranges: &[Range], ip: u32) -> (r: bool)
    ensures
        r == in_ranges(ranges@, ip),
{
    let mut i: usize = 0;
    while i < ranges.len()
        invariant
            0 <= i <= ranges@.len(),
            forall|j: int| 0 <= j < i ==> !(#[trigger] ranges@[j]).spec_contains(ip),
        decreases ranges@.len() - i,
    {
        if ranges[i].contains(ip) {
            return true;
        }
        i = i + 1;
    }
    false
}

pub proof fn lemma_pool_addrs_step(pools: Seq<Range>, i: int)
    requires
        0 <= i < pools.len(),
    ensures
        spec_pool_addrs(pools.take(i + 1)) == spec_pool_addrs(pools.take(i)) + pools[i].addrs(),
{
    assert(pools.take(i + 1).drop_last() =~= pools.take(i));
}

/// The netmask of a prefix length (see [`spec_netmask`]).
pub fn netmask_of(prefix: u8) -> (r: u32)
    ensures
        r == spec_netmask(prefix),
{
    if prefix >= 32 {
        u32::MAX
    } else if prefix == 0 {
        0
    } else {
        u32::MAX << (32 - prefix as u32)
    }
}

impl Scope {
    /// A workable default scope; callers override fields as needed.
    pub fn new(id: u32, name: &str, subnet: u32, prefix: u8) -> (r: Scope)
        ensures
            r.id == ScopeId(id),
            r.name@ == name@,
            r.enabled,
            r.subnet == subnet,
            r.prefix == prefix,
            r.pools@.len() == 0,
            r.exclusions@.len() == 0,
            r.reservations@.len() == 0,
            r.router is None,
            r.dns@.len() == 0,
            r.domain is None,
            r.lease_secs == 3600,
            r.offer_secs == 30,
            r.decline_quarantine_secs == 3600,
            r.boot is None,
            r.extra_options@.len() == 0,
            !r.via_relay,
    {
        Scope {
            id: ScopeId(id),
            name: name.to_owned(),
            enabled: true,
            subnet,
            prefix,
            pools: Vec::new(),
            exclusions: Vec::new(),
            reservations: Vec::new(),
            router: None,
            dns: Vec::new(),
            domain: None,
            lease_secs: 3600,
            offer_secs: 30,
            decline_quarantine_secs: 3600,
            boot: None,
            extra_options: Vec::new(),
            via_relay: false,
        }
    }

    /// Whether the scope carries PXE vendor options (a non-empty option 43).
    ///
    /// Decides whether a reply may claim option 60 = `PXEClient`: claiming it
    /// without option 43 sends firmware looking for a boot server list that
    /// does not exist, after which it does nothing.
    pub fn has_pxe_vendor_options(&self) -> (r: bool)
        ensures
            r == self.spec_has_pxe_vendor_options(),
    {
        let mut i: usize = 0;
        while i < self.extra_options.len()
            invariant
                0 <= i <= self.extra_options@.len(),
                forall|j: int|
                    0 <= j < i ==> !(#[trigger] self.extra_options@[j].0 == VENDOR_SPECIFIC
                        && self.extra_options@[j].1@.len() > 0),
            decreases self.extra_options@.len() - i,
        {
            let (code, value) = &self.extra_options[i];
            if *code == VENDOR_SPECIFIC && value.len() > 0 {
                return true;
            }
            i = i + 1;
        }
        false
    }

    pub fn netmask(&self) -> (r: u32)
        ensures
            r == self.spec_netmask(),
    {
        netmask_of(self.prefix)
    }

    pub fn broadcast(&self) -> (r: u32)
        ensures
            r == self.spec_broadcast(),
    {
        self.subnet | !self.netmask()
    }

    /// Whether `ip` belongs to this scope's subnet.
    pub fn contains(&self, ip: u32) -> (r: bool)
        ensures
            r == self.spec_contains(ip),
    {
        let mask = self.netmask();
        ip & mask == self.subnet & mask
    }

    /// Whether `ip` can be handed out dynamically: in a pool, outside every
    /// exclusion, and never the network or broadcast address.
    pub fn is_poolable(&self, ip: u32) -> (r: bool)
        ensures
            r == self.spec_is_poolable(ip),
    {
        in_any_range(self.pools.as_slice(), ip) && !in_any_range(self.exclusions.as_slice(), ip)
            && ip != self.subnet && ip != self.broadcast()
    }

    /// The first reservation for `client`.
    pub fn reservation_for(&self, client: &ClientId) -> (r: Option<&Reservation>)
        ensures
            match self.reservation_index(client@) {
                Some(i) => r == Some(&self.reservations@[i]),
                None => r is None,
            },
    {
        let mut i: usize = 0;
        while i < self.reservations.len()
            invariant
                0 <= i <= self.reservations@.len(),
                forall|j: int| 0 <= j < i ==> #[trigger] self.reservations@[j].client@ != client@,
            decreases self.reservations@.len() - i,
        {
            if self.reservations[i].client.same_as(client) {
                proof {
                    let k = i as int;
                    assert(self.reservations@[k].client@ == client@);
                    let c = self.reservation_index(client@);
                    assert(c is Some);
                    let m = c.unwrap();
                    if m < k {
                        assert(self.reservations@[m].client@ != client@);
                    }
                    if k < m {
                        assert(self.reservations@[k].client@ != client@);
                    }
                }
                return Some(&self.reservations[i]);
            }
            i = i + 1;
        }
        None
    }

    /// Whether a static reservation holds `ip` for someone other than
    /// `client` (so that dynamic allocation does not tread on it).
    pub fn is_reserved_for_other(&self, ip: u32, client: &ClientId) -> (r: bool)
        ensures
            r == self.spec_is_reserved_for_other(ip, client@),
    {
        let mut i: usize = 0;
        while i < self.reservations.len()
            invariant
                0 <= i <= self.reservations@.len(),
                forall|j: int|
                    0 <= j < i ==> !(#[trigger] self.reservations@[j].ip == ip
                        && self.reservations@[j].client@ != client@),
            decreases self.reservations@.len() - i,
        {
            if self.reservations[i].ip == ip && !self.reservations[i].client.same_as(client) {
                return true;
            }
            i = i + 1;
        }
        false
    }

    /// Every address that can be handed out, in allocation order.
    pub fn poolable_addrs(&self) -> (r: Vec<u32>)
        ensures
            r@ == self.spec_poolable_addrs(),
    {
        let mut out: Vec<u32> = Vec::new();
        let mut i: usize = 0;
        while i < self.pools.len()
            invariant
                0 <= i <= self.pools@.len(),
                out@ == self.poolable_among(spec_pool_addrs(self.pools@.take(i as int))),
            decreases self.pools@.len() - i,
        {
            let p = self.pools[i];
            let ghost before = spec_pool_addrs(self.pools@.take(i as int));
            proof {
                lemma_pool_addrs_step(self.pools@, i as int);
            }
            if p.start <= p.end {
                let mut ip: u64 = p.start as u64;
                while ip <= p.end as u64
                    invariant
                        0 <= i < self.pools@.len(),
                        p.start <= ip <= p.end as u64 + 1,
                        p == self.pools@[i as int],
                        p.start <= p.end,
                        out@ == self.poolable_among(before + p.addrs().take(ip - p.start)),
                    decreases p.end as u64 + 1 - ip,
                {
                    let ghost seen = before + p.addrs().take(ip - p.start);
                    proof {
                        assert((before + p.addrs().take(ip - p.start + 1)).drop_last() =~= seen);
                        assert((before + p.addrs().take(ip - p.start + 1)).last() == ip as u32);
                    }
                    if self.is_poolable(ip as u32) {
                        out.push(ip as u32);
                    }
                    ip = ip + 1;
                }
                proof {
                    assert(p.addrs().take(ip - p.start) =~= p.addrs());
                }
            } else {
                proof {
                    assert(p.addrs() =~= Seq::<u32>::empty());
                    assert(before + p.addrs() =~= before);
                }
            }
            i = i + 1;
        }
        proof {
            assert(self.pools@.take(self.pools@.len() as int) =~= self.pools@);
        }
        out
    }
}

} // verus!

verus! {

pub proof fn lemma_pool_addrs_prefix(pools: Seq<Range>, i: int)
    requires
        0 <= i <= pools.len(),
    ensures
        spec_pool_addrs(pools.take(i)).len() <= spec_pool_addrs(pools).len(),
        spec_pool_addrs(pools).take(spec_pool_addrs(pools.take(i)).len() as int)
            == spec_pool_addrs(pools.take(i)),
    decreases pools.len() - i,
{
    if i == pools.len() {
        assert(pools.take(i) =~= pools);
        assert(spec_pool_addrs(pools).take(spec_pool_addrs(pools).len() as int)
            =~= spec_pool_addrs(pools));
    } else {
        lemma_pool_addrs_prefix(pools, i + 1);
        lemma_pool_addrs_step(pools, i);
        let a = spec_pool_addrs(pools.take(i));
        let b = spec_pool_addrs(pools.take(i + 1));
        let full = spec_pool_addrs(pools);
        assert(full.take(a.len() as int) =~= b.take(a.len() as int));
        assert(b.take(a.len() as int) =~= a);
    }
}

impl Scope {
    pub proof fn lemma_poolable_among_add(&self, a: Seq<u32>, b: Seq<u32>)
        ensures
            self.poolable_among(a + b) == self.poolable_among(a) + self.poolable_among(b),
        decreases b.len(),
    {
        if b.len() == 0 {
            assert(a + b =~= a);
            assert(self.poolable_among(a) + self.poolable_among(b) =~= self.poolable_among(a));
        } else {
            self.lemma_poolable_among_add(a, b.drop_last());
            assert((a + b).drop_last() =~= a + b.drop_last());
            assert((a + b).last() == b.last());
            if self.spec_is_poolable(b.last()) {
                assert(self.poolable_among(a + b) =~= self.poolable_among(a)
                    + self.poolable_among(b));
            } else {
                assert(self.poolable_among(a + b) =~= self.poolable_among(a)
                    + self.poolable_among(b));
            }
        }
    }

    pub proof fn lemma_poolable_among_len(&self, a: Seq<u32>)
        ensures
            self.poolable_among(a).len() <= a.len(),
        decreases a.len(),
    {
        if a.len() > 0 {
            self.lemma_poolable_among_len(a.drop_last());
        }
    }

    /// Extending the addresses never loses poolable ones.
    pub proof fn lemma_poolable_among_prefix(&self, a: Seq<u32>, b: Seq<u32>)
        requires
            a.len() <= b.len(),
            b.take(a.len() as int) == a,
        ensures
            self.poolable_among(b).take(self.poolable_among(a).len() as int) == self.poolable_among(a),
            self.poolable_among(a).len() <= self.poolable_among(b).len(),
    {
        let rest = b.skip(a.len() as int);
        assert(b =~= a + rest);
        self.lemma_poolable_among_add(a, rest);
        assert(self.poolable_among(b).take(self.poolable_among(a).len() as int)
            =~= self.poolable_among(a));
    }

    /// The number of addresses that can be handed out dynamically (after
    /// exclusions and the network and broadcast addresses).
    pub fn capacity(&self) -> (r: u64)
        requires
            spec_pool_addrs(self.pools@).len() <= u64::MAX,
        ensures
            r == self.spec_poolable_addrs().len(),
    {
        let mut count: u64 = 0;
        let mut i: usize = 0;
        while i < self.pools.len()
            invariant
                0 <= i <= self.pools@.len(),
                spec_pool_addrs(self.pools@).len() <= u64::MAX,
                count == self.poolable_among(spec_pool_addrs(self.pools@.take(i as int))).len(),
            decreases self.pools@.len() - i,
        {
            let p = self.pools[i];
            let ghost before = spec_pool_addrs(self.pools@.take(i as int));
            proof {
                lemma_pool_addrs_step(self.pools@, i as int);
                lemma_pool_addrs_prefix(self.pools@, (i + 1) as int);
            }
            if p.start <= p.end {
                let mut ip: u64 = p.start as u64;
                while ip <= p.end as u64
                    invariant
                        0 <= i < self.pools@.len(),
                        p.start <= ip <= p.end as u64 + 1,
                        p == self.pools@[i as int],
                        p.start <= p.end,
                        before == spec_pool_addrs(self.pools@.take(i as int)),
                        spec_pool_addrs(self.pools@.take(i + 1)) == before + p.addrs(),
                        spec_pool_addrs(self.pools@.take(i + 1)).len() <= spec_pool_addrs(
                            self.pools@,
                        ).len(),
                        spec_pool_addrs(self.pools@).len() <= u64::MAX,
                        count == self.poolable_among(before + p.addrs().take(ip - p.start)).len(),
                    decreases p.end as u64 + 1 - ip,
                {
                    let ghost seen = before + p.addrs().take(ip - p.start);
                    let ghost next = before + p.addrs().take(ip - p.start + 1);
                    proof {
                        assert(next.drop_last() =~= seen);
                        assert(next.last() == ip as u32);
                        self.lemma_poolable_among_len(next);
                        assert(next.len() <= (before + p.addrs()).len());
                    }
                    if self.is_poolable(ip as u32) {
                        count = count + 1;
                    }
                    ip = ip + 1;
                }
                proof {
                    assert(p.addrs().take(ip - p.start) =~= p.addrs());
                }
            } else {
                proof {
                    assert(p.addrs() =~= Seq::<u32>::empty());
                    assert(before + p.addrs() =~= before);
                }
            }
            i = i + 1;
        }
        proof {
            assert(self.pools@.take(self.pools@.len() as int) =~= self.pools@);
        }
        count
    }

    /// Whether at least one address can be handed out dynamically.
    pub fn has_poolable_addr(&self) -> (r: bool)
        ensures
            r == (self.spec_poolable_addrs().len() > 0),
    {
        let mut i: usize = 0;
        while i < self.pools.len()
            invariant
                0 <= i <= self.pools@.len(),
                self.poolable_among(spec_pool_addrs(self.pools@.take(i as int))).len() == 0,
            decreases self.pools@.len() - i,
        {
            let p = self.pools[i];
            let ghost before = spec_pool_addrs(self.pools@.take(i as int));
            proof {
                lemma_pool_addrs_step(self.pools@, i as int);
                lemma_pool_addrs_prefix(self.pools@, (i + 1) as int);
            }
            if p.start <= p.end {
                let mut ip: u64 = p.start as u64;
                while ip <= p.end as u64
                    invariant
                        0 <= i < self.pools@.len(),
                        p.start <= ip <= p.end as u64 + 1,
                        p == self.pools@[i as int],
                        p.start <= p.end,
                        before == spec_pool_addrs(self.pools@.take(i as int)),
                        spec_pool_addrs(self.pools@.take(i + 1)) == before + p.addrs(),
                        spec_pool_addrs(self.pools@).take(
                            spec_pool_addrs(self.pools@.take(i + 1)).len() as int,
                        ) == spec_pool_addrs(self.pools@.take(i + 1)),
                        spec_pool_addrs(self.pools@.take(i + 1)).len() <= spec_pool_addrs(
                            self.pools@,
                        ).len(),
                        self.poolable_among(before + p.addrs().take(ip - p.start)).len() == 0,
                    decreases p.end as u64 + 1 - ip,
                {
                    let ghost seen = before + p.addrs().take(ip - p.start);
                    let ghost next = before + p.addrs().take(ip - p.start + 1);
                    proof {
                        assert(next.drop_last() =~= seen);
                        assert(next.last() == ip as u32);
                    }
                    if self.is_poolable(ip as u32) {
                        proof {
                            let full = spec_pool_addrs(self.pools@);
                            let upto = before + p.addrs();
                            assert(upto.take(next.len() as int) =~= next);
                            assert(full.take(next.len() as int) =~= next);
                            self.lemma_poolable_among_prefix(next, full);
                        }
                        return true;
                    }
                    ip = ip + 1;
                }
                proof {
                    assert(p.addrs().take(ip - p.start) =~= p.addrs());
                }
            } else {
                proof {
                    assert(p.addrs() =~= Seq::<u32>::empty());
                    assert(before + p.addrs() =~= before);
                }
            }
            i = i + 1;
        }
        proof {
            assert(self.pools@.take(self.pools@.len() as int) =~= self.pools@);
        }
        false
    }
}

} // verus!

verus! {

/// `PoolOutsideSubnet` for each of the first `n` pools that reaches outside
/// the subnet, in pool order.
pub open spec fn spec_pool_outside_errs(s: Scope, n: int) -> Seq<ScopeError>
    decreases n,
{
    if n <= 0 {
        Seq::empty()
    } else {
        let p = s.pools@[n - 1];
        spec_pool_outside_errs(s, n - 1) + if !s.spec_contains(p.start) || !s.spec_contains(
            p.end,
        ) {
            seq![ScopeError::PoolOutsideSubnet { range: p, subnet: s.subnet, prefix: s.prefix }]
        } else {
            Seq::empty()
        }
    }
}

/// `PoolsOverlap` for pool `i` against each pool `k` with `i < k < j` that
/// it overlaps, in order of `k`.
pub open spec fn spec_overlap_row(ps: Seq<Range>, i: int, j: int) -> Seq<ScopeError>
    decreases j - i,
{
    if j <= i + 1 {
        Seq::empty()
    } else {
        spec_overlap_row(ps, i, j - 1) + if ps[i].spec_overlaps(ps[j - 1]) {
            seq![ScopeError::PoolsOverlap { a: ps[i], b: ps[j - 1] }]
        } else {
            Seq::empty()
        }
    }
}

/// `PoolsOverlap` for every overlapping pair `(a, b)` of pools with `a`
/// among the first `n` and `b` after it, ordered by `a` then `b`.
pub open spec fn spec_overlap_errs(ps: Seq<Range>, n: int) -> Seq<ScopeError>
    decreases n,
{
    if n <= 0 {
        Seq::empty()
    } else {
        spec_overlap_errs(ps, n - 1) + spec_overlap_row(ps, n - 1, ps.len() as int)
    }
}

/// `ReservationOutsideSubnet` for each of the first `n` reservations whose
/// address lies outside the subnet, in order.
pub open spec fn spec_reservation_outside_errs(s: Scope, n: int) -> Seq<ScopeError>
    decreases n,
{
    if n <= 0 {
        Seq::empty()
    } else {
        let ip = s.reservations@[n - 1].ip;
        spec_reservation_outside_errs(s, n - 1) + if !s.spec_contains(ip) {
            seq![ScopeError::ReservationOutsideSubnet { ip, subnet: s.subnet, prefix: s.prefix }]
        } else {
            Seq::empty()
        }
    }
}

/// The reserved addresses, in reservation order.
pub open spec fn reservation_ips(s: Scope) -> Seq<u32> {
    Seq::new(s.reservations@.len(), |i: int| s.reservations@[i].ip)
}

/// The distinct elements of `xs` in order of first occurrence.
pub open spec fn distinct_in_order(xs: Seq<u32>) -> Seq<u32>
    decreases xs.len(),
{
    if xs.len() == 0 {
        Seq::empty()
    } else {
        let d = distinct_in_order(xs.drop_last());
        if d.contains(xs.last()) {
            d
        } else {
            d.push(xs.last())
        }
    }
}

/// How often `x` occurs in `xs`.
pub open spec fn count_of(xs: Seq<u32>, x: u32) -> nat
    decreases xs.len(),
{
    if xs.len() == 0 {
        0
    } else {
        count_of(xs.drop_last(), x) + if xs.last() == x {
            1nat
        } else {
            0nat
        }
    }
}

/// `DuplicateReservation` for each address among `d` that `xs` holds more
/// than once, with the number of times it does, in the order of `d`.
pub open spec fn spec_dup_errs(xs: Seq<u32>, d: Seq<u32>) -> Seq<ScopeError>
    decreases d.len(),
{
    if d.len() == 0 {
        Seq::empty()
    } else {
        spec_dup_errs(xs, d.drop_last()) + if count_of(xs, d.last()) > 1 {
            seq![ScopeError::DuplicateReservation { ip: d.last(), count: count_of(xs, d.last()) as usize }]
        } else {
            Seq::empty()
        }
    }
}

/// Everything [`Scope::validate`] reports, in the order it reports it.
pub open spec fn spec_validate(s: Scope) -> Seq<ScopeError> {
    if s.prefix > 32 {
        seq![ScopeError::BadPrefix(s.prefix)]
    } else {
        spec_network_errs(s) + spec_pool_outside_errs(s, s.pools@.len() as int) + spec_overlap_errs(
            s.pools@,
            s.pools@.len() as int,
        ) + spec_reservation_outside_errs(s, s.reservations@.len() as int) + spec_dup_errs(
            reservation_ips(s),
            distinct_in_order(reservation_ips(s)),
        ) + spec_gateway_errs(s) + spec_lease_errs(s) + spec_empty_errs(s)
    }
}

/// The subnet with host bits set.
pub open spec fn spec_network_errs(s: Scope) -> Seq<ScopeError> {
    if s.subnet & !spec_netmask(s.prefix) != 0 {
        seq![ScopeError::NotANetworkAddress { subnet: s.subnet, prefix: s.prefix }]
    } else {
        Seq::empty()
    }
}

/// A gateway outside the subnet.
pub open spec fn spec_gateway_errs(s: Scope) -> Seq<ScopeError> {
    match s.router {
        Some(gw) => if !s.spec_contains(gw) {
            seq![ScopeError::GatewayOutsideSubnet { gw, subnet: s.subnet, prefix: s.prefix }]
        } else {
            Seq::empty()
        },
        None => Seq::empty(),
    }
}

/// A zero lease, or an offer hold longer than the lease.
pub open spec fn spec_lease_errs(s: Scope) -> Seq<ScopeError> {
    if s.lease_secs == 0 {
        seq![ScopeError::ZeroLease]
    } else if s.offer_secs > s.lease_secs {
        seq![ScopeError::OfferLongerThanLease { offer: s.offer_secs, lease: s.lease_secs }]
    } else {
        Seq::empty()
    }
}

/// No address to hand out at all.
pub open spec fn spec_empty_errs(s: Scope) -> Seq<ScopeError> {
    if s.spec_poolable_addrs().len() == 0 && s.reservations@.len() == 0 {
        seq![ScopeError::NoUsableAddresses]
    } else {
        Seq::empty()
    }
}

proof fn lemma_outside_listed(s: Scope, n: int, i: int)
    requires
        0 <= i < n <= s.reservations@.len(),
        !s.spec_contains(s.reservations@[i].ip),
    ensures
        spec_reservation_outside_errs(s, n).contains(
            ScopeError::ReservationOutsideSubnet { ip: s.reservations@[i].ip, subnet: s.subnet, prefix: s.prefix },
        ),
    decreases n,
{
    let e = ScopeError::ReservationOutsideSubnet { ip: s.reservations@[i].ip, subnet: s.subnet, prefix: s.prefix };
    let prev = spec_reservation_outside_errs(s, n - 1);
    let whole = spec_reservation_outside_errs(s, n);
    if i < n - 1 {
        lemma_outside_listed(s, n - 1, i);
        let j = choose|j: int| 0 <= j < prev.len() && prev[j] == e;
        assert(whole[j] == e);
    } else {
        assert(whole[prev.len() as int] == e);
    }
}

/// Validation reports every reservation whose address lies outside the
/// subnet, each with the subnet it misses, whatever else is wrong with the
/// scope (a bad prefix aside, which stops validation at once).
pub proof fn law_reservations_outside_are_reported(s: Scope, i: int)
    requires
        s.prefix <= 32,
        0 <= i < s.reservations@.len(),
        !s.spec_contains(s.reservations@[i].ip),
    ensures
        spec_validate(s).contains(
            ScopeError::ReservationOutsideSubnet { ip: s.reservations@[i].ip, subnet: s.subnet, prefix: s.prefix },
        ),
{
    let e = ScopeError::ReservationOutsideSubnet { ip: s.reservations@[i].ip, subnet: s.subnet, prefix: s.prefix };
    let n = s.reservations@.len() as int;
    lemma_outside_listed(s, n, i);
    let errs = spec_reservation_outside_errs(s, n);
    let j = choose|j: int| 0 <= j < errs.len() && errs[j] == e;
    let pre = spec_network_errs(s) + spec_pool_outside_errs(s, s.pools@.len() as int) + spec_overlap_errs(
        s.pools@,
        s.pools@.len() as int,
    );
    let v = spec_validate(s);
    let upto = pre + errs;
    assert(upto[pre.len() + j] == e);
    let rest = spec_dup_errs(reservation_ips(s), distinct_in_order(reservation_ips(s)));
    assert(v == upto + rest + spec_gateway_errs(s) + spec_lease_errs(s) + spec_empty_errs(s));
    assert(v[pre.len() + j] == e);
}

proof fn lemma_distinct_unique(xs: Seq<u32>)
    ensures
        forall|a: int, b: int|
            0 <= a < b < distinct_in_order(xs).len() ==> distinct_in_order(xs)[a]
                != distinct_in_order(xs)[b],
    decreases xs.len(),
{
    if xs.len() > 0 {
        lemma_distinct_unique(xs.drop_last());
        let d = distinct_in_order(xs.drop_last());
        if !d.contains(xs.last()) {
            let e = d.push(xs.last());
            assert forall|a: int, b: int| 0 <= a < b < e.len() implies e[a] != e[b] by {
                if b == d.len() {
                    assert(e[a] == d[a]);
                }
            }
        }
    }
}

proof fn lemma_count_absent(xs: Seq<u32>, x: u32)
    requires
        !distinct_in_order(xs).contains(x),
    ensures
        count_of(xs, x) == 0,
    decreases xs.len(),
{
    if xs.len() > 0 {
        let d = distinct_in_order(xs.drop_last());
        if d.contains(x) {
            assert(distinct_in_order(xs) == d || distinct_in_order(xs) == d.push(xs.last()));
            let k = choose|k: int| 0 <= k < d.len() && d[k] == x;
            if distinct_in_order(xs) == d {
                assert(distinct_in_order(xs)[k] == x);
            } else {
                assert(distinct_in_order(xs)[k] == x);
            }
        } else {
            lemma_count_absent(xs.drop_last(), x);
            if xs.last() == x {
                assert(!d.contains(x));
                assert(distinct_in_order(xs) == d.push(x));
                assert(distinct_in_order(xs)[d.len() as int] == x);
            }
        }
    }
}

proof fn lemma_count_le(xs: Seq<u32>, x: u32)
    ensures
        count_of(xs, x) <= xs.len(),
    decreases xs.len(),
{
    if xs.len() > 0 {
        lemma_count_le(xs.drop_last(), x);
    }
}

impl Scope {
    /// Checks that the configuration is consistent. Reports every problem it
    /// finds instead of stopping at the first, so an interface can list them
    /// all at once.
    pub fn validate(&self) -> (r: Vec<ScopeError>)
        ensures
            r@ == spec_validate(*self),
    {
        let mut errs: Vec<ScopeError> = Vec::new();

        if self.prefix > 32 {
            errs.push(ScopeError::BadPrefix(self.prefix));
            // Everything below depends on the mask.
            proof {
                assert(errs@ =~= spec_validate(*self));
            }
            return errs;
        }

        if self.subnet & !self.netmask() != 0 {
            errs.push(ScopeError::NotANetworkAddress { subnet: self.subnet, prefix: self.prefix });
        }
        let ghost network = errs@;

        let mut i: usize = 0;
        while i < self.pools.len()
            invariant
                0 <= i <= self.pools@.len(),
                errs@ == network + spec_pool_outside_errs(*self, i as int),
            decreases self.pools@.len() - i,
        {
            let p = self.pools[i];
            if !self.contains(p.start) || !self.contains(p.end) {
                errs.push(
                    ScopeError::PoolOutsideSubnet { range: p, subnet: self.subnet, prefix: self.prefix },
                );
            }
            i = i + 1;
            proof {
                assert(errs@ =~= network + spec_pool_outside_errs(*self, i as int));
            }
        }
        let ghost outside = errs@;

        let n = self.pools.len();
        let mut a: usize = 0;
        while a < n
            invariant
                0 <= a <= n,
                n == self.pools@.len(),
                errs@ == outside + spec_overlap_errs(self.pools@, a as int),
            decreases n - a,
        {
            let ghost row_start = errs@;
            let mut b: usize = a + 1;
            while b < n
                invariant
                    a < n,
                    a + 1 <= b <= n,
                    n == self.pools@.len(),
                    row_start == outside + spec_overlap_errs(self.pools@, a as int),
                    errs@ == row_start + spec_overlap_row(self.pools@, a as int, b as int),
                decreases n - b,
            {
                let pa = self.pools[a];
                let pb = self.pools[b];
                if pa.overlaps(&pb) {
                    errs.push(ScopeError::PoolsOverlap { a: pa, b: pb });
                }
                b = b + 1;
                proof {
                    assert(errs@ =~= row_start + spec_overlap_row(self.pools@, a as int, b as int));
                }
            }
            a = a + 1;
            proof {
                assert(errs@ =~= outside + spec_overlap_errs(self.pools@, a as int));
            }
        }
        let ghost overlaps = errs@;

        let mut i: usize = 0;
        while i < self.reservations.len()
            invariant
                0 <= i <= self.reservations@.len(),
                errs@ == overlaps + spec_reservation_outside_errs(*self, i as int),
            decreases self.reservations@.len() - i,
        {
            let ip = self.reservations[i].ip;
            if !self.contains(ip) {
                errs.push(
                    ScopeError::ReservationOutsideSubnet { ip, subnet: self.subnet, prefix: self.prefix },
                );
            }
            i = i + 1;
            proof {
                assert(errs@ =~= overlaps + spec_reservation_outside_errs(*self, i as int));
            }
        }
        let ghost res_outside = errs@;

        // One address reserved for several clients is always a mistake.
        let ghost ips = reservation_ips(*self);
        let mut seen: Vec<(u32, usize)> = Vec::new();
        let mut i: usize = 0;
        while i < self.reservations.len()
            invariant
                0 <= i <= self.reservations@.len(),
                ips == reservation_ips(*self),
                ips.len() == self.reservations@.len(),
                seen@.len() == distinct_in_order(ips.take(i as int)).len(),
                forall|k: int|
                    0 <= k < seen@.len() ==> (#[trigger] seen@[k]).0 == distinct_in_order(
                        ips.take(i as int),
                    )[k] && seen@[k].1 as nat == count_of(ips.take(i as int), seen@[k].0),
            decreases self.reservations@.len() - i,
        {
            let ip = self.reservations[i].ip;
            let ghost pre = ips.take(i as int);
            let ghost post = ips.take(i + 1);
            proof {
                assert(post.drop_last() =~= pre);
                assert(post.last() == ip);
                lemma_distinct_unique(pre);
            }
            let mut k: usize = 0;
            while k < seen.len() && seen[k].0 != ip
                invariant
                    0 <= k <= seen@.len(),
                    forall|j: int| 0 <= j < k ==> (#[trigger] seen@[j]).0 != ip,
                decreases seen@.len() - k,
            {
                k = k + 1;
            }
            if k < seen.len() {
                let (_, c) = seen[k];
                proof {
                    lemma_count_le(pre, ip);
                    assert(distinct_in_order(pre)[k as int] == ip);
                    assert(distinct_in_order(pre).contains(ip));
                    assert(distinct_in_order(post) == distinct_in_order(pre));
                }
                seen.set(k, (ip, c + 1));
                proof {
                    assert forall|j: int| 0 <= j < seen@.len() implies (#[trigger] seen@[j]).0
                        == distinct_in_order(post)[j] && seen@[j].1 as nat == count_of(
                        post,
                        seen@[j].0,
                    ) by {
                        if j != k {
                            assert(distinct_in_order(pre)[j] != distinct_in_order(pre)[k as int]);
                        }
                    }
                }
            } else {
                proof {
                    assert(!distinct_in_order(pre).contains(ip)) by {
                        if distinct_in_order(pre).contains(ip) {
                            let j = choose|j: int|
                                0 <= j < distinct_in_order(pre).len() && distinct_in_order(pre)[j]
                                    == ip;
                            assert(seen@[j].0 != ip);
                        }
                    }
                    lemma_count_absent(pre, ip);
                    assert(distinct_in_order(post) == distinct_in_order(pre).push(ip));
                }
                seen.push((ip, 1));
                proof {
                    assert forall|j: int| 0 <= j < seen@.len() implies (#[trigger] seen@[j]).0
                        == distinct_in_order(post)[j] && seen@[j].1 as nat == count_of(
                        post,
                        seen@[j].0,
                    ) by {
                        if j < seen@.len() - 1 {
                            assert(seen@[j].0 != ip);
                        }
                    }
                }
            }
            i = i + 1;
        }
        proof {
            assert(ips.take(self.reservations@.len() as int) =~= ips);
        }
        let ghost d = distinct_in_order(ips);
        let mut k: usize = 0;
        while k < seen.len()
            invariant
                0 <= k <= seen@.len(),
                seen@.len() == d.len(),
                forall|j: int|
                    0 <= j < seen@.len() ==> (#[trigger] seen@[j]).0 == d[j] && seen@[j].1 as nat
                        == count_of(ips, seen@[j].0),
                errs@ == res_outside + spec_dup_errs(ips, d.take(k as int)),
            decreases seen@.len() - k,
        {
            let (ip, count) = seen[k];
            proof {
                assert(d.take(k + 1).drop_last() =~= d.take(k as int));
                assert(d.take(k + 1).last() == ip);
            }
            if count > 1 {
                errs.push(ScopeError::DuplicateReservation { ip, count });
            }
            k = k + 1;
            proof {
                assert(errs@ =~= res_outside + spec_dup_errs(ips, d.take(k as int)));
            }
        }
        proof {
            assert(d.take(seen@.len() as int) =~= d);
        }
        let ghost dups = errs@;

        if let Some(gw) = self.router {
            if !self.contains(gw) {
                errs.push(
                    ScopeError::GatewayOutsideSubnet { gw, subnet: self.subnet, prefix: self.prefix },
                );
            }
        }
        let ghost gateway = errs@;

        if self.lease_secs == 0 {
            errs.push(ScopeError::ZeroLease);
        } else if self.offer_secs > self.lease_secs {
            errs.push(
                ScopeError::OfferLongerThanLease { offer: self.offer_secs, lease: self.lease_secs },
            );
        }
        let ghost lease = errs@;

        // Reservations need no pool, so a scope is unusable only with an
        // empty pool and no reservation.
        if !self.has_poolable_addr() && self.reservations.len() == 0 {
            errs.push(ScopeError::NoUsableAddresses);
        }
        proof {
            assert(errs@ =~= spec_validate(*self));
        }
        errs
    }
}

/// The text of a range: `192.168.88.10-192.168.88.20`.
pub open spec fn spec_range_text(r: Range) -> Seq<char> {
    spec_ipv4_text(r.start) + seq!['-'] + spec_ipv4_text(r.end)
}

pub fn push_range(out: &mut Vec<char>, r: Range)
    ensures
        final(out)@ == old(out)@ + spec_range_text(r),
{
    let ghost start = out@;
    push_ipv4(out, r.start);
    out.push('-');
    push_ipv4(out, r.end);
    proof {
        assert(out@ =~= start + spec_range_text(r));
    }
}

/// `address/prefix`.
pub open spec fn spec_net_text(subnet: u32, prefix: u8) -> Seq<char> {
    spec_ipv4_text(subnet) + seq!['/'] + spec_dec(prefix as nat)
}

pub fn push_net(out: &mut Vec<char>, subnet: u32, prefix: u8)
    ensures
        final(out)@ == old(out)@ + spec_net_text(subnet, prefix),
{
    let ghost start = out@;
    push_ipv4(out, subnet);
    out.push('/');
    push_dec(out, prefix as u64);
    proof {
        assert(out@ =~= start + spec_net_text(subnet, prefix));
    }
}

/// The text of a scope identity: `scope#3`.
pub open spec fn spec_scope_id_text(id: ScopeId) -> Seq<char> {
    "scope#"@ + spec_dec(id.0 as nat)
}

impl ScopeId {
    /// The text form, `scope#3`.
    pub fn to_text(&self) -> (r: String)
        ensures
            r@ == spec_scope_id_text(*self),
    {
        let mut out: Vec<char> = Vec::new();
        push_str(&mut out, "scope#");
        push_dec(&mut out, self.0 as u64);
        string_from_chars(out.as_slice())
    }
}

/// The message for a configuration problem, as an operator reads it.
pub open spec fn spec_scope_error_text(e: ScopeError) -> Seq<char> {
    match e {
        ScopeError::BadPrefix(p) => "前缀长度 "@ + spec_dec(p as nat) + " 不合法（应为 0-32）"@,
        ScopeError::NotANetworkAddress { subnet, prefix } => spec_ipv4_text(subnet) + " 不是 /"@
            + spec_dec(prefix as nat) + " 的网络地址，主机位不为零"@,
        ScopeError::PoolOutsideSubnet { range, subnet, prefix } => "地址池 "@ + spec_range_text(range)
            + " 超出子网 "@ + spec_net_text(subnet, prefix),
        ScopeError::PoolsOverlap { a, b } => "地址池 "@ + spec_range_text(a) + " 与 "@
            + spec_range_text(b) + " 相交"@,
        ScopeError::ReservationOutsideSubnet { ip, subnet, prefix } => "保留地址 "@ + spec_ipv4_text(
            ip,
        ) + " 超出子网 "@ + spec_net_text(subnet, prefix),
        ScopeError::DuplicateReservation { ip, count } => "保留地址 "@ + spec_ipv4_text(ip) + " 被 "@
            + spec_dec(count as nat) + " 个客户端同时占用"@,
        ScopeError::GatewayOutsideSubnet { gw, subnet, prefix } => "网关 "@ + spec_ipv4_text(gw)
            + " 不在子网 "@ + spec_net_text(subnet, prefix) + " 内"@,
        ScopeError::ZeroLease => "租期必须大于 0"@,
        ScopeError::OfferLongerThanLease { offer, lease } => "OFFER 占位时长 "@ + spec_dec(offer as nat)
            + "s 不应超过租期 "@ + spec_dec(lease as nat) + "s"@,
        ScopeError::NoUsableAddresses => "作用域没有任何可分配地址"@,
    }
}

impl ScopeError {
    /// Appends the message (see [`spec_scope_error_text`]).
    pub fn push_text(&self, out: &mut Vec<char>)
        ensures
            final(out)@ == old(out)@ + spec_scope_error_text(*self),
    {
        let ghost start = out@;
        match *self {
            ScopeError::BadPrefix(p) => {
                push_str(out, "前缀长度 ");
                push_dec(out, p as u64);
                push_str(out, " 不合法（应为 0-32）");
            },
            ScopeError::NotANetworkAddress { subnet, prefix } => {
                push_ipv4(out, subnet);
                push_str(out, " 不是 /");
                push_dec(out, prefix as u64);
                push_str(out, " 的网络地址，主机位不为零");
            },
            ScopeError::PoolOutsideSubnet { range, subnet, prefix } => {
                push_str(out, "地址池 ");
                push_range(out, range);
                push_str(out, " 超出子网 ");
                push_net(out, subnet, prefix);
            },
            ScopeError::PoolsOverlap { a, b } => {
                push_str(out, "地址池 ");
                push_range(out, a);
                push_str(out, " 与 ");
                push_range(out, b);
                push_str(out, " 相交");
            },
            ScopeError::ReservationOutsideSubnet { ip, subnet, prefix } => {
                push_str(out, "保留地址 ");
                push_ipv4(out, ip);
                push_str(out, " 超出子网 ");
                push_net(out, subnet, prefix);
            },
            ScopeError::DuplicateReservation { ip, count } => {
                push_str(out, "保留地址 ");
                push_ipv4(out, ip);
                push_str(out, " 被 ");
                push_dec(out, count as u64);
                push_str(out, " 个客户端同时占用");
            },
            ScopeError::GatewayOutsideSubnet { gw, subnet, prefix } => {
                push_str(out, "网关 ");
                push_ipv4(out, gw);
                push_str(out, " 不在子网 ");
                push_net(out, subnet, prefix);
                push_str(out, " 内");
            },
            ScopeError::ZeroLease => {
                push_str(out, "租期必须大于 0");
            },
            ScopeError::OfferLongerThanLease { offer, lease } => {
                push_str(out, "OFFER 占位时长 ");
                push_dec(out, offer as u64);
                push_str(out, "s 不应超过租期 ");
                push_dec(out, lease as u64);
                push_str(out, "s");
            },
            ScopeError::NoUsableAddresses => {
                push_str(out, "作用域没有任何可分配地址");
            },
        }
        proof {
            assert(out@ =~= start + spec_scope_error_text(*self));
        }
    }

    /// The message (see [`spec_scope_error_text`]).
    pub fn text(&self) -> (r: String)
        ensures
            r@ == spec_scope_error_text(*self),
    {
        let mut out: Vec<char> = Vec::new();
        self.push_text(&mut out);
        string_from_chars(out.as_slice())
    }
}

} // verus!

verus! {

/// The value of a [`Reservation`].
pub struct ReservationValue {
    pub client: ClientKey,
    pub ip: u32,
    pub hostname: Option<Seq<char>>,
}

pub open spec fn reservation_value(r: Reservation) -> ReservationValue {
    ReservationValue { client: r.client@, ip: r.ip, hostname: opt_text(r.hostname) }
}

pub open spec fn reservation_values(v: Seq<Reservation>) -> Seq<ReservationValue> {
    v.map_values(|r: Reservation| reservation_value(r))
}

/// The value of a [`BootConfig`].
pub struct BootValue {
    pub server_name: Option<Seq<char>>,
    pub filename: Option<Seq<char>>,
    pub next_server: Option<u32>,
    pub http_url: Option<Seq<char>>,
    pub ipxe_url: Option<Seq<char>>,
}

pub open spec fn boot_value(b: BootConfig) -> BootValue {
    BootValue {
        server_name: opt_text(b.server_name),
        filename: opt_text(b.filename),
        next_server: b.next_server,
        http_url: opt_text(b.http_url),
        ipxe_url: opt_text(b.ipxe_url),
    }
}

pub open spec fn option_values(v: Seq<(u8, Vec<u8>)>) -> Seq<(u8, Seq<u8>)> {
    v.map_values(|o: (u8, Vec<u8>)| (o.0, o.1@))
}

/// The value of a [`Scope`]: every field, by value.
pub struct ScopeValue {
    pub id: ScopeId,
    pub name: Seq<char>,
    pub enabled: bool,
    pub subnet: u32,
    pub prefix: u8,
    pub pools: Seq<Range>,
    pub exclusions: Seq<Range>,
    pub reservations: Seq<ReservationValue>,
    pub router: Option<u32>,
    pub dns: Seq<u32>,
    pub domain: Option<Seq<char>>,
    pub lease_secs: u32,
    pub offer_secs: u32,
    pub decline_quarantine_secs: u32,
    pub boot: Option<BootValue>,
    pub extra_options: Seq<(u8, Seq<u8>)>,
    pub via_relay: bool,
}

impl View for Scope {
    type V = ScopeValue;

    open spec fn view(&self) -> ScopeValue {
        ScopeValue {
            id: self.id,
            name: self.name@,
            enabled: self.enabled,
            subnet: self.subnet,
            prefix: self.prefix,
            pools: self.pools@,
            exclusions: self.exclusions@,
            reservations: reservation_values(self.reservations@),
            router: self.router,
            dns: self.dns@,
            domain: opt_text(self.domain),
            lease_secs: self.lease_secs,
            offer_secs: self.offer_secs,
            decline_quarantine_secs: self.decline_quarantine_secs,
            boot: match self.boot {
                Some(b) => Some(boot_value(b)),
                None => None,
            },
            extra_options: option_values(self.extra_options@),
            via_relay: self.via_relay,
        }
    }
}

pub open spec fn scope_values(v: Seq<Scope>) -> Seq<ScopeValue> {
    v.map_values(|s: Scope| s@)
}

/// A copy of a list of reservations.
pub fn copy_reservations(v: &Vec<Reservation>) -> (r: Vec<Reservation>)
    ensures
        reservation_values(r@) == reservation_values(v@),
{
    let mut out: Vec<Reservation> = Vec::new();
    let mut k: usize = 0;
    while k < v.len()
        invariant
            0 <= k <= v@.len(),
            reservation_values(out@) == reservation_values(v@.take(k as int)),
        decreases v@.len() - k,
    {
        let ghost prev = out@;
        let c = v[k].clone();
        proof {
            assert(reservation_value(c) == reservation_value(v@[k as int]));
        }
        out.push(c);
        proof {
            assert(v@.take(k + 1) =~= v@.take(k as int).push(v@[k as int]));
            assert(out@ =~= prev.push(c));
            assert(reservation_values(prev.push(c)) =~= reservation_values(prev).push(reservation_value(c)));
            assert(reservation_values(v@.take(k as int).push(v@[k as int])) =~= reservation_values(v@.take(k as int)).push(reservation_value(v@[k as int])));
            assert(reservation_values(out@) =~= reservation_values(v@.take(k + 1)));
        }
        k = k + 1;
    }
    proof {
        assert(v@.take(v@.len() as int) =~= v@);
    }
    out
}

fn copy_ranges(v: &Vec<Range>) -> (r: Vec<Range>)
    ensures
        r@ == v@,
{
    let mut out: Vec<Range> = Vec::new();
    let mut k: usize = 0;
    while k < v.len()
        invariant
            0 <= k <= v@.len(),
            out@ == v@.take(k as int),
        decreases v@.len() - k,
    {
        out.push(v[k]);
        k = k + 1;
        proof {
            assert(out@ =~= v@.take(k as int));
        }
    }
    proof {
        assert(v@.take(v@.len() as int) =~= v@);
    }
    out
}

fn copy_u32s(v: &Vec<u32>) -> (r: Vec<u32>)
    ensures
        r@ == v@,
{
    let mut out: Vec<u32> = Vec::new();
    let mut k: usize = 0;
    while k < v.len()
        invariant
            0 <= k <= v@.len(),
            out@ == v@.take(k as int),
        decreases v@.len() - k,
    {
        out.push(v[k]);
        k = k + 1;
        proof {
            assert(out@ =~= v@.take(k as int));
        }
    }
    proof {
        assert(v@.take(v@.len() as int) =~= v@);
    }
    out
}

fn copy_options(v: &Vec<(u8, Vec<u8>)>) -> (r: Vec<(u8, Vec<u8>)>)
    ensures
        option_values(r@) == option_values(v@),
{
    let mut out: Vec<(u8, Vec<u8>)> = Vec::new();
    let mut k: usize = 0;
    while k < v.len()
        invariant
            0 <= k <= v@.len(),
            option_values(out@) == option_values(v@.take(k as int)),
        decreases v@.len() - k,
    {
        let ghost prev = out@;
        let code = v[k].0;
        let bytes = crate::addr::copy_bytes(v[k].1.as_slice());
        proof {
            assert(bytes@ == v@[k as int].1@);
        }
        out.push((code, bytes));
        proof {
            assert(v@.take(k + 1) =~= v@.take(k as int).push(v@[k as int]));
            assert(out@ =~= prev.push((code, bytes)));
            assert(option_values(prev.push((code, bytes))) =~= option_values(prev).push((code, bytes@)));
            assert(option_values(v@.take(k as int).push(v@[k as int])) =~= option_values(v@.take(k as int)).push((v@[k as int].0, v@[k as int].1@)));
            assert(option_values(out@) =~= option_values(v@.take(k + 1)));
        }
        k = k + 1;
    }
    proof {
        assert(v@.take(v@.len() as int) =~= v@);
    }
    out
}

impl Clone for Scope {
    fn clone(&self) -> (r: Self)
        ensures
            r@ == self@,
    {
        let boot = match &self.boot {
            Some(b) => Some(b.clone()),
            None => None,
        };
        let r = Scope {
            id: self.id,
            name: self.name.clone(),
            enabled: self.enabled,
            subnet: self.subnet,
            prefix: self.prefix,
            pools: copy_ranges(&self.pools),
            exclusions: copy_ranges(&self.exclusions),
            reservations: copy_reservations(&self.reservations),
            router: self.router,
            dns: copy_u32s(&self.dns),
            domain: clone_opt_string(&self.domain),
            lease_secs: self.lease_secs,
            offer_secs: self.offer_secs,
            decline_quarantine_secs: self.decline_quarantine_secs,
            boot,
            extra_options: copy_options(&self.extra_options),
            via_relay: self.via_relay,
        };
        proof {
            assert(r@ =~= self@);
        }
        r
    }
}

} // verus!
