//! The decision layer: given a DHCP request, decide what to answer.
//!
//! This implements RFC 2131 §4.3. The functions are pure apart from the
//! lease store they update: request, leases and time in, a reply (or the
//! reason for silence) out. No sockets, no clock, no logging, so every rule
//! can be checked on its own.

use vstd::prelude::*;

use crate::addr::{ClientId, ClientKey, MacAddr, spec_client_from_parts, spec_mac_array};
use crate::lease::{pxe_client_prefix, starts_with, str_starts_with, Lease, LeaseState, LeaseView};
use crate::addr::copy_bytes;
use crate::text::{text_from_bytes_lossy, utf8_lossy};
use crate::message::{
    base_reply, spec_base_reply, DhcpOpt, MessageType, Opcode, OptView, ReplyMsg, ReplyView,
    Request, RequestView, OPT_BOOTFILE, OPT_CLASS_ID, OPT_MESSAGE,
    OPT_DNS, OPT_DOMAIN_NAME, OPT_LEASE_TIME, OPT_REBINDING, OPT_RENEWAL, OPT_ROUTER,
    OPT_SUBNET_MASK, OPT_TFTP_SERVER,
};
use crate::scope::{spec_file_for, BootClient, BootConfig, Scope, ScopeId};
use crate::store::{
    allocate_and_claim, at_ip, law_allocation_skips_unusable, law_insert_then_lookup,
    law_remove_then_lookup, leases_wf, spec_allocate_claim, spec_client_lease, spec_insert,
    spec_lease_at, spec_usable_by, AllocSource, LeaseKey, LeaseMap, LeaseStore,
};

verus! {

/// Where a reply goes, by the priorities of RFC 2131 §4.1.
#[derive(Clone, Copy, PartialEq, Eq, Debug, Structural)]
pub enum ReplyDest {
    /// It came through a relay: unicast to the relay's port 67.
    Relay(u32),
    /// The client already has a working address (a renewal): unicast to its
    /// port 68.
    Unicast(u32),
    /// The client has no address yet and set the broadcast flag.
    Broadcast,
    /// The client has no address yet and did not set the broadcast flag.
    /// Strictly, RFC 2131 wants a unicast to `yiaddr`, which needs a manual
    /// ARP entry; a caller that cannot do that may broadcast instead.
    UnicastYiaddr(u32),
}

/// Why no reply was sent. When a machine is plugged in and nothing happens,
/// this is the first clue.
#[derive(Clone, Copy, PartialEq, Eq, Debug, Structural)]
pub enum DropReason {
    /// The opcode is not BOOTREQUEST: perhaps another server's reply.
    NotBootRequest,
    /// No option 53: not a valid DHCP message.
    NoMessageType,
    /// A message type the server does not handle (OFFER, ACK, NAK, ...).
    UnsupportedType,
    /// `chaddr` is all zeros and there is no option 61: the client cannot
    /// be identified.
    UnidentifiableClient,
    /// No scope matches the receiving network (or the relay address).
    NoMatchingScope,
    /// The matching scope is disabled.
    ScopeDisabled,
    /// The pool is exhausted. RFC 2131 says to stay silent so that the
    /// client asks another server.
    PoolExhausted,
    /// The client chose another server's offer.
    ChoseAnotherServer,
    /// A DECLINE without option 50: it is not known what to quarantine.
    DeclineWithoutAddress,
    /// A RELEASE without `ciaddr`.
    ReleaseWithoutAddress,
    /// A RELEASE of an address the client does not hold: possibly forged.
    ReleaseNotOwned,
}

/// The context of a received packet. Time and the address of the
/// receiving interface are passed in by the caller.
#[derive(Clone, Copy, PartialEq, Eq, Debug, Structural)]
pub struct RecvCtx {
    pub now: u64,
    /// The local address on the interface that received the packet. It
    /// selects the scope when there is no relay, and is sent as option 54
    /// (server identifier).
    pub server_ip: u32,
}

/// The scopes the server serves.
#[derive(Debug)]
pub struct ServerConfig {
    pub scopes: Vec<Scope>,
}

/// The address that locates the client's network: `giaddr` for a relayed
/// packet; else `ciaddr`, the address the client already holds (a renewal
/// is unicast straight to the server, without a relay, so without this a
/// relayed network's renewal would land in the listener's own network and
/// be NAKed); else the receiving interface's address.
pub open spec fn spec_scope_key(req: RequestView, ctx: RecvCtx) -> u32 {
    if req.giaddr != 0 {
        req.giaddr
    } else if req.ciaddr != 0 {
        req.ciaddr
    } else {
        ctx.server_ip
    }
}

pub open spec fn serves(s: Scope, key: u32) -> bool {
    s.spec_contains(key) && s.enabled
}

/// The scope for `key`: the first enabled scope that contains it; if some
/// scope contains it but none of those is enabled, `ScopeDisabled`; if none
/// contains it, `NoMatchingScope`.
pub open spec fn spec_select(scopes: Seq<Scope>, key: u32) -> Result<int, DropReason> {
    if exists|i: int| 0 <= i < scopes.len() && #[trigger] serves(scopes[i], key) {
        Ok(
            choose|i: int|
                0 <= i < scopes.len() && serves(scopes[i], key) && forall|j: int|
                    0 <= j < i ==> !#[trigger] serves(scopes[j], key),
        )
    } else if exists|i: int| 0 <= i < scopes.len() && #[trigger] scopes[i].spec_contains(key) {
        Err(DropReason::ScopeDisabled)
    } else {
        Err(DropReason::NoMatchingScope)
    }
}

/// The first scope that serves `key` is the one selected.
proof fn lemma_select_first(scopes: Seq<Scope>, key: u32, i: int)
    requires
        0 <= i < scopes.len(),
        serves(scopes[i], key),
        forall|j: int| 0 <= j < i ==> !#[trigger] serves(scopes[j], key),
    ensures
        spec_select(scopes, key) == Ok::<int, DropReason>(i),
{
    let c = choose|c: int|
        0 <= c < scopes.len() && serves(scopes[c], key) && forall|j: int|
            0 <= j < c ==> !#[trigger] serves(scopes[j], key);
    if c < i {
        assert(!serves(scopes[c], key));
    }
    if i < c {
        assert(!serves(scopes[i], key));
    }
}

impl ServerConfig {
    pub fn new(scopes: Vec<Scope>) -> (r: ServerConfig)
        ensures
            r.scopes@ == scopes@,
    {
        ServerConfig { scopes }
    }

    /// The scope with identity `id`.
    pub fn scope(&self, id: ScopeId) -> (r: Option<&Scope>)
        ensures
            match r {
                Some(s) => exists|i: int|
                    0 <= i < self.scopes@.len() && *s == self.scopes@[i] && s.id == id && forall|
                        j: int,
                    |
                        0 <= j < i ==> (#[trigger] self.scopes@[j]).id != id,
                None => forall|i: int| 0 <= i < self.scopes@.len() ==> (#[trigger] self.scopes@[i]).id != id,
            },
    {
        let mut i: usize = 0;
        while i < self.scopes.len()
            invariant
                0 <= i <= self.scopes@.len(),
                forall|j: int| 0 <= j < i ==> (#[trigger] self.scopes@[j]).id != id,
            decreases self.scopes@.len() - i,
        {
            if self.scopes[i].id == id {
                return Some(&self.scopes[i]);
            }
            i = i + 1;
        }
        None
    }

    /// Selects the scope a request belongs to (see [`spec_scope_key`] and
    /// [`spec_select`]).
    pub fn select_scope(&self, req: &Request, ctx: &RecvCtx) -> (r: Result<&Scope, DropReason>)
        ensures
            match r {
                Ok(s) => spec_select(self.scopes@, spec_scope_key(req@, *ctx)) matches Ok(i)
                    && *s == self.scopes@[i],
                Err(e) => spec_select(self.scopes@, spec_scope_key(req@, *ctx)) == Err::<
                    int,
                    DropReason,
                >(e),
            },
    {
        let key = if req.giaddr != 0 {
            req.giaddr
        } else if req.ciaddr != 0 {
            req.ciaddr
        } else {
            ctx.server_ip
        };
        let ghost scopes = self.scopes@;
        let mut i: usize = 0;
        while i < self.scopes.len()
            invariant
                0 <= i <= scopes.len(),
                scopes == self.scopes@,
                key == spec_scope_key(req@, *ctx),
                forall|j: int| 0 <= j < i ==> !#[trigger] serves(scopes[j], key),
            decreases scopes.len() - i,
        {
            if self.scopes[i].contains(key) && self.scopes[i].enabled {
                proof {
                    lemma_select_first(scopes, key, i as int);
                }
                return Ok(&self.scopes[i]);
            }
            i = i + 1;
        }
        let mut k: usize = 0;
        while k < self.scopes.len()
            invariant
                0 <= k <= scopes.len(),
                scopes == self.scopes@,
                key == spec_scope_key(req@, *ctx),
                forall|j: int| 0 <= j < scopes.len() ==> !#[trigger] serves(scopes[j], key),
                forall|j: int| 0 <= j < k ==> !#[trigger] scopes[j].spec_contains(key),
            decreases scopes.len() - k,
        {
            if self.scopes[k].contains(key) {
                assert(scopes[k as int].spec_contains(key));
                return Err(DropReason::ScopeDisabled);
            }
            k = k + 1;
        }
        Err(DropReason::NoMatchingScope)
    }
}

/// The hardware address in `chaddr`: its first six bytes, or all zeros when
/// there are fewer.
pub open spec fn spec_mac_bytes(chaddr: Seq<u8>) -> Seq<u8> {
    if chaddr.len() >= 6 {
        chaddr.take(6)
    } else {
        seq![0u8, 0u8, 0u8, 0u8, 0u8, 0u8]
    }
}

/// Option 61 when present and non-empty.
pub open spec fn spec_opt61(req: RequestView) -> Option<Seq<u8>> {
    match req.client_ident {
        Some(raw) => if raw.len() > 0 {
            Some(raw)
        } else {
            None
        },
        None => None,
    }
}

/// The client's identity: option 61 if present, else `chaddr` (RFC 2131
/// §4.2); none when there is neither option 61 nor a non-zero MAC, as such
/// a client's leases could not be found again.
pub open spec fn spec_client_of(req: RequestView) -> Option<ClientKey> {
    let mac = spec_mac_bytes(req.chaddr);
    if spec_opt61(req) is None && forall|i: int| 0 <= i < 6 ==> mac[i] == 0u8 {
        None
    } else {
        Some(spec_client_from_parts(spec_opt61(req), MacAddr(spec_mac_array(mac))))
    }
}

/// The client's identity: see [`spec_client_of`].
pub fn client_id_of(req: &Request) -> (r: Option<ClientId>)
    ensures
        match r {
            Some(c) => spec_client_of(req@) == Some(c@),
            None => spec_client_of(req@) is None,
        },
{
    let opt61: Option<&[u8]> = match &req.client_ident {
        Some(raw) => if raw.len() > 0 {
            Some(raw.as_slice())
        } else {
            None
        },
        None => None,
    };
    let mac = match MacAddr::from_slice(req.chaddr.as_slice()) {
        Some(m) => m,
        None => MacAddr::zero(),
    };
    proof {
        let b = spec_mac_bytes(req@.chaddr);
        assert(mac.0@ =~= b);
        assert(mac.0 == spec_mac_array(b));
    }
    if opt61.is_none() && mac.is_zero() {
        return None;
    }
    Some(ClientId::from_parts(opt61, mac))
}

/// Option 12 when present and non-empty.
pub open spec fn spec_hostname(req: RequestView) -> Option<Seq<char>> {
    match req.hostname {
        Some(h) => if h.len() > 0 {
            Some(h)
        } else {
            None
        },
        None => None,
    }
}

pub fn hostname_of(req: &Request) -> (r: Option<String>)
    ensures
        crate::lease::opt_text(r) == spec_hostname(req@),
{
    match &req.hostname {
        Some(h) => if h.as_str().is_empty() {
            None
        } else {
            Some(h.clone())
        },
        None => None,
    }
}

/// Option 60 as text, when present and non-empty. PXE clients send
/// `PXEClient:Arch:00007:...`, which tells firmware from the OS stage and
/// the kind of device.
pub open spec fn spec_vendor_class(req: RequestView) -> Option<Seq<char>> {
    match req.class_id {
        Some(raw) => if raw.len() > 0 {
            Some(utf8_lossy(raw))
        } else {
            None
        },
        None => None,
    }
}

pub fn vendor_class_of(req: &Request) -> (r: Option<String>)
    ensures
        crate::lease::opt_text(r) == spec_vendor_class(req@),
{
    match &req.class_id {
        Some(raw) => if raw.len() > 0 {
            Some(text_from_bytes_lossy(raw.as_slice()))
        } else {
            None
        },
        None => None,
    }
}

/// An ASCII byte folded to lower case.
pub open spec fn ascii_lower(b: u8) -> int {
    if 65 <= b <= 90 {
        b + 32
    } else {
        b as int
    }
}

/// Equal up to ASCII case.
pub open spec fn eq_ignore_ascii_case(a: Seq<u8>, b: Seq<u8>) -> bool {
    a.len() == b.len() && forall|i: int| 0 <= i < a.len() ==> ascii_lower(#[trigger] a[i]) == ascii_lower(b[i])
}

pub open spec fn ipxe_bytes() -> Seq<u8> {
    seq![105u8, 80u8, 88u8, 69u8]
}

/// Whether the length-prefixed strings of `raw` from position `i` on hold
/// `iPXE`; the scan stops at a zero length or a string that overruns the
/// end, as that is not the length-prefixed format.
pub open spec fn ipxe_in_list(raw: Seq<u8>, i: int) -> bool
    decreases raw.len() - i,
{
    if i < 0 || i >= raw.len() {
        false
    } else {
        let n = raw[i] as int;
        if n == 0 || i + 1 + n > raw.len() {
            false
        } else if eq_ignore_ascii_case(raw.subrange(i + 1, i + 1 + n), ipxe_bytes()) {
            true
        } else {
            ipxe_in_list(raw, i + 1 + n)
        }
    }
}

/// Whether option 77 (user class) names iPXE. RFC 3004 makes it a list of
/// length-prefixed strings, but **iPXE sends the bare string**; both are
/// seen in practice (some relays and proxies re-wrap it), so both count.
pub open spec fn spec_user_class_has_ipxe(raw: Seq<u8>) -> bool {
    eq_ignore_ascii_case(raw, ipxe_bytes()) || ipxe_in_list(raw, 0)
}

fn lower(b: u8) -> (r: u8)
    ensures
        r == ascii_lower(b),
{
    if 65 <= b && b <= 90 {
        b + 32
    } else {
        b
    }
}

/// Whether `raw[start..start + n]` is `iPXE` up to ASCII case.
fn is_ipxe_at(raw: &[u8], start: usize, n: usize) -> (r: bool)
    requires
        start + n <= raw@.len(),
    ensures
        r == eq_ignore_ascii_case(raw@.subrange(start as int, start + n), ipxe_bytes()),
{
    if n != 4 {
        return false;
    }
    let r = lower(raw[start]) == 105 && lower(raw[start + 1]) == 112 && lower(raw[start + 2]) == 120
        && lower(raw[start + 3]) == 101;
    proof {
        let s = raw@.subrange(start as int, start + n);
        let p = ipxe_bytes();
        assert(p[0] == 105u8 && p[1] == 80u8 && p[2] == 88u8 && p[3] == 69u8);
        assert(ascii_lower(p[0]) == 105 && ascii_lower(p[1]) == 112 && ascii_lower(p[2]) == 120
            && ascii_lower(p[3]) == 101);
        if r {
            assert forall|i: int| 0 <= i < s.len() implies ascii_lower(#[trigger] s[i])
                == ascii_lower(p[i]) by {
                assert(s[i] == raw@[start + i]);
            }
        } else {
            if ascii_lower(raw@[start as int]) != 105 {
                assert(ascii_lower(s[0]) != ascii_lower(p[0]));
            } else if ascii_lower(raw@[start + 1]) != 112 {
                assert(ascii_lower(s[1]) != ascii_lower(p[1]));
            } else if ascii_lower(raw@[start + 2]) != 120 {
                assert(ascii_lower(s[2]) != ascii_lower(p[2]));
            } else {
                assert(ascii_lower(s[3]) != ascii_lower(p[3]));
            }
        }
    }
    r
}

/// Whether option 77 names iPXE: see [`spec_user_class_has_ipxe`].
pub fn user_class_has_ipxe(raw: &[u8]) -> (r: bool)
    ensures
        r == spec_user_class_has_ipxe(raw@),
{
    proof {
        assert(raw@.subrange(0, raw@.len() as int) =~= raw@);
    }
    if is_ipxe_at(raw, 0, raw.len()) {
        return true;
    }
    let mut i: usize = 0;
    while i < raw.len()
        invariant
            0 <= i <= raw@.len(),
            spec_user_class_has_ipxe(raw@) == ipxe_in_list(raw@, i as int),
        decreases raw@.len() - i,
    {
        let n = raw[i] as usize;
        if n == 0 || n > raw.len() - i - 1 {
            return false;
        }
        if is_ipxe_at(raw, i + 1, n) {
            return true;
        }
        i = i + 1 + n;
    }
    false
}

/// The characters `HTTPClient`.
pub open spec fn http_client_prefix() -> Seq<char> {
    seq!['H', 'T', 'T', 'P', 'C', 'l', 'i', 'e', 'n', 't']
}

/// How the client says it boots. The order of the checks matters: see
/// [`BootClient::Ipxe`].
pub open spec fn spec_boot_client_of(req: RequestView) -> BootClient {
    if req.user_class matches Some(raw) && spec_user_class_has_ipxe(raw) {
        BootClient::Ipxe
    } else {
        match spec_vendor_class(req) {
            Some(v) => if starts_with(v, pxe_client_prefix()) {
                BootClient::Pxe
            } else if starts_with(v, http_client_prefix()) {
                // The UEFI specification has HTTP Boot clients announce
                // `HTTPClient`, followed by `:Arch:xxxxx:UNDI:yyyzzz` too.
                BootClient::HttpBoot
            } else {
                BootClient::Plain
            },
            None => BootClient::Plain,
        }
    }
}

/// How the client says it boots: see [`spec_boot_client_of`].
pub fn boot_client_of(req: &Request) -> (r: BootClient)
    ensures
        r == spec_boot_client_of(req@),
{
    if let Some(raw) = &req.user_class {
        if user_class_has_ipxe(raw.as_slice()) {
            return BootClient::Ipxe;
        }
    }
    match vendor_class_of(req) {
        Some(v) => {
            proof {
                reveal_strlit("PXEClient");
                reveal_strlit("HTTPClient");
                assert("PXEClient"@ =~= pxe_client_prefix());
                assert("HTTPClient"@ =~= http_client_prefix());
            }
            if str_starts_with(v.as_str(), "PXEClient") {
                BootClient::Pxe
            } else if str_starts_with(v.as_str(), "HTTPClient") {
                BootClient::HttpBoot
            } else {
                BootClient::Plain
            }
        },
        None => BootClient::Plain,
    }
}

/// The lease time the client asked for, capped by the scope's.
pub open spec fn spec_requested_lease_secs(req: RequestView, scope: Scope) -> u32 {
    match req.lease_time {
        Some(secs) => if secs < scope.lease_secs {
            secs
        } else {
            scope.lease_secs
        },
        None => scope.lease_secs,
    }
}

pub fn requested_lease_secs(req: &Request, scope: &Scope) -> (r: u32)
    ensures
        r == spec_requested_lease_secs(req@, *scope),
{
    match req.lease_time {
        Some(secs) => if secs < scope.lease_secs {
            secs
        } else {
            scope.lease_secs
        },
        None => scope.lease_secs,
    }
}

/// Where a reply offering `yiaddr` goes (RFC 2131 §4.1).
pub open spec fn spec_dest_for(req: RequestView, yiaddr: u32) -> ReplyDest {
    if req.giaddr != 0 {
        ReplyDest::Relay(req.giaddr)
    } else if req.ciaddr != 0 {
        ReplyDest::Unicast(req.ciaddr)
    } else if crate::message::spec_broadcast_flag(req.flags) {
        ReplyDest::Broadcast
    } else {
        ReplyDest::UnicastYiaddr(yiaddr)
    }
}

pub fn dest_for(req: &Request, yiaddr: u32) -> (r: ReplyDest)
    ensures
        r == spec_dest_for(req@, yiaddr),
{
    if req.giaddr != 0 {
        ReplyDest::Relay(req.giaddr)
    } else if req.ciaddr != 0 {
        ReplyDest::Unicast(req.ciaddr)
    } else if crate::message::broadcast_flag(req.flags) {
        ReplyDest::Broadcast
    } else {
        ReplyDest::UnicastYiaddr(yiaddr)
    }
}

/// The capacity of the BOOTP `file` field. A longer name can only go in
/// option 67.
pub const BOOTP_FILE_LEN: usize = 128;

/// The bytes `HTTPClient`.
pub open spec fn http_client_bytes() -> Seq<u8> {
    seq![72u8, 84u8, 84u8, 80u8, 67u8, 108u8, 105u8, 101u8, 110u8, 116u8]
}

/// The bytes `PXEClient`.
pub open spec fn pxe_client_bytes() -> Seq<u8> {
    seq![80u8, 88u8, 69u8, 67u8, 108u8, 105u8, 101u8, 110u8, 116u8]
}

/// The UTF-8 bytes of a text.
pub open spec fn utf8(s: Seq<char>) -> Seq<u8> {
    vstd::utf8::encode_utf8(s)
}

/// The boot options for a client of kind `client`, given whether the scope
/// carries PXE vendor options (option 43).
///
/// * The boot file goes in option 67 and, when it fits in 128 bytes, in the
///   BOOTP `file` field too: some firmware reads only that field. HTTP Boot
///   and iPXE URLs are often longer; the firmware that reads the field is
///   old TFTP firmware with short names, so a long name goes in option 67
///   alone.
/// * UEFI HTTP Boot wants option 60 = `HTTPClient` in the reply, or it does
///   not fetch the URL; it is sent only with a URL for it.
/// * Option 60 = `PXEClient` claims a PXE boot service, and firmware then
///   looks for the boot server list in option 43. Claimed without option
///   43, firmware takes the address and never fetches the boot file, so it
///   is sent only when the scope has option 43.
pub open spec fn spec_apply_boot(
    m: ReplyView,
    b: BootConfig,
    client: BootClient,
    pxe_vendor: bool,
) -> ReplyView {
    let file = spec_file_for(b, client);
    let m1 = match file {
        Some(f) => ReplyView {
            opts: m.opts.insert(OPT_BOOTFILE, OptView::BootfileName(utf8(f))),
            fname: if utf8(f).len() <= BOOTP_FILE_LEN {
                Some(utf8(f))
            } else {
                m.fname
            },
            ..m
        },
        None => m,
    };
    let m2 = match b.server_name {
        Some(sn) => ReplyView {
            opts: m1.opts.insert(OPT_TFTP_SERVER, OptView::TftpServerName(utf8(sn@))),
            ..m1
        },
        None => m1,
    };
    let m3 = match b.next_server {
        Some(ns) => ReplyView { siaddr: ns, ..m2 },
        None => m2,
    };
    let m4 = if client == BootClient::HttpBoot && file is Some {
        ReplyView {
            opts: m3.opts.insert(OPT_CLASS_ID, OptView::ClassIdentifier(http_client_bytes())),
            ..m3
        }
    } else {
        m3
    };
    if client == BootClient::Pxe && pxe_vendor {
        ReplyView {
            opts: m4.opts.insert(OPT_CLASS_ID, OptView::ClassIdentifier(pxe_client_bytes())),
            ..m4
        }
    } else {
        m4
    }
}

/// The scope's raw options set over `o`, in order.
pub open spec fn spec_put_raw(o: Map<u8, OptView>, extra: Seq<(u8, Vec<u8>)>) -> Map<u8, OptView>
    decreases extra.len(),
{
    if extra.len() == 0 {
        o
    } else {
        spec_put_raw(o, extra.drop_last()).insert(
            extra.last().0,
            OptView::Raw(extra.last().0, extra.last().1@),
        )
    }
}

/// The options a scope sets before its boot options: lease time, T1 (half
/// of it) and T2 (seven eighths; sent explicitly, as clients would otherwise
/// derive them themselves), netmask, router, DNS servers and domain.
pub open spec fn base_opts(m: ReplyView, scope: Scope, lease_secs: u32) -> Map<u8, OptView> {
    let o1 = m.opts.insert(OPT_LEASE_TIME, OptView::AddressLeaseTime(lease_secs)).insert(
        OPT_RENEWAL,
        OptView::Renewal((lease_secs / 2) as u32),
    ).insert(OPT_REBINDING, OptView::Rebinding((lease_secs / 8 * 7) as u32)).insert(
        OPT_SUBNET_MASK,
        OptView::SubnetMask(scope.spec_netmask()),
    );
    let o2 = match scope.router {
        Some(gw) => o1.insert(OPT_ROUTER, OptView::Router(seq![gw])),
        None => o1,
    };
    let o3 = if scope.dns@.len() > 0 {
        o2.insert(OPT_DNS, OptView::DomainNameServer(scope.dns@))
    } else {
        o2
    };
    match scope.domain {
        Some(d) => o3.insert(OPT_DOMAIN_NAME, OptView::DomainName(d@)),
        None => o3,
    }
}

/// The reply with the scope's base options and then its boot options set.
pub open spec fn with_boot(m: ReplyView, req: RequestView, scope: Scope, lease_secs: u32) -> ReplyView {
    let m1 = ReplyView { opts: base_opts(m, scope, lease_secs), ..m };
    match scope.boot {
        Some(b) => spec_apply_boot(m1, b, spec_boot_client_of(req), scope.spec_has_pxe_vendor_options()),
        None => m1,
    }
}

/// The network parameters of `scope` set on a reply: the base options,
/// the boot options, and last the scope's raw options, which override the
/// rest.
#[verifier::opaque]
pub open spec fn spec_apply_scope_options(
    m: ReplyView,
    req: RequestView,
    scope: Scope,
    lease_secs: u32,
) -> ReplyView {
    let w = with_boot(m, req, scope, lease_secs);
    ReplyView { opts: spec_put_raw(w.opts, scope.extra_options@), ..w }
}

fn http_client_vec() -> (r: Vec<u8>)
    ensures
        r@ == http_client_bytes(),
{
    let r = vec![72u8, 84u8, 84u8, 80u8, 67u8, 108u8, 105u8, 101u8, 110u8, 116u8];
    proof {
        assert(r@ =~= http_client_bytes());
    }
    r
}

fn pxe_client_vec() -> (r: Vec<u8>)
    ensures
        r@ == pxe_client_bytes(),
{
    let r = vec![80u8, 88u8, 69u8, 67u8, 108u8, 105u8, 101u8, 110u8, 116u8];
    proof {
        assert(r@ =~= pxe_client_bytes());
    }
    r
}

/// The boot options: see [`spec_apply_boot`].
fn apply_boot(msg: &mut ReplyMsg, b: &BootConfig, client: BootClient, pxe_vendor: bool)
    ensures
        final(msg)@ == spec_apply_boot(old(msg)@, *b, client, pxe_vendor),
{
    let file = b.file_for(client);
    if let Some(f) = file {
        let bytes = f.as_bytes();
        msg.put(DhcpOpt::BootfileName(copy_bytes(bytes)));
        if bytes.len() <= BOOTP_FILE_LEN {
            msg.fname = Some(copy_bytes(bytes));
        }
    }
    if let Some(sn) = &b.server_name {
        msg.put(DhcpOpt::TftpServerName(copy_bytes(sn.as_str().as_bytes())));
    }
    if let Some(ns) = b.next_server {
        msg.siaddr = ns;
    }
    if client == BootClient::HttpBoot && file.is_some() {
        msg.put(DhcpOpt::ClassIdentifier(http_client_vec()));
    }
    if client == BootClient::Pxe && pxe_vendor {
        msg.put(DhcpOpt::ClassIdentifier(pxe_client_vec()));
    }
}

/// Sets the network parameters of `scope` on a reply: see
/// [`spec_apply_scope_options`].
pub fn apply_scope_options(msg: &mut ReplyMsg, req: &Request, scope: &Scope, lease_secs: u32)
    ensures
        final(msg)@ == spec_apply_scope_options(old(msg)@, req@, *scope, lease_secs),
{
    reveal(spec_apply_scope_options);
    msg.put(DhcpOpt::AddressLeaseTime(lease_secs));
    msg.put(DhcpOpt::Renewal(lease_secs / 2));
    msg.put(DhcpOpt::Rebinding(lease_secs / 8 * 7));
    msg.put(DhcpOpt::SubnetMask(scope.netmask()));
    if let Some(gw) = scope.router {
        let routers = vec![gw];
        proof {
            assert(routers@ =~= seq![gw]);
        }
        msg.put(DhcpOpt::Router(routers));
    }
    if scope.dns.len() > 0 {
        msg.put(DhcpOpt::DomainNameServer(crate::message::copy_addrs(scope.dns.as_slice())));
    }
    if let Some(d) = &scope.domain {
        msg.put(DhcpOpt::DomainName(d.clone()));
    }
    if let Some(b) = &scope.boot {
        let client = boot_client_of(req);
        let pxe_vendor = scope.has_pxe_vendor_options();
        apply_boot(msg, b, client, pxe_vendor);
    }
    let ghost base = msg@;
    let mut i: usize = 0;
    while i < scope.extra_options.len()
        invariant
            0 <= i <= scope.extra_options@.len(),
            msg@ == (ReplyView {
                opts: spec_put_raw(base.opts, scope.extra_options@.take(i as int)),
                ..base
            }),
        decreases scope.extra_options@.len() - i,
    {
        let code = scope.extra_options[i].0;
        let value = copy_bytes(scope.extra_options[i].1.as_slice());
        msg.put(DhcpOpt::Raw(code, value));
        proof {
            assert(scope.extra_options@.take(i + 1).drop_last() =~= scope.extra_options@.take(
                i as int,
            ));
        }
        i = i + 1;
    }
    proof {
        assert(scope.extra_options@.take(scope.extra_options@.len() as int)
            =~= scope.extra_options@);
    }
}

/// What the server did with a message it answers with silence.
#[derive(Clone, Copy, PartialEq, Eq, Debug, Structural)]
pub enum Handled {
    /// A DECLINE: the address is quarantined.
    AddressDeclined,
    /// A RELEASE: the lease is gone.
    LeaseReleased,
}

/// What was done with a message that needs no reply.
pub open spec fn spec_handled_text(h: Handled) -> Seq<char> {
    match h {
        Handled::AddressDeclined => "地址被客户端 DECLINE，已隔离"@,
        Handled::LeaseReleased => "租约已释放"@,
    }
}

impl Handled {
    /// A line for logs and the interface.
    pub fn text(&self) -> (r: &'static str)
        ensures
            r@ == spec_handled_text(*self),
    {
        match self {
            Handled::AddressDeclined => "地址被客户端 DECLINE，已隔离",
            Handled::LeaseReleased => "租约已释放",
        }
    }
}

/// A reply to send.
#[derive(Debug)]
pub struct Reply {
    pub msg: ReplyMsg,
    pub dest: ReplyDest,
    /// The scope that produced it, for logs and statistics.
    pub scope_id: ScopeId,
    /// How the address was chosen; `None` for NAK and INFORM, which
    /// allocate nothing.
    pub alloc_source: Option<AllocSource>,
}

/// The mathematical value of a [`Reply`].
pub struct ReplyOut {
    pub msg: ReplyView,
    pub dest: ReplyDest,
    pub scope_id: ScopeId,
    pub alloc_source: Option<AllocSource>,
}

impl View for Reply {
    type V = ReplyOut;

    open spec fn view(&self) -> ReplyOut {
        ReplyOut {
            msg: self.msg@,
            dest: self.dest,
            scope_id: self.scope_id,
            alloc_source: self.alloc_source,
        }
    }
}

/// The result of handling one message.
#[derive(Debug)]
pub enum Outcome {
    /// A reply to send.
    Reply(Reply),
    /// Handled as the protocol says, with nothing to send (DECLINE, RELEASE).
    Handled(Handled),
    /// Not handled.
    Drop(DropReason),
}

/// The mathematical value of an [`Outcome`].
pub enum OutcomeView {
    Reply(ReplyOut),
    Handled(Handled),
    Drop(DropReason),
}

impl View for Outcome {
    type V = OutcomeView;

    open spec fn view(&self) -> OutcomeView {
        match self {
            Outcome::Reply(r) => OutcomeView::Reply(r@),
            Outcome::Handled(h) => OutcomeView::Handled(*h),
            Outcome::Drop(d) => OutcomeView::Drop(*d),
        }
    }
}

impl Outcome {
    pub fn reply(&self) -> (r: Option<&Reply>)
        ensures
            match self {
                Outcome::Reply(x) => r == Some(x),
                _ => r is None,
            },
    {
        match self {
            Outcome::Reply(x) => Some(x),
            _ => None,
        }
    }

    pub fn drop_reason(&self) -> (r: Option<DropReason>)
        ensures
            match self {
                Outcome::Drop(d) => r == Some(*d),
                _ => r is None,
            },
    {
        match self {
            Outcome::Drop(d) => Some(*d),
            _ => None,
        }
    }
}

/// Why a REQUEST is refused with a NAK.
#[derive(Clone, Copy, PartialEq, Eq, Debug, Structural)]
pub enum NakWhy {
    /// Neither option 50 nor `ciaddr`.
    NoAddress,
    /// The address is not on this subnet (the client moved).
    WrongSubnet,
    /// Nothing can be given to the client.
    NoneAvailable,
    /// What can be given is not what the client asked for: someone else has
    /// it, or the administrator changed a reservation.
    NotYours,
}

pub open spec fn spec_nak_text(why: NakWhy) -> Seq<char> {
    match why {
        NakWhy::NoAddress => "REQUEST 里既没有 option 50 也没有 ciaddr"@,
        NakWhy::WrongSubnet => "请求的地址不属于本子网"@,
        NakWhy::NoneAvailable => "无可用地址"@,
        NakWhy::NotYours => "该地址已不属于此客户端"@,
    }
}

/// The text sent in option 56 with a NAK.
pub fn nak_text(why: NakWhy) -> (r: &'static str)
    ensures
        r@ == spec_nak_text(why),
{
    match why {
        NakWhy::NoAddress => "REQUEST 里既没有 option 50 也没有 ciaddr",
        NakWhy::WrongSubnet => "请求的地址不属于本子网",
        NakWhy::NoneAvailable => "无可用地址",
        NakWhy::NotYours => "该地址已不属于此客户端",
    }
}

/// A NAK: `yiaddr` zero, the reason in option 56, and always broadcast (or
/// sent to the relay), as the client's current address is wrong and a
/// unicast would not reach it.
pub open spec fn spec_nak(scope_id: ScopeId, req: RequestView, server_ip: u32, why: NakWhy) -> OutcomeView {
    let base = spec_base_reply(req, MessageType::Nak, server_ip);
    OutcomeView::Reply(
        ReplyOut {
            msg: ReplyView {
                opts: base.opts.insert(OPT_MESSAGE, OptView::Message(spec_nak_text(why))),
                ..base
            },
            dest: if req.giaddr == 0 {
                ReplyDest::Broadcast
            } else {
                ReplyDest::Relay(req.giaddr)
            },
            scope_id,
            alloc_source: None,
        },
    )
}

fn nak(scope_id: ScopeId, req: &Request, server_ip: u32, why: NakWhy) -> (r: Outcome)
    ensures
        r@ == spec_nak(scope_id, req@, server_ip, why),
{
    let mut msg = base_reply(req, MessageType::Nak, server_ip);
    msg.put(DhcpOpt::Message(nak_text(why).to_owned()));
    let dest = if req.giaddr == 0 {
        ReplyDest::Broadcast
    } else {
        ReplyDest::Relay(req.giaddr)
    };
    Outcome::Reply(Reply { msg, dest, scope_id, alloc_source: None })
}

/// Times are seconds since the epoch, far from the end of `u64`; adding a
/// `u32` duration to them cannot overflow.
pub open spec fn time_ok(now: u64) -> bool {
    now <= u64::MAX - 0xffff_ffffu64
}

/// A reply granting an address: `kind` with `yiaddr` set (and `ciaddr`
/// echoed for an ACK), the scope's parameters, sent per RFC 2131 §4.1.
pub open spec fn spec_grant(
    scope: Scope,
    req: RequestView,
    ctx: RecvCtx,
    kind: MessageType,
    ciaddr: u32,
    ip: u32,
    source: AllocSource,
    lease_secs: u32,
) -> OutcomeView {
    OutcomeView::Reply(
        ReplyOut {
            msg: spec_apply_scope_options(
                ReplyView { yiaddr: ip, ciaddr, ..spec_base_reply(req, kind, ctx.server_ip) },
                req,
                scope,
                lease_secs,
            ),
            dest: spec_dest_for(req, ip),
            scope_id: scope.id,
            alloc_source: Some(source),
        },
    )
}

fn grant(
    scope: &Scope,
    req: &Request,
    ctx: RecvCtx,
    kind: MessageType,
    ciaddr: u32,
    ip: u32,
    source: AllocSource,
    lease_secs: u32,
) -> (r: Outcome)
    ensures
        r@ == spec_grant(*scope, req@, ctx, kind, ciaddr, ip, source, lease_secs),
{
    let mut msg = base_reply(req, kind, ctx.server_ip);
    msg.yiaddr = ip;
    msg.ciaddr = ciaddr;
    apply_scope_options(&mut msg, req, scope, lease_secs);
    Outcome::Reply(Reply { msg, dest: dest_for(req, ip), scope_id: scope.id, alloc_source: Some(source) })
}

/// The lease an OFFER holds: only for the scope's short offer time, not the
/// whole lease, so that it comes back quickly if the client never follows
/// up with a REQUEST.
pub open spec fn spec_offer_lease(scope: Scope, req: RequestView, client: ClientKey, now: u64) -> LeaseView {
    LeaseView {
        ip: 0,
        client,
        scope_id: scope.id,
        state: LeaseState::Offered,
        expires_at: (now + scope.offer_secs) as u64,
        hostname: spec_hostname(req),
        vendor_class: spec_vendor_class(req),
        created_at: now,
        last_seen: now,
    }
}

/// DISCOVER: pick an address and hold it at once (a short hold), so that
/// concurrent DISCOVERs cannot get the same one; offer it, or stay silent
/// when the pool is exhausted.
#[verifier::opaque]
pub open spec fn spec_on_discover(
    scope: Scope,
    m: LeaseMap,
    occ: Set<u32>,
    req: RequestView,
    client: ClientKey,
    ctx: RecvCtx,
) -> (OutcomeView, LeaseMap) {
    match spec_allocate_claim(scope, m, occ, client, req.requested_ip, ctx.now) {
        None => (OutcomeView::Drop(DropReason::PoolExhausted), m),
        Some(a) => (
            spec_grant(
                scope,
                req,
                ctx,
                MessageType::Offer,
                0,
                a.ip,
                a.source,
                spec_requested_lease_secs(req, scope),
            ),
            spec_insert(m, at_ip(spec_offer_lease(scope, req, client, ctx.now), a.ip)),
        ),
    }
}

fn on_discover<S: LeaseStore>(
    scope: &Scope,
    store: &mut S,
    req: &Request,
    client: &ClientId,
    ctx: RecvCtx,
) -> (out: Outcome)
    requires
        old(store).inv(),
        time_ok(ctx.now),
    ensures
        final(store).inv(),
        final(store).occupied() == old(store).occupied(),
        (out@, final(store).leases()) == spec_on_discover(
            *scope,
            old(store).leases(),
            old(store).occupied(),
            req@,
            client@,
            ctx,
        ),
{
    reveal(spec_on_discover);
    let lease_secs = requested_lease_secs(req, scope);
    let tmpl = Lease {
        ip: 0,
        client: client.clone(),
        scope_id: scope.id,
        state: LeaseState::Offered,
        expires_at: ctx.now + scope.offer_secs as u64,
        hostname: hostname_of(req),
        vendor_class: vendor_class_of(req),
        created_at: ctx.now,
        last_seen: ctx.now,
    };
    match allocate_and_claim(scope, store, client, req.requested_ip, ctx.now, &tmpl) {
        None => Outcome::Drop(DropReason::PoolExhausted),
        Some(a) => grant(scope, req, ctx, MessageType::Offer, 0, a.ip, a.source, lease_secs),
    }
}

/// The address a REQUEST claims: option 50 (SELECTING, INIT-REBOOT), else
/// `ciaddr` (RENEWING, REBINDING).
pub open spec fn spec_claimed(req: RequestView) -> Option<u32> {
    match req.requested_ip {
        Some(ip) => Some(ip),
        None => if req.ciaddr != 0 {
            Some(req.ciaddr)
        } else {
            None
        },
    }
}

/// The lease a granted REQUEST stores. A renewal keeps the time the
/// address was first given out, so that the interface shows how long the
/// machine has had it.
pub open spec fn spec_bound_lease(
    scope: Scope,
    m: LeaseMap,
    req: RequestView,
    client: ClientKey,
    now: u64,
) -> LeaseView {
    LeaseView {
        ip: 0,
        client,
        scope_id: scope.id,
        state: LeaseState::Bound,
        expires_at: (now + spec_requested_lease_secs(req, scope)) as u64,
        hostname: spec_hostname(req),
        vendor_class: spec_vendor_class(req),
        created_at: match spec_client_lease(m, scope.id, client) {
            Some(l) => l.created_at,
            None => now,
        },
        last_seen: now,
    }
}

/// REQUEST:
///
/// * naming another server (option 54) in SELECTING: the client took
///   another offer. Stay silent and drop our offer's hold.
/// * with no address claimed (see [`spec_claimed`]), or one off this
///   subnet (the client moved, a laptop back from another office, say):
///   NAK, so that it starts over.
/// * else allocate as for a DISCOVER with the claimed address requested,
///   and claim what that gives. NAK when nothing can be given or it is not
///   the claimed address (someone else holds it, or a reservation changed);
///   else ACK.
#[verifier::opaque]
pub open spec fn spec_on_request(
    scope: Scope,
    m: LeaseMap,
    occ: Set<u32>,
    req: RequestView,
    client: ClientKey,
    ctx: RecvCtx,
) -> (OutcomeView, LeaseMap) {
    if req.server_id matches Some(chosen) && chosen != ctx.server_ip {
        let m1 = match spec_client_lease(m, scope.id, client) {
            Some(l) => if l.state == LeaseState::Offered {
                m.remove((scope.id, l.ip))
            } else {
                m
            },
            None => m,
        };
        (OutcomeView::Drop(DropReason::ChoseAnotherServer), m1)
    } else {
        match spec_claimed(req) {
            None => (spec_nak(scope.id, req, ctx.server_ip, NakWhy::NoAddress), m),
            Some(claimed) => if !scope.spec_contains(claimed) {
                (spec_nak(scope.id, req, ctx.server_ip, NakWhy::WrongSubnet), m)
            } else {
                match spec_allocate_claim(scope, m, occ, client, Some(claimed), ctx.now) {
                    None => (spec_nak(scope.id, req, ctx.server_ip, NakWhy::NoneAvailable), m),
                    Some(a) => {
                        let m1 = spec_insert(
                            m,
                            at_ip(spec_bound_lease(scope, m, req, client, ctx.now), a.ip),
                        );
                        if a.ip != claimed {
                            (spec_nak(scope.id, req, ctx.server_ip, NakWhy::NotYours), m1)
                        } else {
                            (
                                spec_grant(
                                    scope,
                                    req,
                                    ctx,
                                    MessageType::Ack,
                                    req.ciaddr,
                                    a.ip,
                                    a.source,
                                    spec_requested_lease_secs(req, scope),
                                ),
                                m1,
                            )
                        }
                    },
                }
            },
        }
    }
}

fn on_request<S: LeaseStore>(
    scope: &Scope,
    store: &mut S,
    req: &Request,
    client: &ClientId,
    ctx: RecvCtx,
) -> (out: Outcome)
    requires
        old(store).inv(),
        time_ok(ctx.now),
    ensures
        final(store).inv(),
        final(store).occupied() == old(store).occupied(),
        (out@, final(store).leases()) == spec_on_request(
            *scope,
            old(store).leases(),
            old(store).occupied(),
            req@,
            client@,
            ctx,
        ),
{
    reveal(spec_on_request);
    if let Some(chosen) = req.server_id {
        if chosen != ctx.server_ip {
            if let Some(l) = store.get_by_client(scope.id, client) {
                if l.state == LeaseState::Offered {
                    let _ = store.remove(scope.id, l.ip);
                }
            }
            return Outcome::Drop(DropReason::ChoseAnotherServer);
        }
    }
    let claimed = match req.requested_ip {
        Some(ip) => ip,
        None => if req.ciaddr != 0 {
            req.ciaddr
        } else {
            return nak(scope.id, req, ctx.server_ip, NakWhy::NoAddress);
        },
    };
    if !scope.contains(claimed) {
        return nak(scope.id, req, ctx.server_ip, NakWhy::WrongSubnet);
    }
    let lease_secs = requested_lease_secs(req, scope);
    let created_at = match store.get_by_client(scope.id, client) {
        Some(l) => l.created_at,
        None => ctx.now,
    };
    let tmpl = Lease {
        ip: 0,
        client: client.clone(),
        scope_id: scope.id,
        state: LeaseState::Bound,
        expires_at: ctx.now + lease_secs as u64,
        hostname: hostname_of(req),
        vendor_class: vendor_class_of(req),
        created_at,
        last_seen: ctx.now,
    };
    match allocate_and_claim(scope, store, client, Some(claimed), ctx.now, &tmpl) {
        None => nak(scope.id, req, ctx.server_ip, NakWhy::NoneAvailable),
        Some(a) => if a.ip != claimed {
            nak(scope.id, req, ctx.server_ip, NakWhy::NotYours)
        } else {
            grant(scope, req, ctx, MessageType::Ack, req.ciaddr, a.ip, a.source, lease_secs)
        },
    }
}

/// The lease a DECLINE stores: the client found the address in use on the
/// wire (by an ARP probe), so it is quarantined for the scope's quarantine
/// time and not handed out meanwhile.
pub open spec fn spec_declined_lease(scope: Scope, ip: u32, client: ClientKey, now: u64) -> LeaseView {
    LeaseView {
        ip,
        client,
        scope_id: scope.id,
        state: LeaseState::Declined,
        expires_at: (now + scope.decline_quarantine_secs) as u64,
        hostname: None,
        vendor_class: None,
        created_at: now,
        last_seen: now,
    }
}

#[verifier::opaque]
pub open spec fn spec_on_decline(
    scope: Scope,
    m: LeaseMap,
    req: RequestView,
    client: ClientKey,
    ctx: RecvCtx,
) -> (OutcomeView, LeaseMap) {
    match req.requested_ip {
        None => (OutcomeView::Drop(DropReason::DeclineWithoutAddress), m),
        Some(bad) => (
            OutcomeView::Handled(Handled::AddressDeclined),
            spec_insert(m, spec_declined_lease(scope, bad, client, ctx.now)),
        ),
    }
}

fn on_decline<S: LeaseStore>(
    scope: &Scope,
    store: &mut S,
    req: &Request,
    client: &ClientId,
    ctx: RecvCtx,
) -> (out: Outcome)
    requires
        old(store).inv(),
        time_ok(ctx.now),
    ensures
        final(store).inv(),
        final(store).occupied() == old(store).occupied(),
        (out@, final(store).leases()) == spec_on_decline(
            *scope,
            old(store).leases(),
            req@,
            client@,
            ctx,
        ),
{
    reveal(spec_on_decline);
    match req.requested_ip {
        None => Outcome::Drop(DropReason::DeclineWithoutAddress),
        Some(bad) => {
            store.insert(
                Lease {
                    ip: bad,
                    client: client.clone(),
                    scope_id: scope.id,
                    state: LeaseState::Declined,
                    expires_at: ctx.now + scope.decline_quarantine_secs as u64,
                    hostname: None,
                    vendor_class: None,
                    created_at: ctx.now,
                    last_seen: ctx.now,
                },
            );
            Outcome::Handled(Handled::AddressDeclined)
        },
    }
}

/// RELEASE names the address in `ciaddr`; only the client that holds it may
/// release it, so that a forged packet cannot clear someone else's lease.
#[verifier::opaque]
pub open spec fn spec_on_release(
    scope: Scope,
    m: LeaseMap,
    req: RequestView,
    client: ClientKey,
) -> (OutcomeView, LeaseMap) {
    if req.ciaddr == 0 {
        (OutcomeView::Drop(DropReason::ReleaseWithoutAddress), m)
    } else {
        match spec_lease_at(m, scope.id, req.ciaddr) {
            Some(l) => if l.client == client {
                (OutcomeView::Handled(Handled::LeaseReleased), m.remove((scope.id, req.ciaddr)))
            } else {
                (OutcomeView::Drop(DropReason::ReleaseNotOwned), m)
            },
            None => (OutcomeView::Drop(DropReason::ReleaseNotOwned), m),
        }
    }
}

fn on_release<S: LeaseStore>(scope: &Scope, store: &mut S, req: &Request, client: &ClientId) -> (out:
    Outcome)
    requires
        old(store).inv(),
    ensures
        final(store).inv(),
        final(store).occupied() == old(store).occupied(),
        (out@, final(store).leases()) == spec_on_release(
            *scope,
            old(store).leases(),
            req@,
            client@,
        ),
{
    reveal(spec_on_release);
    let ip = req.ciaddr;
    if ip == 0 {
        return Outcome::Drop(DropReason::ReleaseWithoutAddress);
    }
    match store.get_by_ip(scope.id, ip) {
        Some(l) => if l.client.same_as(client) {
            let _ = store.remove(scope.id, ip);
            Outcome::Handled(Handled::LeaseReleased)
        } else {
            Outcome::Drop(DropReason::ReleaseNotOwned)
        },
        None => Outcome::Drop(DropReason::ReleaseNotOwned),
    }
}

/// INFORM: the client has an address and wants only the parameters. ACK
/// without allocating and without a lease, and without any lease time
/// (options 51, 58 and 59 are taken out, whatever set them).
#[verifier::opaque]
pub open spec fn spec_on_inform(scope: Scope, req: RequestView, ctx: RecvCtx) -> OutcomeView {
    let m = spec_apply_scope_options(
        ReplyView { ciaddr: req.ciaddr, ..spec_base_reply(req, MessageType::Ack, ctx.server_ip) },
        req,
        scope,
        scope.lease_secs,
    );
    OutcomeView::Reply(
        ReplyOut {
            msg: ReplyView {
                opts: m.opts.remove(OPT_LEASE_TIME).remove(OPT_RENEWAL).remove(OPT_REBINDING),
                ..m
            },
            dest: if req.ciaddr == 0 {
                ReplyDest::Broadcast
            } else {
                ReplyDest::Unicast(req.ciaddr)
            },
            scope_id: scope.id,
            alloc_source: None,
        },
    )
}

fn on_inform(scope: &Scope, req: &Request, ctx: RecvCtx) -> (out: Outcome)
    ensures
        out@ == spec_on_inform(*scope, req@, ctx),
{
    reveal(spec_on_inform);
    let mut msg = base_reply(req, MessageType::Ack, ctx.server_ip);
    msg.ciaddr = req.ciaddr;
    apply_scope_options(&mut msg, req, scope, scope.lease_secs);
    msg.remove_opt(OPT_LEASE_TIME);
    msg.remove_opt(OPT_RENEWAL);
    msg.remove_opt(OPT_REBINDING);
    let dest = if req.ciaddr == 0 {
        ReplyDest::Broadcast
    } else {
        ReplyDest::Unicast(req.ciaddr)
    };
    Outcome::Reply(Reply { msg, dest, scope_id: scope.id, alloc_source: None })
}

/// What [`handle`] answers and how it leaves the leases.
pub open spec fn spec_handle(
    scopes: Seq<Scope>,
    m: LeaseMap,
    occ: Set<u32>,
    req: RequestView,
    ctx: RecvCtx,
) -> (OutcomeView, LeaseMap) {
    if req.opcode != Opcode::BootRequest {
        (OutcomeView::Drop(DropReason::NotBootRequest), m)
    } else {
        match req.msg_type {
            None => (OutcomeView::Drop(DropReason::NoMessageType), m),
            Some(kind) => match spec_client_of(req) {
                None => (OutcomeView::Drop(DropReason::UnidentifiableClient), m),
                Some(client) => match spec_select(scopes, spec_scope_key(req, ctx)) {
                    Err(why) => (OutcomeView::Drop(why), m),
                    Ok(i) => {
                        let scope = scopes[i];
                        match kind {
                            MessageType::Discover => spec_on_discover(scope, m, occ, req, client, ctx),
                            MessageType::Request => spec_on_request(scope, m, occ, req, client, ctx),
                            MessageType::Decline => spec_on_decline(scope, m, req, client, ctx),
                            MessageType::Release => spec_on_release(scope, m, req, client),
                            MessageType::Inform => (spec_on_inform(scope, req, ctx), m),
                            _ => (OutcomeView::Drop(DropReason::UnsupportedType), m),
                        }
                    },
                },
            },
        }
    }
}

/// Handles one message, updating the lease store in place: see
/// [`spec_handle`].
pub fn handle<S: LeaseStore>(cfg: &ServerConfig, store: &mut S, req: &Request, ctx: RecvCtx) -> (out:
    Outcome)
    requires
        old(store).inv(),
        time_ok(ctx.now),
    ensures
        final(store).inv(),
        final(store).occupied() == old(store).occupied(),
        (out@, final(store).leases()) == spec_handle(
            cfg.scopes@,
            old(store).leases(),
            old(store).occupied(),
            req@,
            ctx,
        ),
{
    if req.opcode != Opcode::BootRequest {
        return Outcome::Drop(DropReason::NotBootRequest);
    }
    let kind = match req.msg_type {
        Some(k) => k,
        None => return Outcome::Drop(DropReason::NoMessageType),
    };
    let client = match client_id_of(req) {
        Some(c) => c,
        None => return Outcome::Drop(DropReason::UnidentifiableClient),
    };
    let scope = match cfg.select_scope(req, &ctx) {
        Ok(s) => s,
        Err(why) => return Outcome::Drop(why),
    };
    match kind {
        MessageType::Discover => on_discover(scope, store, req, &client, ctx),
        MessageType::Request => on_request(scope, store, req, &client, ctx),
        MessageType::Decline => on_decline(scope, store, req, &client, ctx),
        MessageType::Release => on_release(scope, store, req, &client),
        MessageType::Inform => on_inform(scope, req, ctx),
        _ => Outcome::Drop(DropReason::UnsupportedType),
    }
}

/// The address an outcome hands out, if it is a reply.
pub open spec fn offered_ip(o: OutcomeView) -> Option<u32> {
    match o {
        OutcomeView::Reply(r) => Some(r.msg.yiaddr),
        _ => None,
    }
}

/// Two different clients that send DISCOVER in the same scope one after the
/// other, at the same time, are offered different addresses: the first
/// offer holds its address. (With an offer time of zero the hold lapses at
/// once, and the second client may be offered the same address.)
pub proof fn law_concurrent_discovers_differ(
    scopes: Seq<Scope>,
    m: LeaseMap,
    occ: Set<u32>,
    req_a: RequestView,
    req_b: RequestView,
    ctx: RecvCtx,
    i: int,
)
    requires
        leases_wf(m),
        time_ok(ctx.now),
        req_a.opcode == Opcode::BootRequest,
        req_b.opcode == Opcode::BootRequest,
        req_a.msg_type == Some(MessageType::Discover),
        req_b.msg_type == Some(MessageType::Discover),
        spec_client_of(req_a) is Some,
        spec_client_of(req_b) is Some,
        spec_client_of(req_a) != spec_client_of(req_b),
        spec_select(scopes, spec_scope_key(req_a, ctx)) == Ok::<int, DropReason>(i),
        spec_select(scopes, spec_scope_key(req_b, ctx)) == Ok::<int, DropReason>(i),
        scopes[i].offer_secs > 0,
    ensures
        ({
            let first = spec_handle(scopes, m, occ, req_a, ctx);
            let second = spec_handle(scopes, first.1, occ, req_b, ctx);
            offered_ip(first.0) is Some && offered_ip(second.0) is Some ==> offered_ip(first.0)
                != offered_ip(second.0)
        }),
{
    let scope = scopes[i];
    let ca = spec_client_of(req_a).unwrap();
    let cb = spec_client_of(req_b).unwrap();
    lemma_handle_discover(scopes, m, occ, req_a, ctx, i);
    let m1 = spec_on_discover(scope, m, occ, req_a, ca, ctx).1;
    lemma_handle_discover(scopes, m1, occ, req_b, ctx, i);
    lemma_discovers_differ(scope, m, occ, req_a, ca, req_b, cb, ctx);
}

proof fn lemma_handle_discover(
    scopes: Seq<Scope>,
    m: LeaseMap,
    occ: Set<u32>,
    req: RequestView,
    ctx: RecvCtx,
    i: int,
)
    requires
        req.opcode == Opcode::BootRequest,
        req.msg_type == Some(MessageType::Discover),
        spec_client_of(req) is Some,
        spec_select(scopes, spec_scope_key(req, ctx)) == Ok::<int, DropReason>(i),
    ensures
        spec_handle(scopes, m, occ, req, ctx) == spec_on_discover(
            scopes[i],
            m,
            occ,
            req,
            spec_client_of(req).unwrap(),
            ctx,
        ),
{
}

/// The address a grant hands out is the one given.
proof fn lemma_grant_ip(
    scope: Scope,
    req: RequestView,
    ctx: RecvCtx,
    kind: MessageType,
    ciaddr: u32,
    ip: u32,
    source: AllocSource,
    lease_secs: u32,
)
    ensures
        offered_ip(spec_grant(scope, req, ctx, kind, ciaddr, ip, source, lease_secs)) == Some(ip),
{
    reveal(spec_apply_scope_options);
    let base = ReplyView { yiaddr: ip, ciaddr, ..spec_base_reply(req, kind, ctx.server_ip) };
    if let Some(b) = scope.boot {
        let m1 = ReplyView { opts: Map::empty(), ..base };
        assert(spec_apply_boot(m1, b, spec_boot_client_of(req), scope.spec_has_pxe_vendor_options()).yiaddr
            == ip);
    }
}

proof fn lemma_discovers_differ(
    scope: Scope,
    m: LeaseMap,
    occ: Set<u32>,
    req_a: RequestView,
    ca: ClientKey,
    req_b: RequestView,
    cb: ClientKey,
    ctx: RecvCtx,
)
    requires
        leases_wf(m),
        time_ok(ctx.now),
        ca != cb,
        scope.offer_secs > 0,
    ensures
        ({
            let (oa, m1) = spec_on_discover(scope, m, occ, req_a, ca, ctx);
            let (ob, m2) = spec_on_discover(scope, m1, occ, req_b, cb, ctx);
            offered_ip(oa) is Some && offered_ip(ob) is Some ==> offered_ip(oa) != offered_ip(ob)
        }),
{
    reveal(spec_on_discover);
    if let Some(a) = spec_allocate_claim(scope, m, occ, ca, req_a.requested_ip, ctx.now) {
        lemma_grant_ip(scope, req_a, ctx, MessageType::Offer, 0, a.ip, a.source, spec_requested_lease_secs(req_a, scope));
        let l = at_ip(spec_offer_lease(scope, req_a, ca, ctx.now), a.ip);
        let m1 = spec_insert(m, l);
        law_insert_then_lookup(m, l);
        assert(spec_lease_at(m1, scope.id, a.ip) == Some(l));
        assert(!spec_usable_by(m1, scope.id, a.ip, cb, ctx.now));
        law_allocation_skips_unusable(scope, m1, occ, cb, req_b.requested_ip, ctx.now, a.ip);
        if let Some(b) = spec_allocate_claim(scope, m1, occ, cb, req_b.requested_ip, ctx.now) {
            lemma_grant_ip(scope, req_b, ctx, MessageType::Offer, 0, b.ip, b.source, spec_requested_lease_secs(req_b, scope));
        }
    }
}

/// An address a client declined goes to nobody, not even that client,
/// until its quarantine ends.
pub proof fn law_declined_address_is_quarantined(
    scope: Scope,
    m: LeaseMap,
    occ: Set<u32>,
    req: RequestView,
    client: ClientKey,
    ctx: RecvCtx,
    other: ClientKey,
    requested: Option<u32>,
    later: u64,
)
    requires
        leases_wf(m),
        time_ok(ctx.now),
        req.requested_ip is Some,
        later < ctx.now + scope.decline_quarantine_secs,
    ensures
        spec_allocate_claim(
            scope,
            spec_on_decline(scope, m, req, client, ctx).1,
            occ,
            other,
            requested,
            later,
        ) matches Some(a) ==> a.ip != req.requested_ip.unwrap(),
{
    reveal(spec_on_decline);
    let bad = req.requested_ip.unwrap();
    let l = spec_declined_lease(scope, bad, client, ctx.now);
    law_insert_then_lookup(m, l);
    let m1 = spec_insert(m, l);
    assert(spec_lease_at(m1, scope.id, bad) == Some(l));
    assert(!spec_usable_by(m1, scope.id, bad, other, later));
    law_allocation_skips_unusable(scope, m1, occ, other, requested, later, bad);
}

/// A RELEASE removes at most one lease: the releasing client's own lease
/// at `ciaddr`. A forged RELEASE cannot clear someone else's.
pub proof fn law_release_only_by_owner(
    scope: Scope,
    m: LeaseMap,
    req: RequestView,
    client: ClientKey,
)
    ensures
        spec_on_release(scope, m, req, client).1 == m || (m.contains_key((scope.id, req.ciaddr))
            && m[(scope.id, req.ciaddr)].client == client && spec_on_release(scope, m, req, client).1
            == m.remove((scope.id, req.ciaddr))),
{
    reveal(spec_on_release);
}

/// The leases of `m1` are those of `m` outside scope `sid`.
pub open spec fn same_outside(m: LeaseMap, m1: LeaseMap, sid: ScopeId) -> bool {
    forall|k: LeaseKey|
        k.0 != sid ==> (#[trigger] m1.contains_key(k) == m.contains_key(k) && m1[k] == m[k])
}

/// How a message may change the leases: not at all unless a scope is
/// selected, and then only within that scope.
pub open spec fn changes_only_selected(
    scopes: Seq<Scope>,
    key: u32,
    m: LeaseMap,
    m1: LeaseMap,
) -> bool {
    match spec_select(scopes, key) {
        Ok(i) => same_outside(m, m1, scopes[i].id),
        Err(_) => m1 == m,
    }
}

proof fn lemma_insert_in_scope(m: LeaseMap, l: LeaseView)
    requires
        leases_wf(m),
    ensures
        leases_wf(spec_insert(m, l)),
        same_outside(m, spec_insert(m, l), l.scope_id),
{
    law_insert_then_lookup(m, l);
}

/// Handling a message keeps the leases consistent, and touches no lease of
/// a scope other than the one the message was served by: the same address
/// in two scopes is two separate leases, and a client may hold one in each.
pub proof fn law_handle_stays_in_its_scope(
    scopes: Seq<Scope>,
    m: LeaseMap,
    occ: Set<u32>,
    req: RequestView,
    ctx: RecvCtx,
)
    requires
        leases_wf(m),
        time_ok(ctx.now),
    ensures
        leases_wf(spec_handle(scopes, m, occ, req, ctx).1),
        changes_only_selected(scopes, spec_scope_key(req, ctx), m, spec_handle(scopes, m, occ, req, ctx).1),
{
    reveal(spec_on_discover);
    reveal(spec_on_request);
    reveal(spec_on_decline);
    reveal(spec_on_release);
    if req.opcode == Opcode::BootRequest && req.msg_type is Some && spec_client_of(req) is Some {
        let kind = req.msg_type.unwrap();
        let client = spec_client_of(req).unwrap();
        if let Ok(i) = spec_select(scopes, spec_scope_key(req, ctx)) {
            let scope = scopes[i];
            match kind {
                MessageType::Discover => {
                    if let Some(a) = spec_allocate_claim(scope, m, occ, client, req.requested_ip, ctx.now) {
                        lemma_insert_in_scope(m, at_ip(spec_offer_lease(scope, req, client, ctx.now), a.ip));
                    }
                },
                MessageType::Request => {
                    if req.server_id matches Some(chosen) && chosen != ctx.server_ip {
                        if let Some(l) = spec_client_lease(m, scope.id, client) {
                            law_remove_then_lookup(m, scope.id, l.ip);
                        }
                    } else if let Some(claimed) = spec_claimed(req) {
                        if let Some(a) = spec_allocate_claim(scope, m, occ, client, Some(claimed), ctx.now) {
                            lemma_insert_in_scope(m, at_ip(spec_bound_lease(scope, m, req, client, ctx.now), a.ip));
                        }
                    }
                },
                MessageType::Decline => {
                    if let Some(bad) = req.requested_ip {
                        lemma_insert_in_scope(m, spec_declined_lease(scope, bad, client, ctx.now));
                    }
                },
                MessageType::Release => {
                    law_remove_then_lookup(m, scope.id, req.ciaddr);
                },
                _ => {},
            }
        }
    }
}

/// A granted REQUEST stores the client's lease at the granted address,
/// bound for the lease time from now, and a renewal keeps the time the
/// client was first given an address in the scope.
pub proof fn law_request_binds(
    scope: Scope,
    m: LeaseMap,
    occ: Set<u32>,
    req: RequestView,
    client: ClientKey,
    ctx: RecvCtx,
)
    requires
        leases_wf(m),
        time_ok(ctx.now),
    ensures
        ({
            let (o, m1) = spec_on_request(scope, m, occ, req, client, ctx);
            o is Reply && o->Reply_0.alloc_source is Some ==> {
                let ip = o->Reply_0.msg.yiaddr;
                &&& spec_lease_at(m1, scope.id, ip) matches Some(l)
                &&& l.client == client
                &&& l.state == LeaseState::Bound
                &&& l.expires_at == ctx.now + spec_requested_lease_secs(req, scope)
                &&& l.last_seen == ctx.now
                &&& l.created_at == match spec_client_lease(m, scope.id, client) {
                    Some(p) => p.created_at,
                    None => ctx.now,
                }
            }
        }),
{
    reveal(spec_on_request);
    if !(req.server_id matches Some(chosen) && chosen != ctx.server_ip) {
        if let Some(claimed) = spec_claimed(req) {
            if let Some(a) = spec_allocate_claim(scope, m, occ, client, Some(claimed), ctx.now) {
                lemma_grant_ip(scope, req, ctx, MessageType::Ack, req.ciaddr, a.ip, a.source, spec_requested_lease_secs(req, scope));
                law_insert_then_lookup(m, at_ip(spec_bound_lease(scope, m, req, client, ctx.now), a.ip));
            }
        }
    }
}

/// Whether no raw option of `scope` has the code `code`.
pub open spec fn no_raw(scope: Scope, code: u8) -> bool {
    forall|i: int| 0 <= i < scope.extra_options@.len() ==> (#[trigger] scope.extra_options@[i]).0 != code
}

proof fn lemma_put_raw_keeps(o: Map<u8, OptView>, extra: Seq<(u8, Vec<u8>)>, code: u8)
    requires
        forall|i: int| 0 <= i < extra.len() ==> (#[trigger] extra[i]).0 != code,
    ensures
        spec_put_raw(o, extra).contains_key(code) == o.contains_key(code),
        o.contains_key(code) ==> spec_put_raw(o, extra)[code] == o[code],
    decreases extra.len(),
{
    if extra.len() > 0 {
        assert(extra.last() == extra[extra.len() - 1]);
        lemma_put_raw_keeps(o, extra.drop_last(), code);
    }
}

proof fn lemma_apply_boot_keeps(m: ReplyView, b: BootConfig, client: BootClient, pxe_vendor: bool, code: u8)
    requires
        code != 67 && code != 66 && code != 60,
    ensures
        spec_apply_boot(m, b, client, pxe_vendor).opts.contains_key(code) == m.opts.contains_key(code),
        m.opts.contains_key(code) ==> spec_apply_boot(m, b, client, pxe_vendor).opts[code] == m.opts[code],
{
}

proof fn lemma_scope_options_unfold(m: ReplyView, req: RequestView, scope: Scope, lease_secs: u32)
    ensures
        spec_apply_scope_options(m, req, scope, lease_secs) == (ReplyView {
            opts: spec_put_raw(with_boot(m, req, scope, lease_secs).opts, scope.extra_options@),
            ..with_boot(m, req, scope, lease_secs)
        }),
{
    reveal(spec_apply_scope_options);
}

/// What the scope's options leave under `code` (not a boot option's code)
/// when no raw option has it: what the base options put there.
proof fn lemma_scope_option_at(m: ReplyView, req: RequestView, scope: Scope, lease_secs: u32, code: u8)
    requires
        code != 67 && code != 66 && code != 60,
        no_raw(scope, code),
        base_opts(m, scope, lease_secs).contains_key(code),
    ensures
        spec_apply_scope_options(m, req, scope, lease_secs).opts.contains_key(code),
        spec_apply_scope_options(m, req, scope, lease_secs).opts[code] == base_opts(m, scope, lease_secs)[code],
{
    lemma_scope_options_unfold(m, req, scope, lease_secs);
    let w = with_boot(m, req, scope, lease_secs);
    let m1 = ReplyView { opts: base_opts(m, scope, lease_secs), ..m };
    match scope.boot {
        Some(b) => {
            lemma_apply_boot_keeps(m1, b, spec_boot_client_of(req), scope.spec_has_pxe_vendor_options(), code);
        },
        None => {},
    }
    lemma_put_raw_keeps(w.opts, scope.extra_options@, code);
}

/// Filling in a scope's options leaves the addresses of a reply alone.
proof fn lemma_scope_options_keep_addresses(m: ReplyView, req: RequestView, scope: Scope, lease_secs: u32)
    ensures
        spec_apply_scope_options(m, req, scope, lease_secs).yiaddr == m.yiaddr,
        spec_apply_scope_options(m, req, scope, lease_secs).ciaddr == m.ciaddr,
        spec_apply_scope_options(m, req, scope, lease_secs).chaddr == m.chaddr,
{
    lemma_scope_options_unfold(m, req, scope, lease_secs);
}

/// A DISCOVER from a client that holds a lease in the scope, not declined,
/// on a pool address reserved for nobody else, and that has no reservation,
/// is offered that same address, as its own, whatever address it asks for.
pub proof fn law_discover_offers_the_own_lease(
    scope: Scope,
    m: LeaseMap,
    occ: Set<u32>,
    req: RequestView,
    client: ClientKey,
    ctx: RecvCtx,
    ip: u32,
)
    requires
        leases_wf(m),
        m.contains_key((scope.id, ip)),
        m[(scope.id, ip)].client == client,
        m[(scope.id, ip)].state != LeaseState::Declined,
        scope.spec_is_poolable(ip),
        !scope.spec_is_reserved_for_other(ip, client),
        forall|i: int| 0 <= i < scope.reservations@.len() ==> (#[trigger] scope.reservations@[i]).client@ != client,
    ensures
        spec_on_discover(scope, m, occ, req, client, ctx).0 matches OutcomeView::Reply(r) && r.msg.yiaddr == ip
            && r.alloc_source == Some(AllocSource::Existing),
{
    reveal(spec_on_discover);
    crate::store::law_own_lease_before_the_request(scope, m, occ, client, req.requested_ip, ctx.now, ip);
    let base = ReplyView { yiaddr: ip, ciaddr: 0, ..spec_base_reply(req, MessageType::Offer, ctx.server_ip) };
    lemma_scope_options_keep_addresses(base, req, scope, spec_requested_lease_secs(req, scope));
}

/// An OFFER, and an ACK, states the lease time granted: the time the client
/// asked for, capped by the scope's (see [`law_granted_lease_time`]),
/// unless a raw option of the scope overrides option 51.
pub proof fn law_grants_state_the_lease_time(
    scope: Scope,
    m: LeaseMap,
    occ: Set<u32>,
    req: RequestView,
    client: ClientKey,
    ctx: RecvCtx,
)
    requires
        no_raw(scope, 51),
    ensures
        spec_on_discover(scope, m, occ, req, client, ctx).0 matches OutcomeView::Reply(r) ==> r.msg.opts.contains_key(
            51,
        ) && r.msg.opts[51] == OptView::AddressLeaseTime(spec_requested_lease_secs(req, scope)),
        spec_on_request(scope, m, occ, req, client, ctx).0 matches OutcomeView::Reply(r) ==> (r.alloc_source is Some
            ==> r.msg.opts.contains_key(51) && r.msg.opts[51] == OptView::AddressLeaseTime(
            spec_requested_lease_secs(req, scope),
        )),
{
    reveal(spec_on_discover);
    reveal(spec_on_request);
    let secs = spec_requested_lease_secs(req, scope);
    if let Some(a) = spec_allocate_claim(scope, m, occ, client, req.requested_ip, ctx.now) {
        let base = ReplyView { yiaddr: a.ip, ciaddr: 0, ..spec_base_reply(req, MessageType::Offer, ctx.server_ip) };
        lemma_scope_option_at(base, req, scope, secs, 51);
    }
    if let Some(claimed) = spec_claimed(req) {
        if let Some(a) = spec_allocate_claim(scope, m, occ, client, Some(claimed), ctx.now) {
            let base = ReplyView {
                yiaddr: a.ip,
                ciaddr: req.ciaddr,
                ..spec_base_reply(req, MessageType::Ack, ctx.server_ip)
            };
            lemma_scope_option_at(base, req, scope, secs, 51);
        }
    }
}

/// A request whose option 77 names iPXE is an iPXE client, whatever its
/// option 60 says: iPXE also announces `PXEClient`, and taken for PXE
/// firmware it would be sent itself again, forever.
pub proof fn law_ipxe_is_known_by_option_77(req: RequestView, raw: Seq<u8>)
    requires
        req.user_class == Some(raw),
        spec_user_class_has_ipxe(raw),
    ensures
        spec_boot_client_of(req) == BootClient::Ipxe,
{
}

/// Option 77 names iPXE when it is `iPXE` in any case, bare or as the first
/// of a list of length-prefixed strings.
pub proof fn law_ipxe_user_class_forms(raw: Seq<u8>)
    ensures
        eq_ignore_ascii_case(raw, ipxe_bytes()) ==> spec_user_class_has_ipxe(raw),
        raw.len() >= 5 && raw[0] == 4 && eq_ignore_ascii_case(raw.subrange(1, 5), ipxe_bytes())
            ==> spec_user_class_has_ipxe(raw),
{
}

/// An iPXE client of a scope with an iPXE script gets the script as its
/// boot file (option 67, and the BOOTP `file` field when it fits), unless
/// a raw option of the scope overrides option 67.
pub proof fn law_ipxe_gets_its_script(
    m: ReplyView,
    req: RequestView,
    scope: Scope,
    lease_secs: u32,
    b: BootConfig,
    raw: Seq<u8>,
    url: Seq<char>,
)
    requires
        scope.boot == Some(b),
        crate::lease::opt_text(b.ipxe_url) == Some(url),
        req.user_class == Some(raw),
        spec_user_class_has_ipxe(raw),
        no_raw(scope, 67),
    ensures
        spec_apply_scope_options(m, req, scope, lease_secs).opts.contains_key(67),
        spec_apply_scope_options(m, req, scope, lease_secs).opts[67] == OptView::BootfileName(utf8(url)),
        utf8(url).len() <= 128 ==> spec_apply_scope_options(m, req, scope, lease_secs).fname == Some(utf8(url)),
{
    lemma_scope_options_unfold(m, req, scope, lease_secs);
    assert(spec_boot_client_of(req) == BootClient::Ipxe);
    assert(spec_file_for(b, BootClient::Ipxe) == Some(url));
    let w = with_boot(m, req, scope, lease_secs);
    assert(w.opts.contains_key(67) && w.opts[67] == OptView::BootfileName(utf8(url)));
    lemma_put_raw_keeps(w.opts, scope.extra_options@, 67);
}

/// A scope with DNS servers hands the whole list out as option 6 in every
/// reply it fills, an OFFER or an ACK alike, unless a raw option of the
/// scope overrides option 6.
pub proof fn law_dns_servers_are_handed_out(
    req: RequestView,
    scope: Scope,
    ctx: RecvCtx,
    kind: MessageType,
    ciaddr: u32,
    ip: u32,
    source: AllocSource,
    lease_secs: u32,
    m: ReplyView,
)
    requires
        scope.dns@.len() > 0,
        no_raw(scope, 6),
    ensures
        spec_apply_scope_options(m, req, scope, lease_secs).opts.contains_key(6),
        spec_apply_scope_options(m, req, scope, lease_secs).opts[6] == OptView::DomainNameServer(scope.dns@),
        spec_grant(scope, req, ctx, kind, ciaddr, ip, source, lease_secs) matches OutcomeView::Reply(g)
            && g.msg.opts.contains_key(6) && g.msg.opts[6] == OptView::DomainNameServer(scope.dns@),
{
    lemma_scope_option_at(m, req, scope, lease_secs, 6);
    let base = ReplyView { yiaddr: ip, ciaddr, ..spec_base_reply(req, kind, ctx.server_ip) };
    lemma_scope_option_at(base, req, scope, lease_secs, 6);
}

/// The lease time granted is the one the client asked for (option 51),
/// capped by the scope's: the smaller of the two; without option 51, the
/// scope's.
pub proof fn law_granted_lease_time(req: RequestView, scope: Scope)
    ensures
        req.lease_time matches Some(secs) ==> {
            let r = spec_requested_lease_secs(req, scope);
            &&& r <= secs
            &&& r <= scope.lease_secs
            &&& (r == secs || r == scope.lease_secs)
        },
        req.lease_time is None ==> spec_requested_lease_secs(req, scope) == scope.lease_secs,
{
}

/// A reply filled for a lease of `lease_secs` says so in option 51, with
/// T1 at half of it and T2 at seven eighths, unless raw options of the
/// scope override them.
pub proof fn law_reply_states_the_lease_time(m: ReplyView, req: RequestView, scope: Scope, lease_secs: u32)
    requires
        no_raw(scope, 51),
        no_raw(scope, 58),
        no_raw(scope, 59),
    ensures
        spec_apply_scope_options(m, req, scope, lease_secs).opts.contains_key(51),
        spec_apply_scope_options(m, req, scope, lease_secs).opts[51] == OptView::AddressLeaseTime(lease_secs),
        spec_apply_scope_options(m, req, scope, lease_secs).opts[58] == OptView::Renewal((lease_secs / 2) as u32),
        spec_apply_scope_options(m, req, scope, lease_secs).opts[59] == OptView::Rebinding(
            (lease_secs / 8 * 7) as u32,
        ),
{
    lemma_scope_option_at(m, req, scope, lease_secs, 51);
    lemma_scope_option_at(m, req, scope, lease_secs, 58);
    lemma_scope_option_at(m, req, scope, lease_secs, 59);
}

} // verus!
