//! Finding devices that were given static addresses.
//!
//! DHCP only sees machines that ask for an address. The other half of what
//! turns up on a rack is configured already (second-hand, set up by someone
//! else, or by yourself last time and forgotten): it never asks, however long
//! one waits. Three complementary ways find those, none of which needs a
//! capture driver or a raw socket: IPMI's RMCP presence ping, a UDP probe that
//! makes the system resolve each address followed by a look at the neighbour
//! table, and the neighbour table as it already stands.
//!
//! The packets and the bookkeeping are here; sending, receiving and waiting
//! are the caller's part.

use std::collections::BTreeMap;

use vstd::prelude::*;
use vstd::std_specs::iter::IteratorSpec;

use crate::addr::MacAddr;
use crate::lease::opt_text;
use crate::neighbor::Neighbor;
use crate::net::Ipv4Cidr;
use crate::parse::{push_hex_num, push_str, spec_hex_num};
use crate::scope::{netmask_of, spec_netmask};
use crate::text::string_from_chars;

verus! {

/// How a device was found.
#[derive(Clone, Copy, Debug, PartialEq, Eq, Structural)]
pub enum Method {
    /// It answered IPMI's RMCP presence ping.
    Rmcp,
    /// It showed up in the neighbour table after the UDP probe.
    Probed,
    /// It was in the neighbour table already: it had spoken on its own.
    Neighbor,
}

// ---------- RMCP presence ping ----------

/// The IPMI-over-LAN port.
pub const PORT: u16 = 623;

/// ASF's IANA enterprise number, 4542.
pub const ASF_IANA: u32 = 0x11BE;

pub const RMCP_VERSION_1_0: u8 = 0x06;

pub const RMCP_CLASS_ASF: u8 = 0x06;

/// Sequence number 255: no acknowledgement wanted.
pub const RMCP_SEQ_NO_ACK: u8 = 0xFF;

pub const ASF_PRESENCE_PING: u8 = 0x80;

pub const ASF_PRESENCE_PONG: u8 = 0x40;

/// The twelve bytes of a presence ping carrying `tag`.
pub open spec fn spec_ping(tag: u8) -> Seq<u8> {
    seq![0x06u8, 0x00u8, 0xFFu8, 0x06u8, 0x00u8, 0x00u8, 0x11u8, 0xBEu8, 0x80u8, tag, 0x00u8, 0x00u8]
}

/// A presence ping (ASF 2.0, 3.2.4.2): the RMCP header, ASF's enterprise
/// number, the ping type, `tag` (which pairs the answer with the question),
/// and no data.
pub fn ping(tag: u8) -> (r: [u8; 12])
    ensures
        r@ == spec_ping(tag),
{
    let r = [
        RMCP_VERSION_1_0,
        0x00,
        RMCP_SEQ_NO_ACK,
        RMCP_CLASS_ASF,
        0x00,
        0x00,
        0x11,
        0xBE,
        ASF_PRESENCE_PING,
        tag,
        0x00,
        0x00,
    ];
    proof {
        assert(r@ =~= spec_ping(tag));
    }
    r
}

/// What a presence pong says.
#[derive(Clone, Copy, Debug, PartialEq, Eq, Structural)]
pub struct Pong {
    pub tag: u8,
    /// The device's IANA enterprise number: 0x11BE for a plain ASF
    /// implementation, otherwise usually the vendor's own.
    pub oem_iana: u32,
    /// Whether it supports IPMI: the bit that tells a BMC.
    pub supports_ipmi: bool,
}

/// The big-endian number in the four bytes of `b` from `i` on.
pub open spec fn be32(b: Seq<u8>, i: int) -> u32 {
    (b[i] as int * 0x1000000 + b[i + 1] as int * 0x10000 + b[i + 2] as int * 0x100 + b[i + 3] as int) as u32
}

pub(crate) fn read_be32(b: &[u8], i: usize) -> (r: u32)
    requires
        i + 4 <= b@.len(),
    ensures
        r == be32(b@, i as int),
{
    (b[i] as u32) * 0x1000000 + (b[i + 1] as u32) * 0x10000 + (b[i + 2] as u32) * 0x100 + (b[i + 3] as u32)
}

/// The pong in `b`, if it is one: at least 28 bytes (RMCP header, ASF header,
/// sixteen bytes of data), RMCP 1.0 of class ASF, ASF's enterprise number,
/// the pong type. The data holds the OEM number first, and in its ninth byte
/// the supported entities, whose top bit means IPMI.
pub open spec fn spec_parse_pong(b: Seq<u8>) -> Option<Pong> {
    if b.len() < 28 || b[0] != 0x06 || b[3] != 0x06 || be32(b, 4) != 0x11BE || b[8] != 0x40 {
        None
    } else {
        Some(Pong { tag: b[9], oem_iana: be32(b, 12), supports_ipmi: (b[20] & 0x80u8) != 0 })
    }
}

/// Reads a possible pong; anything else is `None`.
pub fn parse_pong(buf: &[u8]) -> (r: Option<Pong>)
    ensures
        r == spec_parse_pong(buf@),
{
    if buf.len() < 28 {
        return None;
    }
    if buf[0] != RMCP_VERSION_1_0 || buf[3] != RMCP_CLASS_ASF {
        return None;
    }
    if read_be32(buf, 4) != ASF_IANA {
        return None;
    }
    if buf[8] != ASF_PRESENCE_PONG {
        return None;
    }
    Some(Pong { tag: buf[9], oem_iana: read_be32(buf, 12), supports_ipmi: buf[20] & 0x80 != 0 })
}

/// One device that answered the ping.
#[derive(Clone, Copy, Debug, PartialEq, Eq, Structural)]
pub struct Responder {
    pub addr: u32,
    pub pong: Pong,
}

/// Whether some responder in `found` has the address `addr`.
pub open spec fn answered(found: Seq<Responder>, addr: u32) -> bool {
    exists|k: int| 0 <= k < found.len() && #[trigger] found[k].addr == addr
}

/// The answers after a packet `buf` came from `addr`: a pong carrying our
/// `tag` from an address not heard from yet is added; anything else (not a
/// pong, another prober's tag, a repeat) changes nothing.
pub open spec fn spec_after_reply(found: Seq<Responder>, tag: u8, addr: u32, buf: Seq<u8>) -> Seq<Responder> {
    match spec_parse_pong(buf) {
        Some(p) => if p.tag == tag && !answered(found, addr) {
            found.push(Responder { addr, pong: p })
        } else {
            found
        },
        None => found,
    }
}

/// Takes in one packet received during a ping sweep.
pub fn take_reply(found: &mut Vec<Responder>, tag: u8, addr: u32, buf: &[u8])
    ensures
        final(found)@ == spec_after_reply(old(found)@, tag, addr, buf@),
{
    let pong = match parse_pong(buf) {
        Some(p) => p,
        None => return,
    };
    if pong.tag != tag {
        return;
    }
    let mut k: usize = 0;
    while k < found.len()
        invariant
            0 <= k <= found@.len(),
            found@ == old(found)@,
            forall|j: int| 0 <= j < k ==> #[trigger] found@[j].addr != addr,
        decreases found@.len() - k,
    {
        if found[k].addr == addr {
            return;
        }
        k = k + 1;
    }
    found.push(Responder { addr, pong });
}

// ---------- probing for another DHCP server ----------

/// `n` zero bytes.
pub open spec fn zeros(n: nat) -> Seq<u8> {
    Seq::new(n, |i: int| 0u8)
}

/// The four big-endian bytes of `x`.
pub open spec fn be_bytes(x: u32) -> Seq<u8> {
    seq![(x / 0x1000000) as u8, (x / 0x10000 % 0x100) as u8, (x / 0x100 % 0x100) as u8, (x % 0x100) as u8]
}

/// A minimal DHCPDISCOVER: BOOTREQUEST over Ethernet, our `xid`, the
/// broadcast flag, the hardware address padded to sixteen bytes, empty
/// server name and file, the magic cookie, option 53 = DISCOVER and the end
/// mark. No option 55: what matters is whether anyone answers, not what.
pub open spec fn spec_dhcp_discover(xid: u32, mac: Seq<u8>) -> Seq<u8> {
    seq![1u8, 1u8, 6u8, 0u8] + be_bytes(xid) + seq![0u8, 0u8, 0x80u8, 0u8] + zeros(16) + mac + zeros(10)
        + zeros(192) + seq![0x63u8, 0x82u8, 0x53u8, 0x63u8, 53u8, 1u8, 1u8, 0xffu8]
}

pub(crate) fn push_zeros(p: &mut Vec<u8>, n: usize)
    ensures
        final(p)@ == old(p)@ + zeros(n as nat),
{
    let ghost start = p@;
    let mut k: usize = 0;
    while k < n
        invariant
            0 <= k <= n,
            p@ == start + zeros(k as nat),
        decreases n - k,
    {
        p.push(0);
        k = k + 1;
        proof {
            assert(p@ =~= start + zeros(k as nat));
        }
    }
}

/// Builds the DHCPDISCOVER that asks whether another DHCP server is on the
/// segment.
pub fn dhcp_discover(xid: u32, mac: [u8; 6]) -> (r: Vec<u8>)
    ensures
        r@ == spec_dhcp_discover(xid, mac@),
{
    let mut p: Vec<u8> = Vec::with_capacity(300);
    p.push(1);
    p.push(1);
    p.push(6);
    p.push(0);
    p.push((xid / 0x1000000) as u8);
    p.push((xid / 0x10000 % 0x100) as u8);
    p.push((xid / 0x100 % 0x100) as u8);
    p.push((xid % 0x100) as u8);
    p.push(0);
    p.push(0);
    p.push(0x80);
    p.push(0);
    push_zeros(&mut p, 16);
    let ghost before_mac = p@;
    let mut k: usize = 0;
    while k < 6
        invariant
            0 <= k <= 6,
            p@ == before_mac + mac@.take(k as int),
        decreases 6 - k,
    {
        p.push(mac[k]);
        k = k + 1;
        proof {
            assert(p@ =~= before_mac + mac@.take(k as int));
        }
    }
    proof {
        assert(mac@.take(6) =~= mac@);
    }
    push_zeros(&mut p, 10);
    push_zeros(&mut p, 192);
    p.push(0x63);
    p.push(0x82);
    p.push(0x53);
    p.push(0x63);
    p.push(53);
    p.push(1);
    p.push(1);
    p.push(0xff);
    proof {
        assert(p@ =~= spec_dhcp_discover(xid, mac@));
    }
    p
}

/// Whether the options from `i` on hold option 53 with OFFER (2) or ACK (5)
/// before the end mark: pad bytes are skipped one at a time, other options
/// by their length; an option cut short ends the search.
pub open spec fn offer_or_ack_from(b: Seq<u8>, i: int) -> bool
    decreases b.len() - i,
{
    if i < 0 || i >= b.len() || b[i] == 0xff {
        false
    } else if b[i] == 0 {
        offer_or_ack_from(b, i + 1)
    } else if i + 1 >= b.len() {
        false
    } else if b[i] == 53 {
        i + 2 < b.len() && (b[i + 2] == 2 || b[i + 2] == 5)
    } else if i + 2 + b[i + 1] >= b.len() {
        false
    } else {
        offer_or_ack_from(b, i + 2 + b[i + 1])
    }
}

/// Whether `buf` answers our probe: a BOOTREPLY of at least 241 bytes with
/// our `xid` and the magic cookie, whose message type is OFFER or ACK.
pub open spec fn spec_is_dhcp_reply_to(b: Seq<u8>, xid: u32) -> bool {
    &&& b.len() >= 241
    &&& b[0] == 2
    &&& be32(b, 4) == xid
    &&& b[236] == 0x63 && b[237] == 0x82 && b[238] == 0x53 && b[239] == 0x63
    &&& offer_or_ack_from(b, 240)
}

/// Whether this packet is an answer (OFFER or ACK, with our `xid`) to the
/// probe.
pub fn is_dhcp_reply_to(buf: &[u8], xid: u32) -> (r: bool)
    ensures
        r == spec_is_dhcp_reply_to(buf@, xid),
{
    if buf.len() < 241 || buf[0] != 2 {
        return false;
    }
    if read_be32(buf, 4) != xid {
        return false;
    }
    if !(buf[236] == 0x63 && buf[237] == 0x82 && buf[238] == 0x53 && buf[239] == 0x63) {
        return false;
    }
    let mut i: usize = 240;
    while i < buf.len() && buf[i] != 0xff
        invariant
            240 <= i,
            spec_is_dhcp_reply_to(buf@, xid) == offer_or_ack_from(buf@, i as int),
        decreases buf@.len() - i,
    {
        if buf[i] == 0 {
            i = i + 1;
            continue;
        }
        if i + 1 >= buf.len() {
            return false;
        }
        let len = buf[i + 1] as usize;
        if buf[i] == 53 {
            proof {
                assert(offer_or_ack_from(buf@, i as int) == (i + 2 < buf@.len() && (buf@[i + 2] == 2
                    || buf@[i + 2] == 5)));
            }
            if i + 2 < buf.len() {
                return buf[i + 2] == 2 || buf[i + 2] == 5;
            }
            return false;
        }
        if len + 2 >= buf.len() - i {
            return false;
        }
        i = i + 2 + len;
    }
    false
}

// ---------- the segment ----------

/// The host addresses of a network: everything strictly between the network
/// and the broadcast address, in order.
pub open spec fn spec_hosts(c: Ipv4Cidr) -> Seq<u32> {
    let mask = spec_netmask(c.prefix);
    let net = c.addr & mask;
    let bcast = net | !mask;
    if bcast as int <= net as int + 1 {
        Seq::empty()
    } else {
        Seq::new((bcast - net - 1) as nat, |k: int| (net + 1 + k) as u32)
    }
}

/// How many host addresses the network has.
pub fn host_count(c: Ipv4Cidr) -> (r: u32)
    ensures
        r == spec_hosts(c).len(),
{
    let mask = netmask_of(c.prefix);
    let net = c.addr & mask;
    let bcast = net | !mask;
    if bcast as u64 <= net as u64 + 1 {
        0
    } else {
        bcast - net - 1
    }
}

/// The host addresses of `c`'s network.
pub fn hosts(c: Ipv4Cidr) -> (r: Vec<u32>)
    ensures
        r@ == spec_hosts(c),
{
    let mask = netmask_of(c.prefix);
    let net = c.addr & mask;
    let bcast = net | !mask;
    let mut out: Vec<u32> = Vec::new();
    if bcast as u64 <= net as u64 + 1 {
        return out;
    }
    let mut ip: u32 = net + 1;
    while ip < bcast
        invariant
            net as int + 1 <= ip <= bcast,
            out@ == Seq::new((ip - net - 1) as nat, |k: int| (net + 1 + k) as u32),
        decreases bcast - ip,
    {
        out.push(ip);
        ip = ip + 1;
        proof {
            assert(out@ =~= Seq::new((ip - net - 1) as nat, |k: int| (net + 1 + k) as u32));
        }
    }
    out
}

/// The broadcast address of `c`'s network.
pub open spec fn spec_broadcast_of(c: Ipv4Cidr) -> u32 {
    (c.addr & spec_netmask(c.prefix)) | !spec_netmask(c.prefix)
}

pub fn broadcast_of(c: Ipv4Cidr) -> (r: u32)
    ensures
        r == spec_broadcast_of(c),
{
    let mask = netmask_of(c.prefix);
    (c.addr & mask) | !mask
}

// ---------- a scan ----------

/// How a scan goes.
#[derive(Clone, Copy, Debug, PartialEq, Eq, Structural)]
pub struct Options {
    /// The network to search: usually an address of one of our interfaces.
    pub on: Ipv4Cidr,
    /// How long each round waits for answers, in milliseconds.
    pub wait_ms: u64,
    /// Whether to probe every address of the network one by one. A /24 is
    /// 254 packets, quickly sent; the cost grows with the network, hence the
    /// switch.
    pub sweep: bool,
    /// Networks with more addresses than this are not probed one by one, so
    /// that a large network is not swept by mistake.
    pub sweep_limit: u32,
}

impl Options {
    /// Sweeping on, one and a half seconds per round, at most 1024 addresses.
    pub fn new(on: Ipv4Cidr) -> (r: Options)
        ensures
            r == (Options { on, wait_ms: 1500, sweep: true, sweep_limit: 1024 }),
    {
        Options { on, wait_ms: 1500, sweep: true, sweep_limit: 1024 }
    }
}

/// Whether the network is swept address by address: sweeping is on and the
/// network is no larger than the limit.
pub open spec fn spec_sweeps(o: Options) -> bool {
    o.sweep && spec_hosts(o.on).len() <= o.sweep_limit
}

pub fn sweeps(o: &Options) -> (r: bool)
    ensures
        r == spec_sweeps(*o),
{
    o.sweep && host_count(o.on) <= o.sweep_limit
}

pub open spec fn not_own(own: u32) -> spec_fn(u32) -> bool {
    |x: u32| x != own
}

/// The addresses of `v` other than `own`, in order.
pub open spec fn others(v: Seq<u32>, own: u32) -> Seq<u32> {
    v.filter(not_own(own))
}

fn without(v: &Vec<u32>, own: u32) -> (r: Vec<u32>)
    ensures
        r@ == others(v@, own),
{
    let mut out: Vec<u32> = Vec::new();
    let mut k: usize = 0;
    while k < v.len()
        invariant
            0 <= k <= v@.len(),
            out@ == others(v@.take(k as int), own),
        decreases v@.len() - k,
    {
        proof {
            assert(v@.take(k + 1).drop_last() =~= v@.take(k as int));
        }
        if v[k] != own {
            out.push(v[k]);
        }
        proof {
            assert(v@.take(k + 1) =~= v@.take(k as int).push(v@[k as int]));
            v@.take(k as int).lemma_filter_push(v@[k as int], not_own(own));
        }
        k = k + 1;
    }
    proof {
        assert(v@.take(v@.len() as int) =~= v@);
    }
    out
}

/// Where the presence ping goes: the broadcast address, and when the network
/// is swept every other host too (many BMCs answer only unicast).
pub open spec fn spec_ping_targets(o: Options) -> Seq<u32> {
    seq![spec_broadcast_of(o.on)] + if spec_sweeps(o) {
        others(spec_hosts(o.on), o.on.addr)
    } else {
        Seq::empty()
    }
}

pub fn ping_targets(o: &Options) -> (r: Vec<u32>)
    ensures
        r@ == spec_ping_targets(*o),
{
    let mut out: Vec<u32> = Vec::new();
    out.push(broadcast_of(o.on));
    if sweeps(o) {
        let hs = hosts(o.on);
        let mut rest = without(&hs, o.on.addr);
        out.append(&mut rest);
    }
    proof {
        assert(out@ =~= spec_ping_targets(*o));
    }
    out
}

/// Where the UDP probe goes when the network is swept: every host but
/// ourselves.
pub fn probe_targets(o: &Options) -> (r: Vec<u32>)
    ensures
        r@ == others(spec_hosts(o.on), o.on.addr),
{
    let hs = hosts(o.on);
    without(&hs, o.on.addr)
}

/// What a ping answer says of the device: IPMI, or the vendor's number.
pub open spec fn spec_pong_note(p: Pong) -> Seq<char> {
    if p.supports_ipmi {
        "回应 IPMI/RMCP"@
    } else {
        "回应 RMCP（OEM 0x"@ + spec_hex_num(p.oem_iana as nat) + "）"@
    }
}

pub fn pong_note(p: Pong) -> (r: String)
    ensures
        r@ == spec_pong_note(p),
{
    let mut out: Vec<char> = Vec::new();
    if p.supports_ipmi {
        push_str(&mut out, "回应 IPMI/RMCP");
    } else {
        push_str(&mut out, "回应 RMCP（OEM 0x");
        push_hex_num(&mut out, p.oem_iana as u64);
        push_str(&mut out, "）");
    }
    string_from_chars(out.as_slice())
}

/// A device found.
#[derive(Debug)]
pub struct Device {
    pub ip: u32,
    pub mac: Option<MacAddr>,
    /// Every way it was found.
    pub via: Vec<Method>,
    /// It answered the ping and claims IPMI: almost surely a BMC.
    pub is_bmc: bool,
    pub note: Option<String>,
}

pub struct DeviceView {
    pub ip: u32,
    pub mac: Option<MacAddr>,
    pub via: Seq<Method>,
    pub is_bmc: bool,
    pub note: Option<Seq<char>>,
}

impl View for Device {
    type V = DeviceView;

    open spec fn view(&self) -> DeviceView {
        DeviceView { ip: self.ip, mac: self.mac, via: self.via@, is_bmc: self.is_bmc, note: opt_text(self.note) }
    }
}

pub open spec fn device_views(v: Seq<Device>) -> Seq<DeviceView> {
    v.map_values(|d: Device| d@)
}

/// A device seen once more: the first hardware address and the first note
/// stay, each way of finding it is listed once, and a BMC stays a BMC.
pub open spec fn merged(e: DeviceView, mac: Option<MacAddr>, via: Method, bmc: bool, note: Option<Seq<char>>) -> DeviceView {
    DeviceView {
        ip: e.ip,
        mac: if e.mac is None { mac } else { e.mac },
        via: if e.via.contains(via) { e.via } else { e.via.push(via) },
        is_bmc: e.is_bmc || bmc,
        note: if e.note is None { note } else { e.note },
    }
}

/// A device not seen before.
pub open spec fn fresh(ip: u32) -> DeviceView {
    DeviceView { ip, mac: None, via: Seq::empty(), is_bmc: false, note: None }
}

pub open spec fn unique_ips(s: Seq<DeviceView>) -> bool {
    forall|i: int, j: int| 0 <= i < j < s.len() ==> s[i].ip != s[j].ip
}

/// The devices found so far, by address.
pub type DevMap = Map<u32, DeviceView>;

/// The findings after one more sighting.
pub open spec fn spec_add(m: DevMap, ip: u32, mac: Option<MacAddr>, via: Method, bmc: bool, note: Option<Seq<char>>) -> DevMap {
    let e = if m.contains_key(ip) { m[ip] } else { fresh(ip) };
    m.insert(ip, merged(e, mac, via, bmc, note))
}

/// Whether `d` is one of the devices of `m`.
pub open spec fn found_in(m: DevMap, d: DeviceView) -> bool {
    exists|ip: u32| m.contains_key(ip) && #[trigger] m[ip] == d
}

/// What a scan has found so far, one entry per address.
pub struct Findings {
    devices: BTreeMap<u32, Device>,
}

impl View for Findings {
    type V = DevMap;

    closed spec fn view(&self) -> DevMap {
        self.devices@.map_values(|d: Device| d@)
    }
}

fn copy_methods(v: &Vec<Method>) -> (r: Vec<Method>)
    ensures
        r@ == v@,
{
    let mut out: Vec<Method> = Vec::new();
    let mut k: usize = 0;
    while k < v.len()
        invariant
            0 <= k <= v@.len(),
            out@ == v@.take(k as int),
        decreases v@.len() - k,
    {
        out.push(v[k]);
        k = k + 1;
        proof {
            assert(out@ =~= v@.take(k as int));
        }
    }
    proof {
        assert(v@.take(v@.len() as int) =~= v@);
    }
    out
}

fn has_method(v: &Vec<Method>, m: Method) -> (r: bool)
    ensures
        r == v@.contains(m),
{
    let mut k: usize = 0;
    while k < v.len()
        invariant
            0 <= k <= v@.len(),
            forall|j: int| 0 <= j < k ==> v@[j] != m,
        decreases v@.len() - k,
    {
        if v[k] == m {
            return true;
        }
        k = k + 1;
    }
    false
}

impl Findings {
    /// Each device is filed under its own address.
    pub open spec fn wf(&self) -> bool {
        forall|ip: u32| #[trigger] self@.contains_key(ip) ==> self@[ip].ip == ip
    }

    pub fn new() -> (r: Findings)
        ensures
            r.wf(),
            r@ == Map::<u32, DeviceView>::empty(),
    {
        let r = Findings { devices: BTreeMap::new() };
        proof {
            assert(r@ =~= Map::<u32, DeviceView>::empty());
        }
        r
    }

    /// Records one sighting of the device at `ip`.
    pub fn add(&mut self, ip: u32, mac: Option<MacAddr>, via: Method, bmc: bool, note: Option<String>)
        requires
            old(self).wf(),
        ensures
            final(self).wf(),
            final(self)@ == spec_add(old(self)@, ip, mac, via, bmc, opt_text(note)),
    {
        let ghost s = self@;
        let d = match self.devices.get(&ip) {
            Some(old_dev) => {
                let new_mac = if old_dev.mac.is_none() { mac } else { old_dev.mac };
                let mut new_via = copy_methods(&old_dev.via);
                if !has_method(&old_dev.via, via) {
                    new_via.push(via);
                }
                let new_note = if old_dev.note.is_none() { note } else { crate::lease::clone_opt_string(&old_dev.note) };
                Device { ip, mac: new_mac, via: new_via, is_bmc: old_dev.is_bmc || bmc, note: new_note }
            },
            None => {
                let mut v: Vec<Method> = Vec::new();
                v.push(via);
                proof {
                    assert(Seq::<Method>::empty().push(via) =~= seq![via]);
                }
                Device { ip, mac, via: v, is_bmc: bmc, note }
            },
        };
        self.devices.insert(ip, d);
        proof {
            assert(self@ =~= spec_add(s, ip, mac, via, bmc, opt_text(note)));
        }
    }
}

/// The findings after the neighbour table as it stood before probing: every
/// neighbour but ourselves, found by having spoken.
pub open spec fn spec_add_known(s: DevMap, before: Seq<Neighbor>, own: u32) -> DevMap
    decreases before.len(),
{
    if before.len() == 0 {
        s
    } else {
        let s1 = spec_add_known(s, before.drop_last(), own);
        let n = before.last();
        if n.ip != own {
            spec_add(s1, n.ip, Some(n.mac), Method::Neighbor, false, None)
        } else {
            s1
        }
    }
}

/// The findings after the ping's answers: each responder, a BMC when it
/// claims IPMI, with what its answer says.
pub open spec fn spec_add_responders(s: DevMap, rs: Seq<Responder>) -> DevMap
    decreases rs.len(),
{
    if rs.len() == 0 {
        s
    } else {
        let s1 = spec_add_responders(s, rs.drop_last());
        let r = rs.last();
        spec_add(s1, r.addr, None, Method::Rmcp, r.pong.supports_ipmi, Some(spec_pong_note(r.pong)))
    }
}

pub open spec fn listed(v: Seq<Neighbor>, ip: u32) -> bool {
    exists|k: int| 0 <= k < v.len() && #[trigger] v[k].ip == ip
}

/// The findings after the neighbour table as it stands after probing:
/// every neighbour but ourselves, found by the probe unless it was listed
/// before.
pub open spec fn spec_add_after_probe(s: DevMap, before: Seq<Neighbor>, after: Seq<Neighbor>, own: u32) -> DevMap
    decreases after.len(),
{
    if after.len() == 0 {
        s
    } else {
        let s1 = spec_add_after_probe(s, before, after.drop_last(), own);
        let n = after.last();
        if n.ip == own {
            s1
        } else {
            spec_add(s1, n.ip, Some(n.mac), if listed(before, n.ip) { Method::Neighbor } else { Method::Probed }, false, None)
        }
    }
}

/// The order of the result: BMCs first, then by address.
pub open spec fn key_lt(a: DeviceView, b: DeviceView) -> bool {
    (a.is_bmc && !b.is_bmc) || (a.is_bmc == b.is_bmc && a.ip < b.ip)
}

pub open spec fn sorted_by_key(s: Seq<DeviceView>) -> bool {
    forall|i: int, j: int| 0 <= i < j < s.len() ==> key_lt(s[i], s[j])
}

fn device_lt(a: &Device, b: &Device) -> (r: bool)
    ensures
        r == key_lt(a@, b@),
{
    (a.is_bmc && !b.is_bmc) || (a.is_bmc == b.is_bmc && a.ip < b.ip)
}

fn is_listed(v: &Vec<Neighbor>, ip: u32) -> (r: bool)
    ensures
        r == listed(v@, ip),
{
    let mut k: usize = 0;
    while k < v.len()
        invariant
            0 <= k <= v@.len(),
            forall|j: int| 0 <= j < k ==> #[trigger] v@[j].ip != ip,
        decreases v@.len() - k,
    {
        if v[k].ip == ip {
            return true;
        }
        k = k + 1;
    }
    false
}

impl Findings {
    /// Takes in the neighbour table as it stood before probing.
    pub fn add_known(&mut self, before: &Vec<Neighbor>, own: u32)
        requires
            old(self).wf(),
        ensures
            final(self).wf(),
            final(self)@ == spec_add_known(old(self)@, before@, own),
    {
        let ghost s = self@;
        let mut k: usize = 0;
        while k < before.len()
            invariant
                0 <= k <= before@.len(),
                self.wf(),
                self@ == spec_add_known(s, before@.take(k as int), own),
            decreases before@.len() - k,
        {
            proof {
                assert(before@.take(k + 1).drop_last() =~= before@.take(k as int));
            }
            let n = before[k];
            if n.ip != own {
                self.add(n.ip, Some(n.mac), Method::Neighbor, false, None);
            }
            k = k + 1;
        }
        proof {
            assert(before@.take(before@.len() as int) =~= before@);
        }
    }

    /// Takes in the answers to the ping.
    pub fn add_responders(&mut self, rs: &Vec<Responder>)
        requires
            old(self).wf(),
        ensures
            final(self).wf(),
            final(self)@ == spec_add_responders(old(self)@, rs@),
    {
        let ghost s = self@;
        let mut k: usize = 0;
        while k < rs.len()
            invariant
                0 <= k <= rs@.len(),
                self.wf(),
                self@ == spec_add_responders(s, rs@.take(k as int)),
            decreases rs@.len() - k,
        {
            proof {
                assert(rs@.take(k + 1).drop_last() =~= rs@.take(k as int));
            }
            let r = rs[k];
            let note = pong_note(r.pong);
            self.add(r.addr, None, Method::Rmcp, r.pong.supports_ipmi, Some(note));
            k = k + 1;
        }
        proof {
            assert(rs@.take(rs@.len() as int) =~= rs@);
        }
    }

    /// Takes in the neighbour table as it stands after probing, `before`
    /// being the table as it stood before.
    pub fn add_after_probe(&mut self, before: &Vec<Neighbor>, after: &Vec<Neighbor>, own: u32)
        requires
            old(self).wf(),
        ensures
            final(self).wf(),
            final(self)@ == spec_add_after_probe(old(self)@, before@, after@, own),
    {
        let ghost s = self@;
        let mut k: usize = 0;
        while k < after.len()
            invariant
                0 <= k <= after@.len(),
                self.wf(),
                self@ == spec_add_after_probe(s, before@, after@.take(k as int), own),
            decreases after@.len() - k,
        {
            proof {
                assert(after@.take(k + 1).drop_last() =~= after@.take(k as int));
            }
            let n = after[k];
            if n.ip != own {
                let via = if is_listed(before, n.ip) { Method::Neighbor } else { Method::Probed };
                self.add(n.ip, Some(n.mac), via, false, None);
            }
            k = k + 1;
        }
        proof {
            assert(after@.take(after@.len() as int) =~= after@);
        }
    }

    /// The devices found, BMCs first, then by address.
    pub fn into_devices(self) -> (r: Vec<Device>)
        requires
            self.wf(),
        ensures
            sorted_by_key(device_views(r@)),
            device_views(r@).len() == self@.len(),
            forall|d: DeviceView| #[trigger] device_views(r@).contains(d) <==> found_in(self@, d),
    {
        let ghost m = self@;
        let mut map = self.devices;
        let ghost ks = vstd::std_specs::btree::spec_keys_iter(&map).remaining();
        let mut ips: Vec<u32> = Vec::new();
        proof {
            assert(m.dom() =~= map@.dom());
        }
        for u in it: map.keys()
            invariant
                it.seq() == ks,
                ks.unref().to_set() == m.dom(),
                ks.no_duplicates(),
                ks.len() == m.dom().len(),
                ips@.len() == it.index(),
                forall|j: int| 0 <= j < it.index() ==> ips@[j] == *ks[j],
        {
            ips.push(*u);
        }
        proof {
            assert(ips@ =~= ks.unref());
            assert forall|a: int, b: int| 0 <= a < ips@.len() && 0 <= b < ips@.len() && a != b implies ips@[a]
                != ips@[b] by {
                assert(ks[a] != ks[b]);
            }
        }
        let mut src: Vec<Device> = Vec::new();
        let mut i: usize = 0;
        while i < ips.len()
            invariant
                0 <= i <= ips@.len(),
                ips@.to_set() == m.dom(),
                ips@.no_duplicates(),
                ips@.len() == m.dom().len(),
                forall|ip: u32| #[trigger] m.contains_key(ip) ==> m[ip].ip == ip,
                forall|j: int| i <= j < ips@.len() ==> map@.contains_key(#[trigger] ips@[j]) && map@[ips@[j]]@ == m[ips@[j]],
                src@.len() == i,
                forall|t: int| 0 <= t < i ==> (#[trigger] src@[t])@ == m[ips@[t]],
            decreases ips@.len() - i,
        {
            let k = ips[i];
            proof {
                assert forall|j: int| i < j < ips@.len() implies ips@[j] != k by {
                }
            }
            match map.remove(&k) {
                Some(d) => {
                    src.push(d);
                },
                None => {},
            }
            i = i + 1;
        }
        proof {
            let v = device_views(src@);
            assert forall|a: int, b: int| 0 <= a < b < v.len() implies v[a].ip != v[b].ip by {
                assert(ips@.to_set().contains(ips@[a]));
                assert(ips@.to_set().contains(ips@[b]));
                assert(v[a] == m[ips@[a]]);
                assert(v[b] == m[ips@[b]]);
            }
            assert forall|d: DeviceView| #[trigger] v.contains(d) <==> found_in(m, d) by {
                if v.contains(d) {
                    let t = choose|t: int| 0 <= t < v.len() && v[t] == d;
                    assert(ips@.to_set().contains(ips@[t]));
                    assert(m.contains_key(ips@[t]) && m[ips@[t]] == d);
                }
                if found_in(m, d) {
                    let ip = choose|ip: u32| m.contains_key(ip) && #[trigger] m[ip] == d;
                    assert(ips@.to_set().contains(ip));
                    assert(ips@.contains(ip));
                    let t = choose|t: int| 0 <= t < ips@.len() && ips@[t] == ip;
                    assert(v[t] == d);
                }
            }
        }
        sort_devices(src)
    }
}

/// `src` in the order BMCs first, then by address.
fn sort_devices(src: Vec<Device>) -> (r: Vec<Device>)
    requires
        unique_ips(device_views(src@)),
    ensures
        sorted_by_key(device_views(r@)),
        device_views(r@).len() == src@.len(),
        forall|d: DeviceView| #[trigger] device_views(r@).contains(d) <==> device_views(src@).contains(d),
{
    let ghost orig = device_views(src@);
    let mut src = src;
    let mut out: Vec<Device> = Vec::new();
    while src.len() > 0
        invariant
            src@.len() <= orig.len(),
            unique_ips(orig),
            device_views(src@) == orig.take(src@.len() as int),
            out@.len() == orig.len() - src@.len(),
            sorted_by_key(device_views(out@)),
            forall|d: DeviceView| #[trigger] device_views(out@).contains(d) <==> orig.skip(src@.len() as int).contains(d),
        decreases src@.len(),
    {
        let ghost n = src@.len() as int;
        let ghost old_src = src@;
        let d = src.pop().unwrap();
        proof {
            assert(d == old_src[n - 1]);
            assert(device_views(old_src)[n - 1] == orig.take(n)[n - 1]);
            assert(d@ == orig[n - 1]);
            assert(device_views(src@) =~= orig.take(n - 1));
        }
        let mut p: usize = 0;
        while p < out.len() && !device_lt(&d, &out[p])
            invariant
                0 <= p <= out@.len(),
                forall|j: int| 0 <= j < p ==> !key_lt(d@, #[trigger] device_views(out@)[j]),
            decreases out@.len() - p,
        {
            p = p + 1;
        }
        let ghost before = device_views(out@);
        proof {
            assert(forall|x: DeviceView| before.contains(x) <==> orig.skip(n).contains(x));
            assert forall|j: int| 0 <= j < before.len() implies before[j].ip != d@.ip by {
                assert(before.contains(before[j]));
                assert(orig.skip(n).contains(before[j]));
                let x = choose|x: int| 0 <= x < orig.skip(n).len() && orig.skip(n)[x] == before[j];
                assert(orig[n + x] == before[j]);
                assert(orig[n - 1].ip != orig[n + x].ip);
            }
        }
        out.insert(p, d);
        proof {
            let after = device_views(out@);
            assert(after =~= before.insert(p as int, d@));
            assert forall|i: int, j: int| 0 <= i < j < after.len() implies key_lt(after[i], after[j]) by {
                if j < p {
                } else if j == p {
                    assert(!key_lt(d@, before[i]));
                    assert(before[i].ip != d@.ip);
                } else if i < p {
                    assert(!key_lt(d@, before[i]));
                    assert(before[i].ip != d@.ip);
                    assert(key_lt(before[i], before[j - 1]));
                } else if i == p {
                    if p < before.len() {
                        assert(key_lt(d@, before[p as int]));
                        if j - 1 > p {
                            assert(key_lt(before[p as int], before[j - 1]));
                        }
                    }
                } else {
                    assert(key_lt(before[i - 1], before[j - 1]));
                }
            }
            let tail = orig.skip(n - 1);
            assert(tail =~= seq![orig[n - 1]] + orig.skip(n));
            assert(tail[0] == d@);
            assert(forall|z: int| 0 <= z < orig.skip(n).len() ==> tail[z + 1] == orig.skip(n)[z]);
            assert forall|x: DeviceView| #[trigger] after.contains(x) <==> orig.skip(n - 1).contains(x) by {
                if after.contains(x) {
                    let y = choose|y: int| 0 <= y < after.len() && after[y] == x;
                    if y < p {
                        assert(before[y] == x);
                        assert(before.contains(x));
                        assert(orig.skip(n).contains(x));
                        let z = choose|z: int| 0 <= z < orig.skip(n).len() && orig.skip(n)[z] == x;
                        assert(tail[z + 1] == x);
                    } else if y > p {
                        assert(before[y - 1] == x);
                        assert(before.contains(x));
                        assert(orig.skip(n).contains(x));
                        let z = choose|z: int| 0 <= z < orig.skip(n).len() && orig.skip(n)[z] == x;
                        assert(tail[z + 1] == x);
                    } else {
                        assert(tail[0] == x);
                    }
                }
                if orig.skip(n - 1).contains(x) {
                    if x != d@ {
                        let z = choose|z: int| 0 <= z < tail.len() && tail[z] == x;
                        assert(z > 0);
                        assert(orig.skip(n)[z - 1] == x);
                        assert(orig.skip(n).contains(x));
                        assert(before.contains(x));
                        let y = choose|y: int| 0 <= y < before.len() && before[y] == x;
                        if y < p {
                            assert(after[y] == x);
                        } else {
                            assert(after[y + 1] == x);
                        }
                    } else {
                        assert(after[p as int] == x);
                    }
                }
            }
        }
    }
    proof {
        assert(orig.skip(0) =~= orig);
    }
    out
}

/// For each target, in order, the neighbour listed with that address, if any.
pub open spec fn spec_occupied_among(targets: Seq<u32>, table: Seq<Neighbor>) -> Seq<(u32, Option<MacAddr>)>
    decreases targets.len(),
{
    if targets.len() == 0 {
        Seq::empty()
    } else {
        let rest = spec_occupied_among(targets.drop_last(), table);
        let ip = targets.last();
        if listed(table, ip) {
            rest.push((ip, Some(table[first_listed(table, ip)].mac)))
        } else {
            rest
        }
    }
}

/// The first position of `ip` in the table.
pub open spec fn first_listed(table: Seq<Neighbor>, ip: u32) -> int {
    choose|k: int| 0 <= k < table.len() && table[k].ip == ip && forall|j: int| 0 <= j < k ==> #[trigger] table[j].ip != ip
}

/// Which of the probed addresses someone answered for, and who: those in
/// the neighbour table after probing. Not being listed does not make an
/// address free: a device may be off or ignore everything but ARP.
pub fn occupied_among(targets: &Vec<u32>, table: &Vec<Neighbor>) -> (r: Vec<(u32, Option<MacAddr>)>)
    ensures
        r@ == spec_occupied_among(targets@, table@),
{
    let mut out: Vec<(u32, Option<MacAddr>)> = Vec::new();
    let mut k: usize = 0;
    while k < targets.len()
        invariant
            0 <= k <= targets@.len(),
            out@ == spec_occupied_among(targets@.take(k as int), table@),
        decreases targets@.len() - k,
    {
        proof {
            assert(targets@.take(k + 1).drop_last() =~= targets@.take(k as int));
        }
        let ip = targets[k];
        let mut j: usize = 0;
        while j < table.len() && table[j].ip != ip
            invariant
                0 <= j <= table@.len(),
                forall|x: int| 0 <= x < j ==> #[trigger] table@[x].ip != ip,
            decreases table@.len() - j,
        {
            j = j + 1;
        }
        if j < table.len() {
            proof {
                assert(listed(table@, ip));
                let f = first_listed(table@, ip);
                assert(f == j) by {
                    if f < j {
                        assert(table@[f].ip != ip);
                    }
                    if f > j {
                        assert(table@[j as int].ip == ip);
                    }
                }
            }
            out.push((ip, Some(table[j].mac)));
        } else {
            proof {
                assert(!listed(table@, ip));
            }
        }
        k = k + 1;
    }
    proof {
        assert(targets@.take(targets@.len() as int) =~= targets@);
    }
    out
}

} // verus!
