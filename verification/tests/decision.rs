//! How packets are decided: each RFC 2131 rule that is easy to get wrong.

use lessor::addr::{ipv4, ClientId, MacAddr, Range};
use lessor::lease::{Lease, LeaseState};
use lessor::message::{DhcpOpt, MessageType, Opcode, Request, ReplyMsg};
use lessor::scope::{Reservation, Scope, ScopeId};
use lessor::server::{handle, DropReason, RecvCtx, ReplyDest, ServerConfig};
use lessor::store::{LeaseStore, MemoryStore};

const SID: ScopeId = ScopeId(1);

fn server() -> u32 {
    ipv4(192, 168, 88, 1)
}

fn ip(d: u8) -> u32 {
    ipv4(192, 168, 88, d)
}

fn mac(n: u8) -> [u8; 6] {
    [0xac, 0x1f, 0x6b, 0, 0, n]
}

fn lab_scope() -> Scope {
    let mut s = Scope::new(1, "lab", ipv4(192, 168, 88, 0), 24);
    s.pools = vec![Range::new(ip(10), ip(12)).unwrap()];
    s.router = Some(server());
    s.dns = vec![ipv4(223, 5, 5, 5)];
    s.lease_secs = 3600;
    s.offer_secs = 30;
    s.decline_quarantine_secs = 600;
    s
}

fn cfg() -> ServerConfig {
    ServerConfig::new(vec![lab_scope()])
}

fn ctx(now: u64) -> RecvCtx {
    RecvCtx { now, server_ip: server() }
}

/// A client's request with the broadcast flag set.
fn req(kind: MessageType, client: u8) -> Request {
    let mut m = Request::new(0xDEAD_BEEF, &mac(client));
    m.flags = 0x8000;
    m.msg_type = Some(kind);
    m
}

fn msg_type(m: &ReplyMsg) -> MessageType {
    match m.opt(53) {
        Some(DhcpOpt::MessageType(t)) => t,
        _ => panic!("应答必须带 option 53"),
    }
}

fn opt_u32(m: &ReplyMsg, code: u8) -> Option<u32> {
    match m.opt(code) {
        Some(DhcpOpt::AddressLeaseTime(v)) => Some(v),
        Some(DhcpOpt::Renewal(v)) => Some(v),
        Some(DhcpOpt::Rebinding(v)) => Some(v),
        _ => None,
    }
}

fn bound(ip_addr: u32, client: u8, expires: u64) -> Lease {
    Lease {
        ip: ip_addr,
        client: ClientId::Mac(MacAddr(mac(client))),
        scope_id: SID,
        state: LeaseState::Bound,
        expires_at: expires,
        hostname: None,
        vendor_class: None,
        created_at: 0,
        last_seen: 0,
    }
}

// ---------- DISCOVER ----------

#[test]
fn discover_gets_offer_with_scope_options() {
    let (c, mut t) = (cfg(), MemoryStore::new());
    let out = handle(&c, &mut t, &req(MessageType::Discover, 1), ctx(100));
    let r = out.reply().expect("应当回 OFFER");

    assert_eq!(msg_type(&r.msg), MessageType::Offer);
    assert_eq!(r.msg.yiaddr, ip(10));
    assert_eq!(r.msg.opcode(), Opcode::BootReply);
    assert_eq!(r.msg.xid, 0xDEAD_BEEF, "xid 必须原样带回");
    assert_eq!(r.scope_id, SID);
    assert_eq!(r.msg.opt(1), Some(DhcpOpt::SubnetMask(ipv4(255, 255, 255, 0))));
    assert_eq!(r.msg.opt(3), Some(DhcpOpt::Router(vec![server()])));
    assert_eq!(opt_u32(&r.msg, 51), Some(3600));
    assert_eq!(opt_u32(&r.msg, 58), Some(1800), "T1 = 一半");
    assert_eq!(opt_u32(&r.msg, 59), Some(3150), "T2 = 7/8");
}

#[test]
fn offer_is_a_short_lived_placeholder() {
    let (c, mut t) = (cfg(), MemoryStore::new());
    handle(&c, &mut t, &req(MessageType::Discover, 1), ctx(100));

    let l = t.get_by_ip(SID, ip(10)).expect("OFFER 应当占位");
    assert_eq!(l.state, LeaseState::Offered);
    assert_eq!(l.expires_at, 130, "占位只保留 offer_secs，不是整个租期");
}

#[test]
fn concurrent_discovers_get_different_addresses() {
    let (c, mut t) = (cfg(), MemoryStore::new());
    let a = handle(&c, &mut t, &req(MessageType::Discover, 1), ctx(0));
    let b = handle(&c, &mut t, &req(MessageType::Discover, 2), ctx(0));
    assert_ne!(a.reply().unwrap().msg.yiaddr, b.reply().unwrap().msg.yiaddr, "占位机制必须防止重复分配");
}

#[test]
fn pool_exhaustion_is_silent_not_nak() {
    let (c, mut t) = (cfg(), MemoryStore::new());
    for i in 1..=3 {
        handle(&c, &mut t, &req(MessageType::Discover, i), ctx(0));
    }
    let out = handle(&c, &mut t, &req(MessageType::Discover, 9), ctx(0));
    assert_eq!(out.drop_reason(), Some(DropReason::PoolExhausted), "池满时应沉默，让客户端去问别的服务器");
}

// ---------- REQUEST ----------

fn request_selecting(client: u8, want: u32, server: u32) -> Request {
    let mut m = req(MessageType::Request, client);
    m.requested_ip = Some(want);
    m.server_id = Some(server);
    m
}

#[test]
fn request_selecting_us_gets_ack_and_binds() {
    let (c, mut t) = (cfg(), MemoryStore::new());
    handle(&c, &mut t, &req(MessageType::Discover, 1), ctx(0));
    let out = handle(&c, &mut t, &request_selecting(1, ip(10), server()), ctx(0));
    let r = out.reply().expect("应当回 ACK");

    assert_eq!(msg_type(&r.msg), MessageType::Ack);
    assert_eq!(r.msg.yiaddr, ip(10));
    let l = t.get_by_ip(SID, ip(10)).unwrap();
    assert_eq!(l.state, LeaseState::Bound);
    assert_eq!(l.expires_at, 3600);
}

#[test]
fn request_selecting_another_server_releases_our_offer() {
    let (c, mut t) = (cfg(), MemoryStore::new());
    handle(&c, &mut t, &req(MessageType::Discover, 1), ctx(0));
    assert!(t.get_by_ip(SID, ip(10)).is_some());

    let other = ipv4(192, 168, 88, 254);
    let out = handle(&c, &mut t, &request_selecting(1, ip(10), other), ctx(0));

    assert_eq!(out.drop_reason(), Some(DropReason::ChoseAnotherServer));
    assert!(t.get_by_ip(SID, ip(10)).is_none(), "占位必须释放，否则地址会被白白占住");
}

#[test]
fn request_for_foreign_subnet_gets_nak() {
    let (c, mut t) = (cfg(), MemoryStore::new());
    // The address is not on this subnet, though the packet came in on it.
    let mut m = req(MessageType::Request, 1);
    m.requested_ip = Some(ipv4(10, 9, 9, 9));
    m.server_id = Some(server());

    let out = handle(&c, &mut t, &m, ctx(0));
    let r = out.reply().expect("应当回 NAK");
    assert_eq!(msg_type(&r.msg), MessageType::Nak);
    assert_eq!(r.msg.yiaddr, 0, "NAK 的 yiaddr 必须为 0");
    assert_eq!(r.dest, ReplyDest::Broadcast, "NAK 必须广播");
}

#[test]
fn request_for_someone_elses_address_gets_nak() {
    let (c, mut t) = (cfg(), MemoryStore::new());
    t.insert(bound(ip(10), 1, 9999));
    let out = handle(&c, &mut t, &request_selecting(2, ip(10), server()), ctx(0));
    assert_eq!(msg_type(&out.reply().expect("应当回 NAK").msg), MessageType::Nak);
}

#[test]
fn renewing_via_ciaddr_gets_ack_and_unicast() {
    let (c, mut t) = (cfg(), MemoryStore::new());
    t.insert(bound(ip(11), 1, 1000));

    // RENEWING: no option 50 or 54, the address in ciaddr.
    let mut m = req(MessageType::Request, 1);
    m.ciaddr = ip(11);
    m.flags = 0;

    let out = handle(&c, &mut t, &m, ctx(500));
    let r = out.reply().expect("应当回 ACK");
    assert_eq!(msg_type(&r.msg), MessageType::Ack);
    assert_eq!(r.msg.yiaddr, ip(11));
    assert_eq!(r.dest, ReplyDest::Unicast(ip(11)), "续租应单播回客户端");
    assert_eq!(t.get_by_ip(SID, ip(11)).unwrap().expires_at, 500 + 3600);
}

#[test]
fn renewal_preserves_the_original_created_at() {
    let (c, mut t) = (cfg(), MemoryStore::new());
    let mut l = bound(ip(11), 1, 1000);
    l.created_at = 42;
    t.insert(l);

    let mut m = req(MessageType::Request, 1);
    m.ciaddr = ip(11);
    handle(&c, &mut t, &m, ctx(500));

    let l = t.get_by_ip(SID, ip(11)).unwrap();
    assert_eq!(l.created_at, 42, "首次分配时间不该被续租重置");
    assert_eq!(l.last_seen, 500);
}

#[test]
fn request_without_address_information_gets_nak() {
    let (c, mut t) = (cfg(), MemoryStore::new());
    let out = handle(&c, &mut t, &req(MessageType::Request, 1), ctx(0));
    assert_eq!(msg_type(&out.reply().expect("应当回 NAK").msg), MessageType::Nak);
}

#[test]
fn client_requested_lease_is_capped_by_scope() {
    let (c, mut t) = (cfg(), MemoryStore::new());
    let mut m = request_selecting(1, ip(10), server());
    m.lease_time = Some(86400);
    let out = handle(&c, &mut t, &m, ctx(0));
    assert_eq!(opt_u32(&out.reply().unwrap().msg, 51), Some(3600), "客户端不能要到超过作用域上限的租期");
}

// ---------- DECLINE / RELEASE ----------

#[test]
fn decline_quarantines_the_address() {
    let (c, mut t) = (cfg(), MemoryStore::new());
    let mut m = req(MessageType::Decline, 1);
    m.requested_ip = Some(ip(10));

    let out = handle(&c, &mut t, &m, ctx(100));
    assert!(out.reply().is_none(), "DECLINE 不需要回应");

    let l = t.get_by_ip(SID, ip(10)).unwrap();
    assert_eq!(l.state, LeaseState::Declined);
    assert_eq!(l.expires_at, 700, "隔离到 now + decline_quarantine_secs");

    // Not handed out again while quarantined.
    let out = handle(&c, &mut t, &req(MessageType::Discover, 2), ctx(100));
    assert_eq!(out.reply().unwrap().msg.yiaddr, ip(11));
}

#[test]
fn release_frees_the_lease() {
    let (c, mut t) = (cfg(), MemoryStore::new());
    t.insert(bound(ip(10), 1, 9999));

    let mut m = req(MessageType::Release, 1);
    m.ciaddr = ip(10);
    handle(&c, &mut t, &m, ctx(0));
    assert!(t.get_by_ip(SID, ip(10)).is_none());
}

#[test]
fn release_from_wrong_client_is_ignored() {
    let (c, mut t) = (cfg(), MemoryStore::new());
    t.insert(bound(ip(10), 1, 9999));

    // Client 2 tries to give back client 1's address.
    let mut m = req(MessageType::Release, 2);
    m.ciaddr = ip(10);
    let out = handle(&c, &mut t, &m, ctx(0));

    assert_eq!(out.drop_reason(), Some(DropReason::ReleaseNotOwned));
    assert!(t.get_by_ip(SID, ip(10)).is_some(), "伪造的 RELEASE 不能清掉别人的租约");
}

// ---------- INFORM ----------

#[test]
fn inform_returns_options_without_a_lease() {
    let (c, mut t) = (cfg(), MemoryStore::new());
    let mut m = req(MessageType::Inform, 1);
    m.ciaddr = ipv4(192, 168, 88, 77);

    let out = handle(&c, &mut t, &m, ctx(0));
    let r = out.reply().expect("应当回 ACK");
    assert_eq!(msg_type(&r.msg), MessageType::Ack);
    assert_eq!(r.msg.yiaddr, 0, "INFORM 不分配地址");
    assert!(r.msg.opt(51).is_none(), "INFORM 的应答不能带租期");
    assert!(r.msg.opt(1).is_some());
    assert!(t.is_empty(), "INFORM 不应产生租约");
}

// ---------- client identity ----------

#[test]
fn option_61_takes_precedence_over_chaddr() {
    let (c, mut t) = (cfg(), MemoryStore::new());

    // The same option 61 behind different chaddrs is one client (firmware
    // and operating system often differ).
    let id = vec![0xff, 1, 2, 3, 4];
    let mut a = req(MessageType::Discover, 1);
    a.client_ident = Some(id.clone());
    let mut b = req(MessageType::Discover, 99);
    b.client_ident = Some(id);

    let ra = handle(&c, &mut t, &a, ctx(0));
    let rb = handle(&c, &mut t, &b, ctx(0));
    assert_eq!(ra.reply().unwrap().msg.yiaddr, rb.reply().unwrap().msg.yiaddr, "同一 option 61 应拿到同一地址");
    assert_eq!(t.len(), 1);
}

#[test]
fn client_with_neither_mac_nor_option_61_is_dropped() {
    let (c, mut t) = (cfg(), MemoryStore::new());
    let mut m = Request::new(0, &[0u8; 6]);
    m.msg_type = Some(MessageType::Discover);

    let out = handle(&c, &mut t, &m, ctx(0));
    assert_eq!(out.drop_reason(), Some(DropReason::UnidentifiableClient));
}

#[test]
fn vendor_class_is_recorded_on_the_lease() {
    let (c, mut t) = (cfg(), MemoryStore::new());
    let mut m = req(MessageType::Discover, 1);
    m.class_id = Some(b"PXEClient:Arch:00007:UNDI:003016".to_vec());

    handle(&c, &mut t, &m, ctx(0));
    let l = t.get_by_ip(SID, ip(10)).unwrap();
    assert_eq!(l.vendor_class.as_deref(), Some("PXEClient:Arch:00007:UNDI:003016"));
    assert!(l.is_pxe(), "应能识别出这是 PXE 客户端");
}

// ---------- reservations ----------

#[test]
fn reservation_is_honoured_end_to_end() {
    let mut s = lab_scope();
    s.reservations = vec![Reservation {
        client: ClientId::Mac(MacAddr(mac(7))),
        ip: ip(12),
        hostname: Some("bmc-07".into()),
    }];
    let c = ServerConfig::new(vec![s]);
    let mut t = MemoryStore::new();

    let out = handle(&c, &mut t, &req(MessageType::Discover, 7), ctx(0));
    assert_eq!(out.reply().unwrap().msg.yiaddr, ip(12));

    let out = handle(&c, &mut t, &request_selecting(7, ip(12), server()), ctx(0));
    assert_eq!(msg_type(&out.reply().unwrap().msg), MessageType::Ack);
}

// ---------- several scopes ----------

fn two_scope_cfg() -> ServerConfig {
    let mut a = lab_scope(); // 192.168.88.0/24, id 1
    a.name = "net-a".into();

    let mut b = Scope::new(2, "net-b", ipv4(10, 20, 0, 0), 24);
    b.pools = vec![Range::new(ipv4(10, 20, 0, 50), ipv4(10, 20, 0, 60)).unwrap()];
    b.router = Some(ipv4(10, 20, 0, 1));

    ServerConfig::new(vec![a, b])
}

#[test]
fn scope_is_selected_by_the_receiving_interface() {
    let (c, mut t) = (two_scope_cfg(), MemoryStore::new());

    let out = handle(&c, &mut t, &req(MessageType::Discover, 1), ctx(0));
    let r = out.reply().unwrap();
    assert_eq!(r.scope_id, ScopeId(1));
    assert_eq!(r.msg.yiaddr, ip(10));

    // Received on the other interface: the other scope.
    let out = handle(&c, &mut t, &req(MessageType::Discover, 2), RecvCtx { now: 0, server_ip: ipv4(10, 20, 0, 1) });
    let r = out.reply().unwrap();
    assert_eq!(r.scope_id, ScopeId(2));
    assert_eq!(r.msg.yiaddr, ipv4(10, 20, 0, 50));
}

#[test]
fn relayed_request_selects_scope_by_giaddr_and_replies_to_relay() {
    let (c, mut t) = (two_scope_cfg(), MemoryStore::new());
    let relay = ipv4(10, 20, 0, 1);

    // In on the 88 network's interface, but giaddr points at 10.20.
    let mut m = req(MessageType::Discover, 1);
    m.giaddr = relay;

    let out = handle(&c, &mut t, &m, ctx(0));
    let r = out.reply().unwrap();
    assert_eq!(r.scope_id, ScopeId(2), "跨网段时必须按 giaddr 选作用域");
    assert_eq!(r.msg.yiaddr, ipv4(10, 20, 0, 50));
    assert_eq!(r.dest, ReplyDest::Relay(relay));
    assert_eq!(r.msg.giaddr, relay, "giaddr 必须原样带回");
}

#[test]
fn request_from_an_unknown_network_is_dropped() {
    let (c, mut t) = (two_scope_cfg(), MemoryStore::new());
    let out = handle(&c, &mut t, &req(MessageType::Discover, 1), RecvCtx { now: 0, server_ip: ipv4(172, 16, 9, 1) });
    assert_eq!(out.drop_reason(), Some(DropReason::NoMatchingScope));
}

#[test]
fn a_disabled_scope_serves_nobody() {
    let mut s = lab_scope();
    s.enabled = false;
    let c = ServerConfig::new(vec![s]);
    let mut t = MemoryStore::new();

    let out = handle(&c, &mut t, &req(MessageType::Discover, 1), ctx(0));
    assert_eq!(out.drop_reason(), Some(DropReason::ScopeDisabled));
    assert!(t.is_empty(), "禁用的作用域不应产生任何租约");
}

#[test]
fn leases_carry_the_scope_that_issued_them() {
    let (c, mut t) = (two_scope_cfg(), MemoryStore::new());
    handle(&c, &mut t, &req(MessageType::Discover, 1), ctx(0));
    handle(&c, &mut t, &req(MessageType::Discover, 2), RecvCtx { now: 0, server_ip: ipv4(10, 20, 0, 1) });

    assert_eq!(t.get_by_ip(ScopeId(1), ip(10)).unwrap().scope_id, ScopeId(1));
    assert_eq!(t.get_by_ip(ScopeId(2), ipv4(10, 20, 0, 50)).unwrap().scope_id, ScopeId(2));
    assert_eq!(t.len(), 2);
}

// ---------- malformed packets ----------

#[test]
fn message_without_option_53_is_ignored() {
    let (c, mut t) = (cfg(), MemoryStore::new());
    let m = Request::new(0, &mac(1));
    assert_eq!(handle(&c, &mut t, &m, ctx(0)).drop_reason(), Some(DropReason::NoMessageType));
}

#[test]
fn bootreply_from_a_rogue_is_ignored() {
    let (c, mut t) = (cfg(), MemoryStore::new());
    let mut m = req(MessageType::Discover, 1);
    m.opcode = Opcode::BootReply;
    assert_eq!(handle(&c, &mut t, &m, ctx(0)).drop_reason(), Some(DropReason::NotBootRequest));
}

#[test]
fn server_side_message_types_are_not_processed() {
    let (c, mut t) = (cfg(), MemoryStore::new());
    for kind in [MessageType::Offer, MessageType::Ack, MessageType::Nak] {
        let out = handle(&c, &mut t, &req(kind, 1), ctx(0));
        assert_eq!(out.drop_reason(), Some(DropReason::UnsupportedType));
    }
}
