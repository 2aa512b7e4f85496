//! The service around the decision layer: its state, the interface's
//! requests, the reports, the self-checks, the service registration and
//! the capture replay.

use lessor::addr::{ipv4, ClientId, MacAddr, Range};
use lessor::api::{authorize, default_wait_ms, discover_options, host_name, new_scope, parse_client, patch_pool, yes};
use lessor::capture::{capture_lines, from_hex, record_item, replay, to_hex, Captured, ReplayItem, Verdict};
use lessor::config::{Config, Listener};
use lessor::conflict::Occupied;
use lessor::daemon::{metrics, probe_candidates, Daemon, ScopePatch};
use lessor::dhcp::{reply_target, rx_is_isolated, Ports};
use lessor::events::{
    alloc_source_text, client_label, drop_reason_text, packet_event, request_label, Counters, Event, PacketEvent, Tally, tally,
};
use lessor::health::{idle_exit_due, idle_secs, quiet_hint, quiet_note};
use lessor::lease::LeaseState;
use lessor::message::{MessageType, Request};
use lessor::net::{Interface, Ipv4Cidr, Platform};
use lessor::records::{client_text, ip_text, parse_client as parse_stored_client, parse_ip, parse_state, state_text};
use lessor::scope::{Reservation, Scope, ScopeId};
use lessor::server::{DropReason, Outcome, ReplyDest};
use lessor::service::{command_failure, install, looks_like_permission_error, privilege_hint, systemd_unit, uninstall};
use lessor::store::{AllocSource, LeaseStore};

// ---------- health ----------

#[test]
fn quiet_hint_names_the_platforms_first_suspect() {
    let h = quiet_hint(Platform::Windows);
    assert!(h.contains("防火墙"), "Windows 上第一嫌疑人是防火墙");
    assert!(h.find("防火墙").unwrap() < h.find("网卡选错").unwrap(), "防火墙要排在网卡之前");
    assert!(h.contains("查："));
    let h = quiet_hint(Platform::Linux);
    assert!(h.contains("ip -4 addr"));
    assert!(h.contains("查："));
}

#[test]
fn quiet_hint_admits_it_might_be_nothing() {
    assert!(quiet_hint(Platform::Windows).contains("这也很正常"));
    assert!(quiet_hint(Platform::Linux).contains("这也很正常"));
}

#[test]
fn quiet_note_speaks_only_after_a_silent_minute() {
    assert_eq!(quiet_note(0, 1000, 970), None);
    assert_eq!(quiet_note(5, 1000, 100), None);
    let n = quiet_note(0, 1000, 900).unwrap();
    assert!(n.starts_with("已监听 100 秒，一个 DHCP 请求都没收到"), "{n}");
}

#[test]
fn idle_exit_counts_from_startup_when_nothing_ever_arrived() {
    // Nothing ever came: counted from startup, so it ends.
    assert_eq!(idle_secs(1000, 0, 900), 100);
    assert!(idle_exit_due(1000, 0, 900, 10));
}

#[test]
fn idle_exit_waits_while_traffic_is_recent() {
    assert!(!idle_exit_due(1000, 999, 0, 3600), "流量还新鲜时不该退出");
    assert_eq!(idle_secs(1000, 1200, 0), 0);
}

// ---------- service registration ----------

#[test]
fn service_permission_errors_are_recognised_in_both_languages() {
    for text in [
        "[SC] OpenSCManager 失败 5:\n\n拒绝访问。",
        "[SC] OpenSCManager FAILED 5:\n\nAccess is denied.",
        "Failed to enable unit: Interactive authentication required",
        "systemctl: Permission denied",
    ] {
        assert!(looks_like_permission_error(text), "应识别为权限问题: {text}");
    }
}

#[test]
fn service_ordinary_failures_are_not_mistaken_for_permission_errors() {
    for text in ["[SC] CreateService 失败 1073: 指定的服务已存在。", "Failed to start lessord.service: Unit not found.", ""] {
        assert!(!looks_like_permission_error(text), "不该识别为权限问题: {text}");
    }
}

#[test]
fn systemd_unit_restarts_on_failure_only() {
    let u = systemd_unit("/usr/bin/lessord", "--config /etc/lessor.json");
    assert!(u.contains("ExecStart=/usr/bin/lessord --config /etc/lessor.json\n"));
    assert!(u.contains("Restart=on-failure\n"));
    assert!(u.contains("AmbientCapabilities=CAP_NET_BIND_SERVICE\n"));
    assert!(u.starts_with("[Unit]\nDescription=lessor DHCP 服务\n"));
}

#[test]
fn registering_plans_per_platform() {
    let args = vec!["--config".to_string(), "/etc/lessor.json".to_string()];
    let plan = install(Platform::Linux, "/usr/bin/lessord", &args).unwrap();
    let (path, unit) = plan.unit_file.unwrap();
    assert_eq!(path, "/etc/systemd/system/lessord.service");
    assert!(unit.contains("ExecStart=/usr/bin/lessord --config /etc/lessor.json"));
    assert_eq!(plan.steps.len(), 3);
    assert_eq!(plan.steps[1].args, vec!["enable", "lessord"]);

    let plan = install(Platform::Windows, "C:\\Program Files\\lessord.exe", &args).unwrap();
    assert!(plan.unit_file.is_none());
    assert_eq!(plan.steps[0].program, "sc.exe");
    assert_eq!(plan.steps[0].args[3], "\"C:\\Program Files\\lessord.exe\" --config /etc/lessor.json");
    assert!(install(Platform::MacOs, "/x", &args).is_err());

    assert_eq!(uninstall(Platform::Windows).unwrap()[1].args, vec!["delete", "lessord"]);
    assert_eq!(uninstall(Platform::Linux).unwrap().len(), 3);
    assert!(uninstall(Platform::Other).is_err());
}

#[test]
fn a_failed_command_says_why() {
    assert_eq!(command_failure(Platform::Linux, "systemctl", "  Unit not found.\n", ""), "systemctl 执行失败：Unit not found.");
    assert_eq!(command_failure(Platform::Linux, "systemctl", "  ", " out "), "systemctl 执行失败：out");
    assert_eq!(command_failure(Platform::Windows, "sc.exe", "拒绝访问。", ""), privilege_hint(Platform::Windows));
    assert!(privilege_hint(Platform::Linux).contains("sudo"));
}

// ---------- records ----------

#[test]
fn stored_texts_read_back() {
    for s in [LeaseState::Offered, LeaseState::Bound, LeaseState::Free, LeaseState::Declined] {
        assert_eq!(parse_state(state_text(s)), s);
    }
    assert_eq!(parse_state("whatever"), LeaseState::Bound);
    let m = ClientId::Mac(MacAddr([0xac, 0x1f, 0x6b, 0x8e, 0, 1]));
    assert_eq!(parse_stored_client(&client_text(&m)), m);
    let o = ClientId::Opt61(vec![0xff, 1, 2]);
    assert_eq!(client_text(&o), "opt61:ff0102");
    assert_eq!(parse_stored_client(&client_text(&o)), o);
    assert_eq!(parse_stored_client("garbage"), ClientId::Opt61(b"garbage".to_vec()));
}

// ---------- the interface's requests ----------

#[test]
fn writes_need_the_token_when_one_is_set() {
    assert!(authorize(None, None));
    assert!(authorize(None, Some("x")));
    assert!(authorize(Some("s3cret"), Some("s3cret")));
    assert!(!authorize(Some("s3cret"), Some("s3cres")));
    assert!(!authorize(Some("s3cret"), Some("s3cret!")));
    assert!(!authorize(Some("s3cret"), None));
}

#[test]
fn host_names_lose_port_and_brackets() {
    assert_eq!(host_name("127.0.0.1:8080"), "127.0.0.1");
    assert_eq!(host_name("[::1]:8080"), "::1");
    assert_eq!(host_name("evil.example"), "evil.example");
    assert_eq!(host_name(""), "");
}

#[test]
fn a_new_scope_follows_the_server_address() {
    let s = new_scope(None, ipv4(192, 168, 88, 1), 24, ipv4(192, 168, 88, 10), ipv4(192, 168, 88, 20), None, vec![], Some(20)).unwrap();
    assert_eq!(s.subnet, ipv4(192, 168, 88, 0));
    assert_eq!(s.name, "新建");
    assert_eq!(s.lease_secs, 20);
    assert_eq!(s.offer_secs, 20);
    assert_eq!(s.pools, vec![Range::new(ipv4(192, 168, 88, 10), ipv4(192, 168, 88, 20)).unwrap()]);
    assert_eq!(new_scope(None, 0, 0, 1, 2, None, vec![], None).err(), Some("前缀长度要在 1-32 之间"));
    assert_eq!(new_scope(None, 0, 24, 2, 1, None, vec![], None).err(), Some("地址池起止顺序不对"));
}

#[test]
fn pools_in_a_change_come_in_pairs() {
    assert_eq!(patch_pool(Some(1), Some(2)), Ok(Some((1, 2))));
    assert_eq!(patch_pool(None, None), Ok(None));
    assert_eq!(patch_pool(Some(1), None), Err("地址池要同时给起止两端"));
}

#[test]
fn client_identities_from_the_interface() {
    assert_eq!(parse_client("ac:1f:6b:8e:00:01"), Some(ClientId::Mac(MacAddr([0xac, 0x1f, 0x6b, 0x8e, 0, 1]))));
    assert_eq!(parse_client("opt61:ff0102"), Some(ClientId::Opt61(vec![0xff, 1, 2])));
    assert_eq!(parse_client("opt61:"), None);
    assert_eq!(parse_client("opt61:abc"), None);
    assert_eq!(parse_client("nonsense"), None);
}

#[test]
fn scans_clamp_their_wait() {
    assert!(yes());
    assert_eq!(default_wait_ms(), 1500);
    let o = discover_options(ipv4(10, 0, 0, 1), 24, true, 50).unwrap();
    assert_eq!(o.wait_ms, 200);
    assert_eq!(discover_options(0, 24, false, 99_999).unwrap().wait_ms, 10_000);
    assert!(discover_options(0, 33, true, 1500).is_err());
}

// ---------- where replies go ----------

#[test]
fn replies_go_where_the_client_can_hear_them() {
    let p = Ports::default();
    assert_eq!(p, Ports { server: 67, client: 68 });
    assert_eq!(reply_target(ReplyDest::Relay(7), p), (7, 67));
    assert_eq!(reply_target(ReplyDest::Unicast(9), p), (9, 68));
    assert_eq!(reply_target(ReplyDest::Broadcast, p), (0xffff_ffff, 68));
    assert_eq!(reply_target(ReplyDest::UnicastYiaddr(9), p), (0xffff_ffff, 68));
    let with = Listener { server_ip: 1, iface: Some("eth0".into()) };
    let without = Listener { server_ip: 1, iface: None };
    assert!(rx_is_isolated(Platform::Linux, &with));
    assert!(!rx_is_isolated(Platform::Linux, &without));
    assert!(rx_is_isolated(Platform::Windows, &without));
    assert!(!rx_is_isolated(Platform::MacOs, &with));
}

// ---------- the probe's record ----------

#[test]
fn unknown_addresses_are_not_treated_as_taken() {
    let occ = Occupied::new();
    assert!(!occ.is_taken(ipv4(192, 168, 1, 10), 0));
}

#[test]
fn recorded_addresses_are_taken() {
    let mut occ = Occupied::new();
    let ip = ipv4(192, 168, 1, 10);
    occ.record(ip, None, 1000);
    assert!(occ.is_taken(ip, 1000));
    assert!(!occ.is_taken(ipv4(192, 168, 1, 11), 1000));
    assert!(!occ.is_taken(ip, 1300), "五分钟后就不算了");
    occ.forget_stale(1300);
    assert!(occ.live(1300).is_empty());
}

#[test]
fn the_blocked_summary_names_three_in_address_order() {
    let mut occ = Occupied::new();
    assert_eq!(occ.blocked_summary(0), "");
    occ.record(ipv4(10, 0, 0, 3), None, 0);
    occ.record(ipv4(10, 0, 0, 1), Some(MacAddr([0xac, 0x1f, 0x6b, 0, 0, 1])), 0);
    assert_eq!(occ.blocked_summary(0), "探测到 10.0.0.1 被 ac:1f:6b:00:00:01 占用、10.0.0.3 已被占用");
    occ.record(ipv4(10, 0, 0, 2), None, 0);
    occ.record(ipv4(10, 0, 0, 4), None, 0);
    assert_eq!(occ.blocked_summary(0), "探测到 4 个地址被静态占用：10.0.0.1 被 ac:1f:6b:00:00:01 占用、10.0.0.2 已被占用、10.0.0.3 已被占用 等");
}

#[test]
fn a_probe_round_skips_leased_and_own_addresses() {
    let poolable: Vec<u32> = (1..=300).collect();
    let c = probe_candidates(&poolable, &vec![2, 4], 1);
    assert_eq!(c.len(), 256);
    assert_eq!(&c[0..3], &[3, 5, 6]);
}

// ---------- the service's state ----------

fn lab() -> Scope {
    let mut s = Scope::new(1, "lab", ipv4(192, 168, 88, 0), 24);
    s.pools = vec![Range::new(ipv4(192, 168, 88, 10), ipv4(192, 168, 88, 12)).unwrap()];
    s
}

fn daemon() -> Daemon {
    Daemon::new(Config { listeners: vec![Listener { server_ip: ipv4(192, 168, 88, 1), iface: None }], scopes: vec![lab()] })
}

fn discover(n: u8) -> Request {
    let mut r = Request::new(7, &[0xac, 0x1f, 0x6b, 0x8e, 0, n]);
    r.msg_type = Some(MessageType::Discover);
    r
}

fn packet_of(evs: &[Event]) -> &PacketEvent {
    match &evs[0] {
        Event::Packet(e) => e,
        other => panic!("the first event is not the packet's: {other:?}"),
    }
}

#[test]
fn handling_a_packet_reports_it() {
    let mut d = daemon();
    let (out, evs) = d.handle_packet(&discover(1), ipv4(192, 168, 88, 1), 100, vec![], "");
    assert_eq!(evs.len(), 2);
    assert!(matches!(evs[1], Event::LeasesChanged));
    let ev = packet_of(&evs);
    assert_eq!(ev.at, 100);
    assert_eq!(out.reply().unwrap().msg.yiaddr, ipv4(192, 168, 88, 10));
    assert_eq!(ev.result, "OFFER");
    assert_eq!(ev.request, "DISCOVER");
    assert_eq!(ev.client, "ac:1f:6b:8e:00:01");
    assert_eq!(ev.ip, Some(ipv4(192, 168, 88, 10)));
    assert_eq!(ev.detail.as_deref(), Some("池分配"));
    assert_eq!(ev.scope_id, Some(ScopeId(1)));
    assert_eq!(tally(&out), Some(Tally::Offers));
    assert_eq!(d.counts, Counters { packets: 1, offers: 1, acks: 0, naks: 0, drops: 0, last_packet_at: 100 });
}

#[test]
fn every_packet_is_counted_by_its_outcome() {
    let mut d = Daemon::new(Config { listeners: vec![], scopes: vec![] });
    assert_eq!(d.counts, Counters::new());
    let (out, evs) = d.handle_packet(&discover(1), ipv4(192, 168, 88, 1), 77, vec![], "");
    assert_eq!(out.drop_reason(), Some(DropReason::NoMatchingScope));
    assert_eq!(evs.len(), 1, "a dropped packet changes no lease");
    assert_eq!(packet_of(&evs).at, 77);
    assert_eq!(d.counts, Counters { packets: 1, offers: 0, acks: 0, naks: 0, drops: 1, last_packet_at: 77 });
    let mut d = daemon();
    let _ = d.handle_packet(&discover(1), ipv4(192, 168, 88, 1), 100, vec![], "");
    assert!(d.revoke(ScopeId(1), ipv4(192, 168, 88, 10)));
    assert_eq!(d.counts.packets, 1, "revoking counts no packet");
}

#[test]
fn probed_addresses_are_skipped_and_named_when_the_pool_runs_out() {
    let mut d = daemon();
    let taken = vec![ipv4(192, 168, 88, 10), ipv4(192, 168, 88, 11), ipv4(192, 168, 88, 12)];
    let (out, evs) = d.handle_packet(&discover(1), ipv4(192, 168, 88, 1), 100, taken, "探测到 3 个地址");
    assert_eq!(out.drop_reason(), Some(DropReason::PoolExhausted));
    let ev = packet_of(&evs);
    assert_eq!(ev.result, "DROP");
    assert_eq!(ev.detail.as_deref(), Some("地址池已耗尽（探测到 3 个地址）"));
    let (out, _) = d.handle_packet(&discover(1), ipv4(192, 168, 88, 1), 100, vec![ipv4(192, 168, 88, 10)], "");
    assert_eq!(out.reply().unwrap().msg.yiaddr, ipv4(192, 168, 88, 11));
}

#[test]
fn labels_and_texts() {
    assert_eq!(drop_reason_text(DropReason::NoMatchingScope), "该网段没有配置作用域");
    assert_eq!(alloc_source_text(AllocSource::Reservation), "静态保留");
    let mut r = discover(1);
    r.msg_type = Some(MessageType::Unknown(10));
    assert_eq!(request_label(&r), "LEASEQUERY");
    r.msg_type = Some(MessageType::Unknown(200));
    assert_eq!(request_label(&r), "UNKNOWN(200)");
    r.msg_type = None;
    assert_eq!(request_label(&r), "?");
    let anonymous = Request::new(1, &[0; 6]);
    assert_eq!(client_label(&anonymous), "?");
    let ev = packet_event(&anonymous, &Outcome::Drop(DropReason::NoMessageType), 5, "x");
    assert_eq!(ev.detail.as_deref(), Some("缺少 option 53"));
    let mut c = Counters::new();
    c.count(&Outcome::Drop(DropReason::NoMessageType), 42);
    assert_eq!(Counters::get(&c.packets), 1);
    assert_eq!(Counters::get(&c.drops), 1);
    assert_eq!(Counters::get(&c.last_packet_at), 42);
    let mut top = u64::MAX;
    Counters::bump(&mut top);
    assert_eq!(top, 0, "a count wraps at the top");
}

fn iface(name: &str, addr: u32) -> Interface {
    Interface {
        name: name.into(),
        index: Some(2),
        mac: None,
        ipv4: vec![Ipv4Cidr { addr, prefix: 24 }],
        is_loopback: false,
        has_address: true,
    }
}

#[test]
fn a_new_scope_gets_the_next_id_and_a_listener_when_needed() {
    let mut d = daemon();
    let mut s = Scope::new(0, "b", ipv4(10, 20, 0, 0), 24);
    s.pools = vec![Range::new(ipv4(10, 20, 0, 50), ipv4(10, 20, 0, 60)).unwrap()];
    let (id, l) = d.add_scope(s, Some(vec![iface("eth1", ipv4(10, 20, 0, 1))]), Platform::Linux).unwrap();
    assert_eq!(id, ScopeId(2));
    let l = l.unwrap();
    assert_eq!(l.server_ip, ipv4(10, 20, 0, 1));
    assert_eq!(l.iface.as_deref(), Some("eth1"));
    assert_eq!(d.listeners.len(), 2);
    assert_eq!(d.server.scopes.len(), 2);
}

#[test]
fn a_scope_this_host_cannot_serve_is_refused_with_every_reason() {
    let mut d = daemon();
    let mut s = Scope::new(0, "far", ipv4(172, 16, 0, 0), 24);
    s.pools = vec![Range::new(ipv4(172, 16, 0, 10), ipv4(172, 16, 0, 20)).unwrap()];
    let problems = d.add_scope(s, Some(vec![]), Platform::Linux).unwrap_err();
    assert_eq!(problems, vec!["本机没有落在 172.16.0.0/24 里的地址 —— 建了作用域也收不到这个网段的请求".to_string()]);
    assert_eq!(d.server.scopes.len(), 1);

    let clash = lab();
    let problems = d.add_scope(clash, None, Platform::Linux).unwrap_err();
    assert_eq!(problems, vec!["与已有作用域「lab」抢同一个监听器地址".to_string()]);
}

#[test]
fn patching_a_scope_is_all_or_nothing() {
    let mut d = daemon();
    let bad = ScopePatch { pool: Some((ipv4(192, 168, 88, 20), ipv4(192, 168, 88, 10))), ..Default::default() };
    assert_eq!(d.patch_scope(ScopeId(1), bad), Err(vec!["地址池起止顺序不对".to_string()]));
    let invalid = ScopePatch { name: Some("renamed".into()), router: Some(Some(ipv4(10, 0, 0, 1))), ..Default::default() };
    assert!(d.patch_scope(ScopeId(1), invalid).is_err());
    assert_eq!(d.server.scopes[0].name, "lab", "校验失败不能留下半改的状态");
    let good = ScopePatch { name: Some("renamed".into()), lease_secs: Some(10), ..Default::default() };
    assert_eq!(d.patch_scope(ScopeId(1), good), Ok(()));
    assert_eq!(d.server.scopes[0].name, "renamed");
    assert_eq!(d.server.scopes[0].offer_secs, 10);
    assert_eq!(d.patch_scope(ScopeId(9), ScopePatch::default()), Err(vec!["没有 scope#9 这个作用域".to_string()]));
}

#[test]
fn reservations_replace_and_evict() {
    let mut d = daemon();
    let who = ClientId::Mac(MacAddr([0xac, 0x1f, 0x6b, 0x8e, 0, 7]));
    // Client 1 gets .10 dynamically; a reservation of .10 for client 7 evicts it.
    d.handle_packet(&discover(1), ipv4(192, 168, 88, 1), 100, vec![], "");
    let r = Reservation { client: who.clone(), ip: ipv4(192, 168, 88, 10), hostname: None };
    assert_eq!(d.add_reservation(ScopeId(1), r), Ok(true));
    assert!(d.store.get_by_ip(ScopeId(1), ipv4(192, 168, 88, 10)).is_none());
    let again = Reservation { client: who.clone(), ip: ipv4(192, 168, 88, 11), hostname: None };
    assert_eq!(d.add_reservation(ScopeId(1), again), Ok(false));
    assert_eq!(d.server.scopes[0].reservations.len(), 1, "同一个客户端只保留一条");
    assert_eq!(d.server.scopes[0].reservations[0].ip, ipv4(192, 168, 88, 11));
    assert_eq!(d.remove_reservation(ScopeId(1), &who), Ok(true));
    assert_eq!(d.remove_reservation(ScopeId(1), &who), Ok(false));
}

#[test]
fn removing_a_scope_takes_its_leases_along() {
    let mut d = daemon();
    d.handle_packet(&discover(1), ipv4(192, 168, 88, 1), 100, vec![], "");
    assert_eq!(d.remove_scope(ScopeId(1)), Ok(1));
    assert!(d.server.scopes.is_empty());
    assert_eq!(d.listeners.len(), 1, "监听器留着不动");
    assert_eq!(d.remove_scope(ScopeId(1)), Err("没有 scope#1 这个作用域".to_string()));
}

#[test]
fn status_and_metrics() {
    let mut d = daemon();
    d.handle_packet(&discover(1), ipv4(192, 168, 88, 1), 100, vec![], "");
    let st = d.scope_status(100);
    assert_eq!(st[0].capacity, 3);
    assert_eq!(st[0].used, 1);
    assert_eq!(st[0].server_ip, Some(ipv4(192, 168, 88, 1)));
    let m = metrics(1, 1, 0, 0, 0, 30, &st);
    assert!(m.starts_with("# HELP lessor_packets_total 收到并处理的 DHCP 报文数\n# TYPE lessor_packets_total counter\nlessor_packets_total 1\n"));
    assert!(m.contains("lessor_uptime_seconds 30\n"));
    assert!(m.contains("lessor_scope_capacity{scope=\"lab\"} 3\n"));
    assert!(m.contains("lessor_scope_used{scope=\"lab\"} 1\n"));
    assert!(d.revoke(ScopeId(1), ipv4(192, 168, 88, 10)));
    assert!(!d.revoke(ScopeId(1), ipv4(192, 168, 88, 10)));
    assert_eq!(d.leased_ips(ScopeId(1)), Vec::<u32>::new());
}

// ---------- capture ----------

#[test]
fn hex_reads_back() {
    assert_eq!(to_hex(&[1, 1, 6, 0, 0xde]), "01010600de");
    assert_eq!(from_hex("01010600de"), Some(vec![1, 1, 6, 0, 0xde]));
    assert_eq!(from_hex("abc"), None);
    assert_eq!(from_hex("zz"), None);
    assert_eq!(from_hex(""), Some(vec![]));
}

fn captured(hex: &str) -> Captured {
    Captured { at: 1_700_000_000, from: "0.0.0.0:68".into(), listener: "192.168.88.1".into(), hex: hex.into() }
}

fn quick_scope() -> Scope {
    let mut s = Scope::new(1, "lab", ipv4(192, 168, 88, 0), 24);
    s.pools = vec![Range::new(ipv4(192, 168, 88, 100), ipv4(192, 168, 88, 110)).unwrap()];
    s
}

/// A minimal but valid DISCOVER.
fn discover_bytes() -> Vec<u8> {
    let mut p = vec![1, 1, 6, 0];
    p.extend_from_slice(&0xABCD_1234u32.to_be_bytes());
    p.extend_from_slice(&[0, 0, 0x80, 0]);
    p.extend_from_slice(&[0; 16]);
    p.extend_from_slice(&[0xac, 0x1f, 0x6b, 0x8e, 0, 1]);
    p.extend_from_slice(&[0; 10]);
    p.extend_from_slice(&[0; 192]);
    p.extend_from_slice(&[0x63, 0x82, 0x53, 0x63]);
    p.extend_from_slice(&[53, 1, 1, 0xff]);
    p
}

#[test]
fn captured_packets_replay_through_the_real_decision_layer() {
    let items = vec![(1, record_item(captured(&to_hex(&discover_bytes()))))];
    let out = replay(vec![quick_scope()], &items);
    assert_eq!(out.len(), 1);
    match &out[0].1 {
        Verdict::Decided(s) => {
            assert!(s.contains("OFFER"), "应当给出 OFFER，实际是：{s}");
            assert!(s.contains("ac:1f:6b:8e:00:01"), "应当带上客户端标识：{s}");
            assert_eq!(s, "ac:1f:6b:8e:00:01 DISCOVER → OFFER 192.168.88.100");
        }
        v => panic!("应当能决策，实际是 {v:?}"),
    }
}

#[test]
fn undecodable_packets_are_reported_not_skipped() {
    let items = vec![
        (1, record_item(captured("01010600de"))),
        (3, record_item(captured("0g"))),
        (4, ReplayItem::NotARecord("expected value".into())),
    ];
    let out = replay(vec![quick_scope()], &items);
    assert_eq!(out.len(), 3);
    match &out[0].1 {
        Verdict::Undecodable(s) => {
            assert!(s.contains("01010600de"), "要带上原始字节：{s}");
            assert_eq!(s, "parser ran out of data-- not enough bytes —— 5 字节：01010600de");
        }
        v => panic!("应当报告为无法解码，实际是 {v:?}"),
    }
    assert_eq!(out[1], (3, Verdict::Undecodable("hex 字段不是合法的十六进制".into())));
    assert_eq!(out[2], (4, Verdict::Undecodable("这一行不是捕获记录：expected value".into())));
}

#[test]
fn replay_takes_pre_decoded_requests_as_they_are() {
    let mut req = Request::new(0xABCD_1234, &[0xac, 0x1f, 0x6b, 0x8e, 0, 1]);
    req.flags = 0x8000;
    req.msg_type = Some(MessageType::Discover);
    let items = vec![
        (1, ReplayItem::Record { rec: captured("0101"), decoded: Ok(req) }),
        (2, ReplayItem::Record { rec: captured("01010600de"), decoded: Err("buffer too short".into()) }),
    ];
    let out = replay(vec![quick_scope()], &items);
    assert_eq!(out[0], (1, Verdict::Decided("ac:1f:6b:8e:00:01 DISCOVER → OFFER 192.168.88.100".into())));
    assert_eq!(out[1], (2, Verdict::Undecodable("buffer too short —— 5 字节：01010600de".into())));
}

#[test]
fn a_record_keeps_its_fields_and_decodes_its_bytes() {
    match record_item(captured(&to_hex(&discover_bytes()))) {
        ReplayItem::Record { rec, decoded } => {
            assert_eq!(rec.at, 1_700_000_000);
            assert_eq!(rec.listener, "192.168.88.1");
            let q = decoded.unwrap();
            assert_eq!(q.xid, 0xABCD_1234);
            assert_eq!(q.msg_type, Some(MessageType::Discover));
        }
        _ => panic!("应当是一条记录"),
    }
    match record_item(captured("zz")) {
        ReplayItem::Record { decoded, .. } => assert_eq!(decoded.unwrap_err(), ""),
        _ => panic!("应当是一条记录"),
    }
}

#[test]
fn a_stored_address_reads_back() {
    for ip in [ipv4(192, 168, 88, 100), ipv4(0, 0, 0, 0), ipv4(255, 255, 255, 255), ipv4(10, 0, 20, 3)] {
        assert_eq!(parse_ip(&ip_text(ip)), ip);
    }
    assert_eq!(ip_text(ipv4(192, 168, 88, 100)), "192.168.88.100");
    assert_eq!(parse_ip("被改过"), 0);
    assert_eq!(parse_ip("192.168.088.1"), 0, "带前导零的不是 std 认的写法");
}

#[test]
fn capture_files_are_read_line_by_line() {
    let text = "  {\"a\":1}\r\n\n   \nsecond\nthird  \n";
    assert_eq!(
        capture_lines(text),
        vec![(1, "{\"a\":1}".to_owned()), (4, "second".to_owned()), (5, "third".to_owned())]
    );
    assert!(capture_lines("").is_empty());
    assert!(capture_lines("\n \n").is_empty());
}

#[test]
fn a_record_too_late_to_handle_is_reported_and_the_rest_go_on() {
    let mut late = captured(&to_hex(&discover_bytes()));
    late.at = u64::MAX;
    let items = vec![(1, record_item(late)), (2, record_item(captured(&to_hex(&discover_bytes()))))];
    let out = replay(vec![quick_scope()], &items);
    assert_eq!(out[0], (1, Verdict::Undecodable("时间戳超出了租期计算的范围".into())));
    assert_eq!(out[1], (2, Verdict::Decided("ac:1f:6b:8e:00:01 DISCOVER → OFFER 192.168.88.100".into())));
}
