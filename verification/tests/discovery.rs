//! Finding statically configured devices: RMCP, the neighbour table, the
//! DHCP probe, and the bookkeeping of a scan.

use lessor::addr::{ipv4, MacAddr};
use lessor::discovery::{
    broadcast_of, dhcp_discover, hosts, host_count, is_dhcp_reply_to, occupied_among, parse_pong, ping, ping_targets, pong_note,
    probe_targets, sweeps, take_reply, Findings, Method, Options, Pong, Responder,
};
use lessor::neighbor::{looks_like_mac, parse_line, parse_table, Neighbor};
use lessor::net::Ipv4Cidr;

fn cidr(a: u8, b: u8, c: u8, d: u8, p: u8) -> Ipv4Cidr {
    Ipv4Cidr { addr: ipv4(a, b, c, d), prefix: p }
}

#[test]
fn hosts_excludes_network_and_broadcast() {
    let h = hosts(cidr(192, 168, 88, 1, 24));
    assert_eq!(h.len(), 254);
    assert_eq!(h[0], ipv4(192, 168, 88, 1));
    assert_eq!(h[253], ipv4(192, 168, 88, 254));
    assert!(!h.contains(&ipv4(192, 168, 88, 0)));
    assert!(!h.contains(&ipv4(192, 168, 88, 255)));
}

#[test]
fn broadcast_is_computed_from_the_prefix() {
    assert_eq!(broadcast_of(cidr(192, 168, 88, 37, 24)), ipv4(192, 168, 88, 255));
    assert_eq!(broadcast_of(cidr(10, 0, 0, 5, 30)), ipv4(10, 0, 0, 7));
}

#[test]
fn tiny_subnets_have_no_hosts_to_scan() {
    assert!(hosts(cidr(10, 0, 0, 1, 31)).is_empty());
    assert!(hosts(cidr(10, 0, 0, 1, 32)).is_empty());
}

#[test]
fn a_large_subnet_exceeds_the_sweep_limit() {
    let o = Options::new(cidr(10, 0, 0, 1, 16));
    assert!(hosts(o.on).len() as u32 > o.sweep_limit, "/16 应当超过逐个探测的上限，避免误用");
    assert!(!sweeps(&o));
    let small = Options::new(cidr(10, 0, 0, 1, 24));
    assert!((hosts(small.on).len() as u32) <= small.sweep_limit);
    assert_eq!(host_count(small.on), 254);
    assert!(sweeps(&small));
}

// ---------- RMCP ----------

const ASF_IANA: u32 = 0x11BE;

#[test]
fn ping_matches_the_asf_layout() {
    let p = ping(0x42);
    assert_eq!(p.len(), 12);
    assert_eq!(p[0], 0x06, "RMCP 版本 1.0");
    assert_eq!(p[2], 0xFF, "序号 255 = 不需要确认");
    assert_eq!(p[3], 0x06, "消息类别 ASF");
    assert_eq!(&p[4..8], &[0x00, 0x00, 0x11, 0xBE], "IANA 4542");
    assert_eq!(p[8], 0x80, "Presence Ping");
    assert_eq!(p[9], 0x42, "标签原样带出");
    assert_eq!(p[11], 0x00, "数据长度为 0");
}

/// A pong, for the parser.
fn pong_bytes(tag: u8, oem: u32, ipmi: bool) -> Vec<u8> {
    let mut v = vec![0x06, 0x00, 0xFF, 0x06];
    v.extend_from_slice(&ASF_IANA.to_be_bytes());
    v.push(0x40);
    v.push(tag);
    v.push(0x00);
    v.push(16); // data length
    v.extend_from_slice(&oem.to_be_bytes()); // OEM IANA
    v.extend_from_slice(&[0, 0, 0, 0]); // OEM defined
    v.push(if ipmi { 0x81 } else { 0x01 }); // supported entities
    v.extend_from_slice(&[0; 7]);
    v
}

#[test]
fn parses_a_bmc_pong() {
    let p = parse_pong(&pong_bytes(0x42, 0x11BE, true)).expect("应能解析");
    assert_eq!(p.tag, 0x42);
    assert_eq!(p.oem_iana, 0x11BE);
    assert!(p.supports_ipmi, "bit 7 置位表示支持 IPMI");
}

#[test]
fn recognises_a_non_ipmi_responder() {
    let p = parse_pong(&pong_bytes(1, 0, false)).unwrap();
    assert!(!p.supports_ipmi, "不置 bit 7 的设备不是 BMC");
}

#[test]
fn rejects_packets_that_are_not_pongs() {
    assert!(parse_pong(&[]).is_none(), "空包");
    assert!(parse_pong(&ping(1)).is_none(), "自己发的 Ping 不是 Pong");

    let mut short = pong_bytes(1, 0, true);
    short.truncate(20);
    assert!(parse_pong(&short).is_none(), "数据区不完整");

    let mut wrong_class = pong_bytes(1, 0, true);
    wrong_class[3] = 0x07;
    assert!(parse_pong(&wrong_class).is_none(), "类别不是 ASF");

    let mut wrong_iana = pong_bytes(1, 0, true);
    wrong_iana[7] = 0xFF;
    assert!(parse_pong(&wrong_iana).is_none(), "IANA 号不对");
}

#[test]
fn tag_lets_us_ignore_other_peoples_replies() {
    let ours = parse_pong(&pong_bytes(0x42, 0x11BE, true)).unwrap();
    let theirs = parse_pong(&pong_bytes(0x07, 0x11BE, true)).unwrap();
    assert_ne!(ours.tag, theirs.tag);
}

#[test]
fn a_sweep_keeps_one_answer_per_address_with_our_tag() {
    let mut found: Vec<Responder> = Vec::new();
    take_reply(&mut found, 0x42, ipv4(10, 0, 0, 5), &pong_bytes(0x42, 0x11BE, true));
    take_reply(&mut found, 0x42, ipv4(10, 0, 0, 5), &pong_bytes(0x42, 0x11BE, true));
    take_reply(&mut found, 0x42, ipv4(10, 0, 0, 6), &pong_bytes(0x07, 0x11BE, true));
    take_reply(&mut found, 0x42, ipv4(10, 0, 0, 7), &[1, 2, 3]);
    assert_eq!(found.len(), 1);
    assert_eq!(found[0].addr, ipv4(10, 0, 0, 5));
}

#[test]
fn pong_notes_name_ipmi_or_the_vendor() {
    assert_eq!(pong_note(Pong { tag: 1, oem_iana: 0x11BE, supports_ipmi: true }), "回应 IPMI/RMCP");
    assert_eq!(pong_note(Pong { tag: 1, oem_iana: 0x2A2C, supports_ipmi: false }), "回应 RMCP（OEM 0x2a2c）");
}

// ---------- the DHCP probe ----------

#[test]
fn discover_probe_is_a_minimal_broadcast_discover() {
    let p = dhcp_discover(0x1e55_0001, [0x02, b'l', b'e', b's', b's', 0x01]);
    assert_eq!(p.len(), 244);
    assert_eq!(&p[0..4], &[1, 1, 6, 0]);
    assert_eq!(&p[4..8], &[0x1e, 0x55, 0x00, 0x01]);
    assert_eq!(&p[10..12], &[0x80, 0x00]);
    assert_eq!(&p[28..34], &[0x02, b'l', b'e', b's', b's', 0x01]);
    assert_eq!(&p[236..240], &[0x63, 0x82, 0x53, 0x63]);
    assert_eq!(&p[240..244], &[53, 1, 1, 0xff]);
}

#[test]
fn only_offers_and_acks_to_our_xid_count_as_answers() {
    let mut offer = dhcp_discover(7, [2, 0, 0, 0, 0, 1]);
    offer[0] = 2;
    offer[242] = 2; // OFFER
    assert!(is_dhcp_reply_to(&offer, 7));
    assert!(!is_dhcp_reply_to(&offer, 8), "别人的 xid 不算");
    let mut ack = offer.clone();
    ack[242] = 5;
    assert!(is_dhcp_reply_to(&ack, 7));
    let mut nak = offer.clone();
    nak[242] = 6;
    assert!(!is_dhcp_reply_to(&nak, 7));
    let request = dhcp_discover(7, [2, 0, 0, 0, 0, 1]);
    assert!(!is_dhcp_reply_to(&request, 7), "BOOTREQUEST 不是应答");
    // Pad bytes and other options before option 53 are skipped.
    let mut padded = offer.clone();
    padded.truncate(240);
    padded.extend_from_slice(&[0, 0, 12, 2, b'h', b'i', 53, 1, 2, 0xff]);
    assert!(is_dhcp_reply_to(&padded, 7));
}

// ---------- the neighbour table ----------

#[test]
fn parses_linux_proc_net_arp() {
    let raw = "\
IP address       HW type     Flags       HW address            Mask     Device
192.168.88.10    0x1         0x2         ac:1f:6b:8e:00:01     *        ens33
192.168.88.1     0x1         0x2         00:0c:29:aa:bb:cc     *        ens33
192.168.88.99    0x1         0x0         00:00:00:00:00:00     *        ens33
";
    let n = parse_table(raw);
    assert_eq!(n.len(), 2, "全零的不完整条目应被忽略");
    assert_eq!(n[0].ip, ipv4(192, 168, 88, 10));
    assert_eq!(n[0].mac.to_text(), "ac:1f:6b:8e:00:01");
}

#[test]
fn parses_chinese_windows_arp_output() {
    let raw = "\
接口: 192.168.88.1 --- 0xb
  Internet 地址         物理地址              类型
  192.168.88.10         ac-1f-6b-8e-00-01     动态
  192.168.88.20         00-0c-29-11-22-33     动态
  192.168.88.255        ff-ff-ff-ff-ff-ff     静态
";
    let n = parse_table(raw);
    assert_eq!(n.len(), 2, "广播地址那条应被忽略");
    assert_eq!(n[0].ip, ipv4(192, 168, 88, 10));
    assert_eq!(n[0].mac.to_text(), "ac:1f:6b:8e:00:01");
    assert_eq!(n[1].mac.to_text(), "00:0c:29:11:22:33");
}

#[test]
fn parses_macos_arp_output() {
    let raw = "\
? (192.168.88.10) at ac:1f:6b:8e:0:1 on en0 ifscope [ethernet]
? (192.168.88.1) at 0:c:29:aa:bb:cc on en0 ifscope [ethernet]
? (192.168.88.77) at (incomplete) on en0 ifscope [ethernet]
";
    let n = parse_table(raw);
    assert!(n.iter().all(|x| x.ip != ipv4(192, 168, 88, 77)), "incomplete 的条目不该出现");
}

#[test]
fn a_line_without_a_mac_is_skipped() {
    assert!(parse_line("192.168.88.5   (incomplete)  on en0").is_none());
    assert!(parse_line("接口: 192.168.88.1 --- 0xb").is_none());
}

#[test]
fn a_line_without_an_ip_is_skipped() {
    assert!(parse_line("  物理地址  ac-1f-6b-8e-00-01  动态").is_none());
}

#[test]
fn interface_indexes_are_not_mistaken_for_macs() {
    assert!(!looks_like_mac("0xb"));
    assert!(!looks_like_mac("192.168.88.1"));
    assert!(!looks_like_mac("ac1f6b8e0001"), "没有分隔符的不算");
    assert!(looks_like_mac("ac-1f-6b-8e-00-01"));
    assert!(looks_like_mac("ac:1f:6b:8e:00:01"));
    assert!(looks_like_mac("ac1f.6b8e.0001"));
}

#[test]
fn duplicate_addresses_are_collapsed() {
    let raw = "\
192.168.88.10  ac:1f:6b:8e:00:01  ens33
192.168.88.10  ac:1f:6b:8e:00:01  ens37
";
    assert_eq!(parse_table(raw).len(), 1);
}

#[test]
fn a_parenthesised_address_is_read() {
    let n = parse_line("? (192.168.88.10) at ac:1f:6b:8e:00:01 on en0").unwrap();
    assert_eq!(n, Neighbor { ip: ipv4(192, 168, 88, 10), mac: MacAddr([0xac, 0x1f, 0x6b, 0x8e, 0, 1]) });
}

// ---------- a scan's bookkeeping ----------

fn neighbour(d: u8, m: u8) -> Neighbor {
    Neighbor { ip: ipv4(192, 168, 88, d), mac: MacAddr([0xac, 0x1f, 0x6b, 0, 0, m]) }
}

#[test]
fn targets_include_the_broadcast_and_leave_out_ourselves() {
    let o = Options::new(cidr(192, 168, 88, 1, 24));
    let t = ping_targets(&o);
    assert_eq!(t[0], ipv4(192, 168, 88, 255));
    assert_eq!(t.len(), 1 + 253);
    assert!(!t.contains(&ipv4(192, 168, 88, 1)));
    let mut big = Options::new(cidr(10, 0, 0, 1, 16));
    assert_eq!(ping_targets(&big), vec![ipv4(10, 0, 255, 255)]);
    big.sweep = false;
    assert_eq!(ping_targets(&big).len(), 1);
    assert_eq!(probe_targets(&o).len(), 253);
}

#[test]
fn findings_merge_and_come_out_bmcs_first() {
    let own = ipv4(192, 168, 88, 1);
    let before = vec![neighbour(1, 1), neighbour(30, 30)];
    let mut f = Findings::new();
    f.add_known(&before, own);
    f.add_responders(&vec![
        Responder { addr: ipv4(192, 168, 88, 40), pong: Pong { tag: 0x42, oem_iana: 0x11BE, supports_ipmi: true } },
        Responder { addr: ipv4(192, 168, 88, 30), pong: Pong { tag: 0x42, oem_iana: 0x2A2C, supports_ipmi: false } },
    ]);
    let after = vec![neighbour(30, 30), neighbour(20, 20), neighbour(40, 40)];
    f.add_after_probe(&before, &after, own);
    let out = f.into_devices();
    let ips: Vec<u32> = out.iter().map(|d| d.ip).collect();
    assert_eq!(ips, vec![ipv4(192, 168, 88, 40), ipv4(192, 168, 88, 20), ipv4(192, 168, 88, 30)]);
    assert!(out[0].is_bmc);
    assert_eq!(out[0].via, vec![Method::Rmcp, Method::Probed]);
    assert_eq!(out[0].note.as_deref(), Some("回应 IPMI/RMCP"));
    assert_eq!(out[0].mac, Some(MacAddr([0xac, 0x1f, 0x6b, 0, 0, 40])));
    assert_eq!(out[1].via, vec![Method::Probed]);
    assert_eq!(out[2].via, vec![Method::Neighbor, Method::Rmcp]);
    assert_eq!(out[2].note.as_deref(), Some("回应 RMCP（OEM 0x2a2c）"));
}

#[test]
fn occupied_addresses_are_those_in_the_table() {
    let table = vec![neighbour(10, 10), neighbour(12, 12)];
    let r = occupied_among(&vec![ipv4(192, 168, 88, 10), ipv4(192, 168, 88, 11), ipv4(192, 168, 88, 12)], &table);
    assert_eq!(
        r,
        vec![
            (ipv4(192, 168, 88, 10), Some(MacAddr([0xac, 0x1f, 0x6b, 0, 0, 10]))),
            (ipv4(192, 168, 88, 12), Some(MacAddr([0xac, 0x1f, 0x6b, 0, 0, 12]))),
        ]
    );
}
