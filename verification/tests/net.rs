//! Interfaces, address plans, and the configuration tool's own pieces.

use lessor::addr::{ipv4, MacAddr};
use lessor::net::{failure_error, interfaces_from, netmask_to_prefix, restore_dhcp, set_static, Ipv4Cidr, NetError, Platform, RawInterface, StepKind, after_step, looks_like_permission_error, privilege_name, interface, interface_with_address};
use lessor::netcfg::{display_width, list_lines, parse_cidr};

#[test]
fn cjk_names_align_by_display_width() {
    // Interface names are often Chinese; CJK characters take two columns.
    assert_eq!(display_width("Ethernet"), 8);
    assert_eq!(display_width("以太网"), 6);
    assert_eq!(display_width("以太网 2"), 8);
    assert_eq!(display_width("VMnet1"), 6);
}

#[test]
fn cidr_parses_and_rejects_nonsense() {
    assert_eq!(parse_cidr("192.168.88.1/24").unwrap(), (ipv4(192, 168, 88, 1), 24));
    assert!(parse_cidr("192.168.88.1").is_err(), "缺前缀应拒绝");
    assert!(parse_cidr("192.168.88.1/33").is_err(), "前缀越界应拒绝");
    assert!(parse_cidr("不是地址/24").is_err());
}

#[test]
fn a_bad_cidr_says_what_was_expected() {
    match parse_cidr(" 10.0.0.1 / 8 ") {
        Ok(v) => assert_eq!(v, (ipv4(10, 0, 0, 1), 8)),
        Err(e) => panic!("{e:?}"),
    }
    match parse_cidr("x") {
        Err(NetError::Configure { iface, detail }) => {
            assert_eq!(iface, "");
            assert_eq!(detail, "地址应写成 192.168.88.1/24 的形式，收到 x");
        }
        other => panic!("{other:?}"),
    }
}

#[test]
fn prefix_from_netmask() {
    assert_eq!(netmask_to_prefix(ipv4(255, 255, 255, 0)), 24);
    assert_eq!(netmask_to_prefix(ipv4(255, 255, 255, 252)), 30);
    assert_eq!(netmask_to_prefix(ipv4(255, 0, 0, 0)), 8);
    assert_eq!(netmask_to_prefix(ipv4(255, 255, 255, 255)), 32);
}

#[test]
fn cidr_network_and_display() {
    let c = Ipv4Cidr { addr: ipv4(192, 168, 88, 37), prefix: 24 };
    assert_eq!(c.network(), ipv4(192, 168, 88, 0));
    assert_eq!(c.to_text(), "192.168.88.37/24");
}

#[test]
fn platform_permission_errors_are_recognised_in_both_languages() {
    for text in [
        "The requested operation requires elevation.",
        "请求的操作需要提升。",
        "拒绝访问。",
        "Access is denied.",
        "ip: Operation not permitted",
        "RTNETLINK answers: Permission denied",
    ] {
        assert!(looks_like_permission_error(text), "应识别为权限问题: {text}");
    }
}

#[test]
fn platform_ordinary_failures_are_not_mistaken_for_permission_errors() {
    for text in ["Element not found.", "找不到元素。", "Cannot find device \"eth9\"", ""] {
        assert!(!looks_like_permission_error(text), "不该识别为权限问题: {text}");
    }
}

#[test]
fn errors_are_actionable() {
    // A refusal for want of privilege says what to do next; another failure
    // keeps the command's own words.
    let err = failure_error("不存在的网卡xyz", "拒绝访问。".as_bytes(), b"");
    match &err {
        NetError::NeedsPrivilege { iface } => {
            assert_eq!(iface, "不存在的网卡xyz");
            assert!(err.is_privilege());
            assert!(err.hint(Platform::Windows).is_some(), "权限错误必须给出下一步");
            assert_eq!(err.exit_code(), 77);
        }
        other => panic!("意料之外的错误: {other:?}"),
    }
    let err = failure_error("不存在的网卡xyz", b"", "Element not found.".as_bytes());
    match &err {
        NetError::Configure { iface, detail } => {
            assert_eq!(iface, "不存在的网卡xyz");
            assert_eq!(detail, "Element not found.");
            assert!(!err.is_privilege());
            assert_eq!(err.exit_code(), 1);
        }
        other => panic!("意料之外的错误: {other:?}"),
    }
}

#[test]
fn privilege_is_named_in_each_platforms_terms() {
    assert_eq!(privilege_name(Platform::Windows), "管理员权限");
    assert_eq!(privilege_name(Platform::Linux), "root 权限（或 CAP_NET_ADMIN）");
    let e = NetError::NeedsPrivilege { iface: "eth0".into() };
    assert_eq!(e.text(Platform::Linux), "修改网卡 eth0 需要root 权限（或 CAP_NET_ADMIN），当前身份不足");
    assert!(e.hint(Platform::Linux).unwrap().contains("sudo"));
    assert!(NetError::NoSuchInterface("x".into()).hint(Platform::Linux).unwrap().contains("lessor-netcfg list"));
    assert!(NetError::Unsupported.hint(Platform::Linux).is_none());
}

fn raws() -> Vec<RawInterface> {
    vec![
        RawInterface { name: "lo".into(), index: 1, mac: None, v4: vec![(ipv4(127, 0, 0, 1), Some(ipv4(255, 0, 0, 0)))] },
        RawInterface {
            name: "eth0".into(),
            index: 2,
            mac: Some("ac:1f:6b:8e:00:01".into()),
            v4: vec![(ipv4(192, 168, 88, 1), Some(ipv4(255, 255, 255, 0)))],
        },
        // The same interface reported again with the same address and one more.
        RawInterface {
            name: "eth0".into(),
            index: 2,
            mac: None,
            v4: vec![(ipv4(192, 168, 88, 1), Some(ipv4(255, 255, 255, 0))), (ipv4(10, 0, 0, 1), None)],
        },
        RawInterface { name: "以太网 2".into(), index: 3, mac: None, v4: vec![] },
    ]
}

#[test]
fn loopback_is_not_servable() {
    for i in interfaces_from(&raws()) {
        if i.is_loopback {
            assert!(!i.is_servable(), "环回口不该被当作可服务网卡");
        }
    }
}

#[test]
fn addresses_are_not_duplicated() {
    for i in interfaces_from(&raws()) {
        let mut seen: Vec<(u32, u8)> = i.ipv4.iter().map(|c| (c.addr, c.prefix)).collect();
        seen.sort();
        seen.dedup();
        assert_eq!(seen.len(), i.ipv4.len(), "网卡 {} 的地址有重复", i.name);
    }
}

#[test]
fn interfaces_are_merged_sorted_and_described() {
    let ifs = interfaces_from(&raws());
    let names: Vec<&str> = ifs.iter().map(|i| i.name.as_str()).collect();
    assert_eq!(names, vec!["eth0", "lo", "以太网 2"]);
    let eth0 = &ifs[0];
    assert_eq!(eth0.mac, Some(MacAddr([0xac, 0x1f, 0x6b, 0x8e, 0x00, 0x01])));
    assert_eq!(eth0.ipv4.len(), 2);
    assert_eq!(eth0.ipv4[1].prefix, 32);
    assert!(eth0.is_servable());
    assert!(ifs[1].is_loopback);
    assert!(!ifs[2].has_address);
    assert_eq!(interface(&ifs, "lo").unwrap().name, "lo");
    assert!(matches!(interface(&ifs, "wlan9"), Err(NetError::NoSuchInterface(n)) if n == "wlan9"));
    assert_eq!(interface_with_address(&ifs, ipv4(10, 0, 0, 1)).unwrap().name, "eth0");
    assert!(interface_with_address(&ifs, ipv4(10, 0, 0, 2)).is_none());
}

#[test]
fn the_list_aligns_names_and_marks_each_interface() {
    let ifs = interfaces_from(&raws());
    let lines = list_lines(&ifs);
    assert_eq!(lines[0], "  eth0      可用      192.168.88.1/24  10.0.0.1/32");
    assert_eq!(lines[1], "  lo        环回      127.0.0.1/8");
    assert_eq!(lines[2], "  以太网 2  无地址     —");
}

#[test]
fn static_address_plans_per_platform() {
    let steps = set_static(Platform::Linux, "eth0", ipv4(192, 168, 88, 1), 24).unwrap();
    assert_eq!(steps.len(), 3);
    assert_eq!(steps[0].program, "ip");
    assert_eq!(steps[0].args, vec!["addr", "flush", "dev", "eth0"]);
    assert_eq!(steps[0].kind, StepKind::BestEffort);
    assert_eq!(steps[1].args, vec!["addr", "add", "192.168.88.1/24", "dev", "eth0"]);
    assert_eq!(steps[2].args, vec!["link", "set", "eth0", "up"]);

    let steps = set_static(Platform::Windows, "以太网", ipv4(192, 168, 88, 1), 24).unwrap();
    assert_eq!(steps[0].program, "netsh");
    assert_eq!(
        steps[0].args,
        vec!["interface", "ipv4", "set", "address", "name=以太网", "source=static", "address=192.168.88.1", "mask=255.255.255.0"]
    );
    let steps = set_static(Platform::MacOs, "en0", ipv4(192, 168, 88, 1), 24).unwrap();
    assert_eq!(steps[0].args, vec!["en0", "inet", "192.168.88.1", "netmask", "255.255.255.0"]);
    assert!(matches!(set_static(Platform::Other, "x", 0, 24), Err(NetError::Unsupported)));
}

#[test]
fn restoring_dhcp_tries_each_manager_on_linux() {
    let steps = restore_dhcp(Platform::Linux, "eth0").unwrap();
    let programs: Vec<&str> = steps.iter().map(|s| s.program.as_str()).collect();
    assert_eq!(programs, vec!["ip", "nmcli", "networkctl", "dhclient"]);
    assert_eq!(steps[1].kind, StepKind::Alternative);
    let steps = restore_dhcp(Platform::MacOs, "en0").unwrap();
    assert_eq!(steps[0].args, vec!["set", "en0", "DHCP"]);
}

#[test]
fn a_plan_ends_at_the_first_required_failure_or_alternative_success() {
    assert!(matches!(after_step(StepKind::Required, Err(NetError::Unsupported)), Some(Err(_))));
    assert!(after_step(StepKind::Required, Ok(())).is_none());
    assert!(after_step(StepKind::BestEffort, Err(NetError::Unsupported)).is_none());
    assert!(matches!(after_step(StepKind::Alternative, Ok(())), Some(Ok(()))));
    assert!(after_step(StepKind::Alternative, Err(NetError::Unsupported)).is_none());
}

#[test]
fn a_printed_cidr_reads_back() {
    for (a, p) in [(ipv4(192, 168, 88, 1), 24u8), (ipv4(10, 0, 0, 255), 8), (ipv4(0, 0, 0, 0), 0), (ipv4(1, 2, 3, 4), 32)] {
        let text = Ipv4Cidr { addr: a, prefix: p }.to_text();
        assert_eq!(parse_cidr(&text).unwrap(), (a, p), "{text}");
    }
}
