//! Configuration: the quick form, the cross-checks, the command-line pieces.

use lessor::addr::{ipv4 as ip, Range};
use lessor::config::{parse_option, parse_range, parse_reservation, quick_from_args, ArgsError, Config, Listener, OptionError, Quick, QuickArgs, RangeError};
use lessor::scope::{Scope, ScopeId};

fn quick() -> Config {
    Config::from_quick(Quick {
        server_ip: Some(ip(192, 168, 88, 1)),
        prefix: 24,
        pool: Range::new(ip(192, 168, 88, 10), ip(192, 168, 88, 20)),
        router: None,
        dns: vec![],
        lease_secs: 3600,
        iface: None,
        reservations: vec![],
        boot: None,
        extra_options: vec![],
    })
    .unwrap()
}

#[test]
fn quick_config_derives_the_subnet_from_the_server_address() {
    let c = quick();
    assert_eq!(c.scopes[0].subnet, ip(192, 168, 88, 0));
    assert_eq!(c.scopes[0].prefix, 24);
    assert_eq!(c.listeners[0].server_ip, ip(192, 168, 88, 1));
}

#[test]
fn a_scope_without_a_listener_is_rejected() {
    let mut c = quick();
    c.listeners[0].server_ip = ip(10, 0, 0, 1);
    let err = c.check().unwrap_err().text();
    assert!(err.contains("没有对应的监听器"), "实际: {err}");
    // The message points at relays, or someone deploying across networks gets stuck here.
    assert!(err.contains("viaRelay"), "实际: {err}");
}

#[test]
fn a_relayed_scope_may_have_no_listener_of_its_own() {
    let mut c = quick();
    let mut relayed = Scope::new(2, "branch", ip(10, 20, 30, 0), 24);
    relayed.pools = vec![Range::new(ip(10, 20, 30, 100), ip(10, 20, 30, 200)).unwrap()];
    relayed.via_relay = true;
    c.scopes.push(relayed);
    assert!(c.check().is_ok(), "{:?}", c.check().unwrap_err());
}

#[test]
fn a_relayed_scope_still_needs_someone_to_receive_packets() {
    let mut c = quick();
    c.scopes[0].via_relay = true;
    c.listeners.clear();
    let err = c.check().unwrap_err().text();
    assert!(err.contains("没有监听器"), "实际: {err}");
}

#[test]
fn overlapping_scopes_on_one_listener_are_rejected() {
    let mut c = quick();
    let mut dup = c.scopes[0].clone();
    dup.id = ScopeId(2);
    dup.name = "另一个".into();
    c.scopes.push(dup);
    let err = c.check().unwrap_err().text();
    assert!(err.contains("同时落在多个作用域"), "实际: {err}");
}

#[test]
fn scope_validation_errors_surface_in_check() {
    let mut c = quick();
    c.scopes[0].router = Some(ip(10, 9, 9, 1)); // gateway outside the subnet
    let err = c.check().unwrap_err().text();
    assert!(err.contains("网关"), "实际: {err}");
}

#[test]
fn range_parses_and_rejects_inverted() {
    let r = parse_range("192.168.88.10-192.168.88.20").unwrap();
    assert_eq!(r.start, ip(192, 168, 88, 10));
    assert_eq!(r.end, ip(192, 168, 88, 20));
    assert!(parse_range("192.168.88.20-192.168.88.10").is_err());
    assert!(parse_range("192.168.88.10").is_err());
}

#[test]
fn option_parses_from_hex() {
    assert_eq!(parse_option("43=060108ff").unwrap(), (43, vec![0x06, 0x01, 0x08, 0xff]));
    assert_eq!(parse_option("252=").unwrap(), (252, vec![]));
    assert!(parse_option("43=abc").is_err(), "奇数长度应拒绝");
    assert!(parse_option("999=ff").is_err(), "编号超出 u8 应拒绝");
    assert!(parse_option("43=zz").is_err(), "非十六进制应拒绝");
    assert!(parse_option("43").is_err(), "缺少等号应拒绝");
}

#[test]
fn option_errors_name_the_problem() {
    assert_eq!(parse_option("43=abc"), Err(OptionError::OddLength));
    assert_eq!(parse_option("999=ff"), Err(OptionError::BadCode));
    assert_eq!(parse_option("43=zz"), Err(OptionError::NotHex));
    assert_eq!(parse_option("43"), Err(OptionError::MissingEquals));
}

#[test]
fn reservation_parses_with_and_without_hostname() {
    let r = parse_reservation("ac:1f:6b:8e:00:01=192.168.88.50").unwrap();
    assert_eq!(r.ip, ip(192, 168, 88, 50));
    assert!(r.hostname.is_none());

    let r = parse_reservation("ac1f6b8e0001=192.168.88.51=bmc-01").unwrap();
    assert_eq!(r.hostname.as_deref(), Some("bmc-01"));
}

#[test]
fn quick_without_pool_yields_a_listener_and_no_scope() {
    let c = Config::from_quick(Quick {
        server_ip: Some(ip(192, 168, 88, 1)),
        prefix: 24,
        pool: None,
        router: None,
        dns: Vec::new(),
        lease_secs: 3600,
        iface: None,
        reservations: Vec::new(),
        boot: None,
        extra_options: Vec::new(),
    })
    .expect("没有地址池也应当能起服务");

    assert!(c.scopes.is_empty(), "没给池就不该凭空造一个作用域");
    assert_eq!(c.listeners.len(), 1, "监听器照常起，否则界面建完作用域也没人收包");
}

#[test]
fn empty_scopes_pass_the_check() {
    let c = Config { listeners: vec![Listener { server_ip: ip(192, 168, 88, 1), iface: None }], scopes: Vec::new() };
    assert!(c.check().is_ok(), "零作用域是合法状态，不是配置错误");
}

fn args() -> QuickArgs {
    QuickArgs {
        listen: Some(ip(192, 168, 88, 1)),
        prefix: 24,
        pool: Some("192.168.88.10-192.168.88.20".into()),
        router: None,
        dns: vec![],
        lease_secs: 3600,
        reservations: vec![],
        boot_file: None,
        next_server: None,
        tftp_server: None,
        http_boot_url: None,
        ipxe_url: None,
        options: vec![],
        iface: None,
        serve_empty: false,
    }
}

#[test]
fn command_line_without_listen_or_pool_is_refused() {
    let mut a = args();
    a.listen = None;
    assert_eq!(quick_from_args(a).err(), Some(ArgsError::NeedListen));
    let mut a = args();
    a.pool = None;
    assert_eq!(quick_from_args(a).err(), Some(ArgsError::NeedPool));
    let mut a = args();
    a.pool = Some("192.168.88.20-192.168.88.10".into());
    assert_eq!(quick_from_args(a).err(), Some(ArgsError::Range(RangeError::Inverted)));
}

#[test]
fn command_line_gives_a_quick_configuration() {
    let mut a = args();
    a.reservations = vec!["ac:1f:6b:8e:00:01=192.168.88.50".into()];
    a.options = vec!["43=0601".into()];
    a.boot_file = Some("ipxe.efi".into());
    let q = quick_from_args(a).unwrap();
    assert_eq!(q.server_ip, Some(ip(192, 168, 88, 1)));
    assert_eq!(q.pool, Range::new(ip(192, 168, 88, 10), ip(192, 168, 88, 20)));
    assert_eq!(q.reservations.len(), 1);
    assert_eq!(q.extra_options, vec![(43, vec![6, 1])]);
    assert_eq!(q.boot.unwrap().filename.as_deref(), Some("ipxe.efi"));
}

#[test]
fn serve_empty_needs_neither_listen_nor_pool() {
    let mut a = args();
    a.listen = None;
    a.pool = None;
    a.serve_empty = true;
    let q = quick_from_args(a).unwrap();
    assert!(q.server_ip.is_none());
    assert!(q.pool.is_none());
}
