//! Scopes: netmasks, pools, validation.

use lessor::addr::{ipv4 as ip, ClientId, MacAddr, Range};
use lessor::scope::{Reservation, Scope, ScopeError};

fn scope24() -> Scope {
    let mut s = Scope::new(1, "lab", ip(192, 168, 88, 0), 24);
    s.pools = vec![Range::new(ip(192, 168, 88, 10), ip(192, 168, 88, 20)).unwrap()];
    s
}

#[test]
fn netmask_and_broadcast() {
    let s = scope24();
    assert_eq!(s.netmask(), ip(255, 255, 255, 0));
    assert_eq!(s.broadcast(), ip(192, 168, 88, 255));

    let mut s30 = Scope::new(2, "p2p", ip(10, 0, 0, 0), 30);
    s30.prefix = 30;
    assert_eq!(s30.netmask(), ip(255, 255, 255, 252));
    assert_eq!(s30.broadcast(), ip(10, 0, 0, 3));

    let s32 = Scope::new(3, "host", ip(10, 0, 0, 1), 32);
    assert_eq!(s32.netmask(), ip(255, 255, 255, 255));
}

#[test]
fn contains_only_own_subnet() {
    let s = scope24();
    assert!(s.contains(ip(192, 168, 88, 1)));
    assert!(!s.contains(ip(192, 168, 89, 1)));
}

#[test]
fn exclusions_are_removed_from_pool() {
    let mut s = scope24();
    s.exclusions = vec![Range::new(ip(192, 168, 88, 15), ip(192, 168, 88, 16)).unwrap()];
    let addrs = s.poolable_addrs();
    assert_eq!(addrs.len(), 9, "11 个减去排除的 2 个");
    assert_eq!(s.capacity(), 9);
    assert!(!addrs.contains(&ip(192, 168, 88, 15)));
    assert!(addrs.contains(&ip(192, 168, 88, 14)));
}

#[test]
fn network_and_broadcast_never_offered() {
    let mut s = Scope::new(4, "full", ip(10, 0, 0, 0), 24);
    s.pools = vec![Range::new(ip(10, 0, 0, 0), ip(10, 0, 0, 255)).unwrap()];
    assert_eq!(s.capacity(), 254);
    let addrs = s.poolable_addrs();
    assert!(!addrs.contains(&ip(10, 0, 0, 0)));
    assert!(!addrs.contains(&ip(10, 0, 0, 255)));
}

// ---------- validation ----------

#[test]
fn a_sane_scope_has_no_errors() {
    let mut s = scope24();
    s.router = Some(ip(192, 168, 88, 1));
    assert_eq!(s.validate(), vec![]);
}

#[test]
fn catches_pool_outside_subnet() {
    let mut s = scope24();
    s.pools = vec![Range::new(ip(10, 0, 0, 1), ip(10, 0, 0, 5)).unwrap()];
    assert!(matches!(s.validate().as_slice(), [ScopeError::PoolOutsideSubnet { .. }, ..]));
}

#[test]
fn catches_overlapping_pools() {
    let mut s = scope24();
    s.pools = vec![
        Range::new(ip(192, 168, 88, 10), ip(192, 168, 88, 20)).unwrap(),
        Range::new(ip(192, 168, 88, 18), ip(192, 168, 88, 30)).unwrap(),
    ];
    assert!(s.validate().iter().any(|e| matches!(e, ScopeError::PoolsOverlap { .. })));
}

#[test]
fn catches_duplicate_reservation() {
    let mut s = scope24();
    s.reservations = vec![
        Reservation { client: ClientId::Mac(MacAddr([1; 6])), ip: ip(192, 168, 88, 50), hostname: None },
        Reservation { client: ClientId::Mac(MacAddr([2; 6])), ip: ip(192, 168, 88, 50), hostname: None },
    ];
    assert!(s.validate().iter().any(|e| matches!(e, ScopeError::DuplicateReservation { count: 2, .. })));
}

#[test]
fn catches_gateway_outside_subnet() {
    let mut s = scope24();
    s.router = Some(ip(10, 0, 0, 1));
    assert!(s.validate().iter().any(|e| matches!(e, ScopeError::GatewayOutsideSubnet { .. })));
}

#[test]
fn catches_non_network_address() {
    let mut s = scope24();
    s.subnet = ip(192, 168, 88, 7); // host bits set
    assert!(s.validate().iter().any(|e| matches!(e, ScopeError::NotANetworkAddress { .. })));
}

#[test]
fn catches_offer_longer_than_lease() {
    let mut s = scope24();
    s.lease_secs = 60;
    s.offer_secs = 120;
    assert!(s.validate().iter().any(|e| matches!(e, ScopeError::OfferLongerThanLease { .. })));
}

#[test]
fn catches_empty_scope() {
    let mut s = scope24();
    s.pools.clear();
    assert!(s.validate().iter().any(|e| matches!(e, ScopeError::NoUsableAddresses)));
}

#[test]
fn reservation_only_scope_is_valid() {
    let mut s = scope24();
    s.pools.clear();
    s.reservations = vec![Reservation { client: ClientId::Mac(MacAddr([1; 6])), ip: ip(192, 168, 88, 50), hostname: None }];
    assert_eq!(s.validate(), vec![], "只做静态保留、不设池是合法配置");
}

#[test]
fn validate_reports_every_problem_at_once() {
    let mut s = scope24();
    s.pools = vec![Range::new(ip(10, 0, 0, 1), ip(10, 0, 0, 5)).unwrap()];
    s.router = Some(ip(172, 16, 0, 1));
    s.lease_secs = 0;
    assert!(s.validate().len() >= 3, "应一次列全，而不是报一个停一个");
}

#[test]
fn scope_errors_read_as_sentences() {
    assert_eq!(ScopeError::ZeroLease.text().is_empty(), false);
    let e = ScopeError::BadPrefix(40);
    assert_eq!(e.text(), "前缀长度 40 不合法（应为 0-32）");
}

#[test]
fn a_cloned_scope_keeps_every_part() {
    let mut s = scope24();
    s.router = Some(ip(192, 168, 88, 1));
    s.reservations = vec![Reservation { client: ClientId::Mac(MacAddr([1; 6])), ip: ip(192, 168, 88, 50), hostname: Some("a".into()) }];
    s.extra_options = vec![(43, vec![6, 1, 8, 0xff])];
    let c = s.clone();
    assert_eq!(c.name, s.name);
    assert_eq!(c.pools, s.pools);
    assert_eq!(c.reservations, s.reservations);
    assert_eq!(c.extra_options, s.extra_options);
    assert_eq!(c.router, s.router);
}
