//! Allocation and the lease table.

use lessor::addr::{ipv4, ClientId, MacAddr, Range};
use lessor::lease::{Lease, LeaseState, UnixTime};
use lessor::scope::{Reservation, Scope, ScopeId};
use lessor::store::{allocate, AllocSource, LeaseStore, MemoryStore};

fn ip(d: u8) -> u32 {
    ipv4(192, 168, 88, d)
}

fn client(n: u8) -> ClientId {
    ClientId::Mac(MacAddr([0xac, 0x1f, 0x6b, 0, 0, n]))
}

fn scope() -> Scope {
    let mut s = Scope::new(1, "lab", ipv4(192, 168, 88, 0), 24);
    s.pools = vec![Range::new(ip(10), ip(12)).unwrap()];
    s
}

fn bound_in(sid: ScopeId, ip_addr: u32, c: &ClientId, expires: UnixTime) -> Lease {
    Lease {
        ip: ip_addr,
        client: c.clone(),
        scope_id: sid,
        state: LeaseState::Bound,
        expires_at: expires,
        hostname: None,
        vendor_class: None,
        created_at: 0,
        last_seen: 0,
    }
}

fn bound(ip_addr: u32, c: &ClientId, expires: UnixTime) -> Lease {
    bound_in(ScopeId(1), ip_addr, c, expires)
}

#[test]
fn store_fresh_client_gets_lowest_free() {
    let a = allocate(&scope(), &MemoryStore::new(), &client(1), None, 0).unwrap();
    assert_eq!(a.ip, ip(10));
    assert_eq!(a.source, AllocSource::Pool);
}

#[test]
fn store_second_client_skips_taken_address() {
    let mut t = MemoryStore::new();
    t.insert(bound(ip(10), &client(1), 1000));
    let a = allocate(&scope(), &t, &client(2), None, 0).unwrap();
    assert_eq!(a.ip, ip(11));
}

#[test]
fn store_client_keeps_its_address_across_renewals() {
    let mut t = MemoryStore::new();
    t.insert(bound(ip(12), &client(1), 1000));
    let a = allocate(&scope(), &t, &client(1), None, 500).unwrap();
    assert_eq!(a.ip, ip(12));
    assert_eq!(a.source, AllocSource::Existing);
}

#[test]
fn store_expired_lease_is_still_preferred_for_same_client() {
    let mut t = MemoryStore::new();
    t.insert(bound(ip(12), &client(1), 100));
    let a = allocate(&scope(), &t, &client(1), None, 9999).unwrap();
    assert_eq!(a.ip, ip(12), "同一客户端回来时应拿回原地址");
}

#[test]
fn store_expired_lease_can_be_taken_by_another_client() {
    let mut t = MemoryStore::new();
    t.insert(bound(ip(10), &client(1), 100));
    let a = allocate(&scope(), &t, &client(2), None, 9999).unwrap();
    assert_eq!(a.ip, ip(10));
}

#[test]
fn store_reservation_wins_over_existing_lease() {
    let mut s = scope();
    s.reservations = vec![Reservation { client: client(1), ip: ip(12), hostname: None }];
    let mut t = MemoryStore::new();
    t.insert(bound(ip(10), &client(1), 9999));
    let a = allocate(&s, &t, &client(1), None, 0).unwrap();
    assert_eq!(a.ip, ip(12));
    assert_eq!(a.source, AllocSource::Reservation);
}

#[test]
fn store_others_cannot_take_a_reserved_address() {
    let mut s = scope();
    s.reservations = vec![Reservation { client: client(1), ip: ip(10), hostname: None }];
    let a = allocate(&s, &MemoryStore::new(), &client(2), None, 0).unwrap();
    assert_eq!(a.ip, ip(11), "保留给别人的地址要跳过");
}

#[test]
fn store_honours_requested_address_when_free() {
    let a = allocate(&scope(), &MemoryStore::new(), &client(1), Some(ip(12)), 0).unwrap();
    assert_eq!(a.ip, ip(12));
    assert_eq!(a.source, AllocSource::Requested);
}

#[test]
fn store_ignores_requested_address_outside_pool() {
    let a = allocate(&scope(), &MemoryStore::new(), &client(1), Some(ip(99)), 0).unwrap();
    assert_eq!(a.ip, ip(10), "池外的请求应被忽略并回退到池分配");
}

#[test]
fn store_declined_address_is_skipped_until_quarantine_ends() {
    let mut t = MemoryStore::new();
    let mut l = bound(ip(10), &client(9), 0);
    l.state = LeaseState::Declined;
    l.expires_at = 3600;
    t.insert(l);
    assert_eq!(allocate(&scope(), &t, &client(1), None, 0).unwrap().ip, ip(11));
    assert_eq!(allocate(&scope(), &t, &client(1), None, 3600).unwrap().ip, ip(10));
}

#[test]
fn store_pool_exhaustion_returns_none() {
    let mut t = MemoryStore::new();
    for (i, d) in (10u8..=12).enumerate() {
        t.insert(bound(ip(d), &client(i as u8 + 1), 9999));
    }
    assert!(allocate(&scope(), &t, &client(99), None, 0).is_none());
}

// ---------- index consistency ----------

#[test]
fn moving_a_client_releases_its_old_address() {
    let mut t = MemoryStore::new();
    t.insert(bound(ip(10), &client(1), 9999));
    t.insert(bound(ip(11), &client(1), 9999));
    assert_eq!(t.len(), 1, "同一客户端不应留下两条租约");
    assert_eq!(t.get_by_client(ScopeId(1), &client(1)).unwrap().ip, ip(11));
    assert!(t.get_by_ip(ScopeId(1), ip(10)).is_none());
}

#[test]
fn taking_over_an_address_clears_the_old_owners_index() {
    let mut t = MemoryStore::new();
    t.insert(bound(ip(10), &client(1), 100));
    t.insert(bound(ip(10), &client(2), 9999)); // taken by someone else after expiry
    assert_eq!(t.len(), 1);
    assert_eq!(t.get_by_ip(ScopeId(1), ip(10)).unwrap().client, client(2));
    assert!(t.get_by_client(ScopeId(1), &client(1)).is_none(), "旧主的索引必须清掉，否则会指向一条不属于它的租约");
}

#[test]
fn store_reap_clears_expired_but_keeps_declined() {
    let mut t = MemoryStore::new();
    t.insert(bound(ip(10), &client(1), 100));
    let mut d = bound(ip(11), &client(2), 100);
    d.state = LeaseState::Declined;
    t.insert(d);
    assert_eq!(t.reap(500), 1);
    assert!(t.get_by_ip(ScopeId(1), ip(10)).is_none());
    assert!(t.get_by_ip(ScopeId(1), ip(11)).is_some(), "Declined 要留到隔离期满");
}

// ---------- scopes kept apart ----------

#[test]
fn same_address_in_two_scopes_is_two_leases() {
    let mut t = MemoryStore::new();
    t.insert(bound_in(ScopeId(1), ip(10), &client(1), 9999));
    t.insert(bound_in(ScopeId(2), ip(10), &client(2), 9999));
    assert_eq!(t.len(), 2, "两个隔离网段可以用同一个地址");
    assert_eq!(t.get_by_ip(ScopeId(1), ip(10)).unwrap().client, client(1));
    assert_eq!(t.get_by_ip(ScopeId(2), ip(10)).unwrap().client, client(2));
}

#[test]
fn a_client_can_hold_a_lease_in_each_scope() {
    let mut t = MemoryStore::new();
    t.insert(bound_in(ScopeId(1), ip(10), &client(1), 9999));
    t.insert(bound_in(ScopeId(2), ip(11), &client(1), 9999));
    assert_eq!(t.len(), 2, "笔记本在两个网段各有一条租约是正常的");
    assert_eq!(t.get_by_client(ScopeId(1), &client(1)).unwrap().ip, ip(10));
    assert_eq!(t.get_by_client(ScopeId(2), &client(1)).unwrap().ip, ip(11));
}

#[test]
fn allocation_only_sees_its_own_scope() {
    let mut t = MemoryStore::new();
    // .10 taken in scope 2 does not affect scope 1.
    t.insert(bound_in(ScopeId(2), ip(10), &client(9), 9999));
    let a = allocate(&scope(), &t, &client(1), None, 0).unwrap();
    assert_eq!(a.ip, ip(10));
}

#[test]
fn used_in_counts_only_active_leases_of_that_scope() {
    let mut t = MemoryStore::new();
    t.insert(bound_in(ScopeId(1), ip(10), &client(1), 9999));
    t.insert(bound_in(ScopeId(1), ip(11), &client(2), 100)); // expired
    t.insert(bound_in(ScopeId(2), ip(10), &client(3), 9999));
    assert_eq!(t.used_in(ScopeId(1), 500), 1);
    assert_eq!(t.used_in(ScopeId(2), 500), 1);
}

// ---------- laws on concrete values ----------

#[test]
fn a_stored_lease_is_found_again_and_a_removed_one_is_gone() {
    let mut t = MemoryStore::new();
    t.insert(bound(ip(10), &client(1), 9999));
    assert_eq!(t.get_by_ip(ScopeId(1), ip(10)).unwrap().client, client(1));
    let gone = t.remove(ScopeId(1), ip(10)).unwrap();
    assert_eq!(gone.ip, ip(10));
    assert!(t.get_by_ip(ScopeId(1), ip(10)).is_none());
    assert!(t.remove(ScopeId(1), ip(10)).is_none());
}

#[test]
fn all_lists_leases_by_scope_then_address() {
    let mut t = MemoryStore::new();
    t.insert(bound_in(ScopeId(2), ip(10), &client(3), 9999));
    t.insert(bound_in(ScopeId(1), ip(12), &client(2), 9999));
    t.insert(bound_in(ScopeId(1), ip(10), &client(1), 9999));
    let keys: Vec<(u32, u32)> = t.all().iter().map(|l| (l.scope_id.0, l.ip)).collect();
    assert_eq!(keys, vec![(1, ip(10)), (1, ip(12)), (2, ip(10))]);
}

#[test]
fn clear_scope_removes_only_that_scope() {
    let mut t = MemoryStore::new();
    t.insert(bound_in(ScopeId(1), ip(10), &client(1), 9999));
    t.insert(bound_in(ScopeId(1), ip(11), &client(2), 9999));
    t.insert(bound_in(ScopeId(2), ip(10), &client(3), 9999));
    assert_eq!(t.clear_scope(ScopeId(1)), 2);
    assert_eq!(t.len(), 1);
    assert!(t.get_by_ip(ScopeId(2), ip(10)).is_some());
}

#[test]
fn try_claim_refuses_an_address_in_use_by_another() {
    let mut t = MemoryStore::new();
    t.insert(bound(ip(10), &client(1), 9999));
    assert!(!t.try_claim(bound(ip(10), &client(2), 9999), 0));
    assert_eq!(t.get_by_ip(ScopeId(1), ip(10)).unwrap().client, client(1));
    assert!(t.try_claim(bound(ip(11), &client(2), 9999), 0));
    assert_eq!(t.get_by_ip(ScopeId(1), ip(11)).unwrap().client, client(2));
}

#[test]
fn extreme_scope_ids_and_addresses_never_collide() {
    let mut t = MemoryStore::new();
    t.insert(bound_in(ScopeId(u32::MAX), 0, &client(1), 9999));
    t.insert(bound_in(ScopeId(0), u32::MAX, &client(2), 9999));
    t.insert(bound_in(ScopeId(1), 0, &client(3), 9999));
    assert_eq!(t.len(), 3);
    assert_eq!(t.get_by_ip(ScopeId(u32::MAX), 0).unwrap().client, client(1));
    assert_eq!(t.get_by_ip(ScopeId(0), u32::MAX).unwrap().client, client(2));
    assert!(t.get_by_ip(ScopeId(0), 0).is_none());
    let keys: Vec<(u32, u32)> = t.all().iter().map(|l| (l.scope_id.0, l.ip)).collect();
    assert_eq!(keys, vec![(0, u32::MAX), (1, 0), (u32::MAX, 0)]);
}
