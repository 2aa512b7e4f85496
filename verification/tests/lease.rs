//! A lease's state machine.

use lessor::addr::{ipv4, ClientId, MacAddr};
use lessor::lease::{Lease, LeaseState, UnixTime};
use lessor::scope::ScopeId;

fn lease(state: LeaseState, expires_at: UnixTime) -> Lease {
    Lease {
        ip: ipv4(10, 0, 0, 5),
        client: ClientId::Mac(MacAddr([0, 1, 2, 3, 4, 5])),
        scope_id: ScopeId(1),
        state,
        expires_at,
        hostname: None,
        vendor_class: None,
        created_at: 0,
        last_seen: 0,
    }
}

#[test]
fn bound_lease_blocks_others_until_expiry() {
    let l = lease(LeaseState::Bound, 100);
    assert!(!l.is_available_for_others(99));
    assert!(l.is_available_for_others(100));
}

#[test]
fn free_lease_is_immediately_reusable() {
    assert!(lease(LeaseState::Free, u64::MAX).is_available_for_others(0));
}

#[test]
fn declined_lease_is_quarantined() {
    let l = lease(LeaseState::Declined, 3600);
    assert!(!l.is_available_for_others(0), "隔离期内不能复用");
    assert!(l.is_available_for_others(3600), "隔离期满可复用");
}

#[test]
fn is_active_tracks_state_and_expiry() {
    assert!(lease(LeaseState::Bound, 100).is_active(50));
    assert!(!lease(LeaseState::Bound, 100).is_active(100));
    assert!(!lease(LeaseState::Free, u64::MAX).is_active(0));
    assert!(!lease(LeaseState::Declined, u64::MAX).is_active(0));
}

#[test]
fn pxe_clients_are_recognised_by_vendor_class() {
    let mut l = lease(LeaseState::Bound, 100);
    assert!(!l.is_pxe());
    l.vendor_class = Some("PXEClient:Arch:00007:UNDI:003016".into());
    assert!(l.is_pxe());
    l.vendor_class = Some("udhcp 1.36".into());
    assert!(!l.is_pxe());
}

#[test]
fn a_cloned_lease_is_equal() {
    let mut l = lease(LeaseState::Offered, 30);
    l.hostname = Some("bmc-01".into());
    assert_eq!(l.clone(), l);
}
