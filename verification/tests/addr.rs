//! Client identities and address ranges.

use lessor::addr::{ipv4, ClientId, MacAddr, Range};

#[test]
fn mac_display_and_oui() {
    let m = MacAddr([0xac, 0x1f, 0x6b, 0x8e, 0x00, 0x01]);
    assert_eq!(m.to_text(), "ac:1f:6b:8e:00:01");
    assert_eq!(m.oui(), [0xac, 0x1f, 0x6b]);
    assert!(!m.is_locally_administered());
    assert!(MacAddr([0x02, 0, 0, 0, 0, 1]).is_locally_administered());
}

#[test]
fn range_rejects_inverted() {
    let a = ipv4(192, 168, 1, 10);
    let b = ipv4(192, 168, 1, 20);
    assert!(Range::new(a, b).is_some());
    assert!(Range::new(b, a).is_none());
}

#[test]
fn range_contains_and_len() {
    let r = Range::new(ipv4(10, 0, 0, 5), ipv4(10, 0, 0, 9)).unwrap();
    assert_eq!(r.len(), 5);
    assert!(r.contains(ipv4(10, 0, 0, 5)));
    assert!(r.contains(ipv4(10, 0, 0, 9)));
    assert!(!r.contains(ipv4(10, 0, 0, 10)));
    assert_eq!(r.iter().len(), 5);
}

#[test]
fn range_spanning_octet_boundary() {
    let r = Range::new(ipv4(10, 0, 0, 254), ipv4(10, 0, 1, 2)).unwrap();
    assert_eq!(r.len(), 5);
    assert!(r.contains(ipv4(10, 0, 1, 0)));
}

#[test]
fn mac_text_reads_back() {
    let m = MacAddr([0xac, 0x1f, 0x6b, 0x8e, 0x00, 0x01]);
    assert_eq!(MacAddr::parse(&m.to_text()), Some(m));
    assert_eq!(MacAddr::parse("AC-1F-6B-8E-00-01"), Some(m));
    assert_eq!(MacAddr::parse("ac1f.6b8e.0001"), Some(m));
    assert_eq!(MacAddr::parse("ac:1f:6b:8e:00"), None);
    assert_eq!(MacAddr::parse("ac:1f:6b:8e:00:01:02"), None);
    assert_eq!(MacAddr::parse("zz:1f:6b:8e:00:01"), None);
}

#[test]
fn mac_from_slice_takes_six_bytes() {
    assert_eq!(MacAddr::from_slice(&[1, 2, 3, 4, 5, 6, 7]), Some(MacAddr([1, 2, 3, 4, 5, 6])));
    assert_eq!(MacAddr::from_slice(&[1, 2, 3]), None);
}

#[test]
fn client_identity_text_forms() {
    let m = ClientId::Mac(MacAddr([0xac, 0x1f, 0x6b, 0x8e, 0x00, 0x01]));
    assert_eq!(m.to_text(), "ac:1f:6b:8e:00:01");
    let o = ClientId::Opt61(vec![0x01, 0xac, 0x1f]);
    assert_eq!(o.to_text(), "opt61:01ac1f");
}

#[test]
fn option_61_of_type_1_and_six_bytes_is_the_mac() {
    let mac = MacAddr([0xac, 0x1f, 0x6b, 0x8e, 0x00, 0x01]);
    let raw = [0x01, 0xac, 0x1f, 0x6b, 0x8e, 0x00, 0x01];
    let c = ClientId::from_parts(Some(&raw), MacAddr([9; 6]));
    assert!(c.same_as(&ClientId::Mac(mac)));
    let other = ClientId::from_parts(Some(&[0xff, 1, 2]), mac);
    assert!(other.same_as(&ClientId::Opt61(vec![0xff, 1, 2])));
    assert!(ClientId::from_parts(None, mac).same_as(&ClientId::Mac(mac)));
}
