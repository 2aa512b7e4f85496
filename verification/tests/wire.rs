//! Requests read from the wire, replies written to it.

use lessor::addr::{ipv4, Range};
use lessor::message::{DhcpOpt, MessageType, Opcode, Request};
use lessor::scope::Scope;
use lessor::server::{handle, Outcome, RecvCtx, ServerConfig};
use lessor::store::MemoryStore;
use lessor::wire::{
    decode_packet, decode_request, encode_reply, frame_reply, option_pairs, option_value, request_header,
    options_are_safe, type_from, with_option, WireOpt, HEADER_LEN,
};

fn header(xid: u32, flags: u16, chaddr: &[u8]) -> Vec<u8> {
    let mut p = vec![1, 1, chaddr.len() as u8, 0];
    p.extend_from_slice(&xid.to_be_bytes());
    p.extend_from_slice(&[0, 0]);
    p.extend_from_slice(&flags.to_be_bytes());
    p.extend_from_slice(&[0; 4]);
    p.extend_from_slice(&[0; 4]);
    p.extend_from_slice(&[0; 4]);
    p.extend_from_slice(&[10, 0, 0, 1]);
    let mut ch = chaddr.to_vec();
    ch.resize(16, 0);
    p.extend_from_slice(&ch);
    p.extend_from_slice(&[0; 192]);
    p.extend_from_slice(&[0x63, 0x82, 0x53, 0x63]);
    p
}

fn discover() -> Vec<u8> {
    let mut p = header(0xABCD_1234, 0x8000, &[0xac, 0x1f, 0x6b, 0x8e, 0, 1]);
    p.extend_from_slice(&[53, 1, 1]);
    p.extend_from_slice(&[61, 7, 1, 0xac, 0x1f, 0x6b, 0x8e, 0, 1]);
    p.extend_from_slice(&[12, 3, b'b', b'm', b'c']);
    p.extend_from_slice(&[50, 4, 192, 168, 88, 105]);
    p.extend_from_slice(&[60, 9]);
    p.extend_from_slice(b"PXEClient");
    p.push(0xff);
    p
}

#[test]
fn a_discover_decodes_with_its_header_and_options() {
    let q = decode_request(&discover()).expect("合法的 DISCOVER");
    assert_eq!(q.opcode, Opcode::BootRequest);
    assert_eq!(q.htype, 1);
    assert_eq!(q.xid, 0xABCD_1234);
    assert_eq!(q.flags, 0x8000);
    assert_eq!(q.ciaddr, 0);
    assert_eq!(q.giaddr, ipv4(10, 0, 0, 1));
    assert_eq!(q.chaddr, vec![0xac, 0x1f, 0x6b, 0x8e, 0, 1]);
    assert_eq!(q.msg_type, Some(MessageType::Discover));
    assert_eq!(q.client_ident, Some(vec![1, 0xac, 0x1f, 0x6b, 0x8e, 0, 1]));
    assert_eq!(q.hostname.as_deref(), Some("bmc"));
    assert_eq!(q.requested_ip, Some(ipv4(192, 168, 88, 105)));
    assert_eq!(q.class_id, Some(b"PXEClient".to_vec()));
    assert_eq!(q.server_id, None);
    assert_eq!(q.user_class, None);
    assert_eq!(q.lease_time, None);
}

#[test]
fn short_packets_and_oversized_hardware_addresses_do_not_decode() {
    assert!(decode_request(&[1, 1, 6, 0, 0xde]).is_none());
    assert_eq!(decode_packet(&[1, 1, 6, 0, 0xde]).unwrap_err(), "parser ran out of data-- not enough bytes");
    let mut p = discover();
    p[2] = 17;
    assert!(decode_request(&p).is_none());
    assert_eq!(decode_packet(&p).unwrap_err(), "硬件地址长度超过 16 字节");
    let only_header = header(7, 0, &[1, 2, 3, 4, 5, 6]);
    assert_eq!(only_header.len(), HEADER_LEN);
    let q = decode_packet(&only_header).unwrap();
    assert_eq!(q.xid, 7);
    assert_eq!(q.msg_type, None);
}

#[test]
fn the_header_alone_reads_without_options() {
    let q = request_header(&discover()).unwrap();
    assert_eq!(q.xid, 0xABCD_1234);
    assert_eq!(q.msg_type, None);
    assert_eq!(q.client_ident, None);
    assert!(request_header(&discover()[..239]).is_none());
}

#[test]
fn an_option_fills_only_its_own_field() {
    let mut q = Request::new(1, &[1, 2, 3, 4, 5, 6]);
    with_option(&mut q, 53, Some(WireOpt::Kind(3)));
    assert_eq!(q.msg_type, Some(MessageType::Request));
    with_option(&mut q, 54, Some(WireOpt::Addr(ipv4(192, 168, 88, 1))));
    assert_eq!(q.server_id, Some(ipv4(192, 168, 88, 1)));
    with_option(&mut q, 51, Some(WireOpt::Secs(600)));
    assert_eq!(q.lease_time, Some(600));
    with_option(&mut q, 77, Some(WireOpt::Bytes(b"iPXE".to_vec())));
    assert_eq!(q.user_class, Some(b"iPXE".to_vec()));
    // a value of the wrong kind leaves the field empty
    with_option(&mut q, 54, Some(WireOpt::Other));
    assert_eq!(q.server_id, None);
    // a code no field is read from changes nothing
    with_option(&mut q, 43, Some(WireOpt::Bytes(vec![1])));
    assert_eq!(q.msg_type, Some(MessageType::Request));
    assert_eq!(type_from(9), MessageType::Unknown(9));
    assert_eq!(type_from(8), MessageType::Inform);
}

#[test]
fn option_values_are_written_as_the_rfc_says() {
    assert_eq!(option_value(&DhcpOpt::MessageType(MessageType::Ack)), vec![5]);
    assert_eq!(option_value(&DhcpOpt::AddressLeaseTime(3600)), vec![0, 0, 0x0e, 0x10]);
    assert_eq!(
        option_value(&DhcpOpt::Router(vec![ipv4(192, 168, 88, 1), ipv4(10, 0, 0, 1)])),
        vec![192, 168, 88, 1, 10, 0, 0, 1]
    );
    assert_eq!(option_value(&DhcpOpt::DomainName("lab".into())), b"lab".to_vec());
    assert_eq!(option_value(&DhcpOpt::Message("地址".into())), "地址".as_bytes().to_vec());
    assert_eq!(option_value(&DhcpOpt::Raw(43, vec![6, 1, 8])), vec![6, 1, 8]);
    let pairs = option_pairs(&vec![DhcpOpt::MessageType(MessageType::Offer), DhcpOpt::SubnetMask(ipv4(255, 255, 255, 0))]);
    assert_eq!(pairs, vec![(53, vec![2]), (1, vec![255, 255, 255, 0])]);
}

fn lab() -> Scope {
    let mut s = Scope::new(1, "lab", ipv4(192, 168, 88, 0), 24);
    s.pools = vec![Range::new(ipv4(192, 168, 88, 100), ipv4(192, 168, 88, 110)).unwrap()];
    s
}

#[test]
fn an_offer_is_written_with_its_header_and_reads_back() {
    let cfg = ServerConfig::new(vec![lab()]);
    let mut store = MemoryStore::new();
    let mut p = header(0xABCD_1234, 0x8000, &[0xac, 0x1f, 0x6b, 0x8e, 0, 1]);
    p[24..28].copy_from_slice(&[0, 0, 0, 0]);
    p.extend_from_slice(&[53, 1, 1, 0xff]);
    let req = decode_request(&p).unwrap();
    let out = handle(&cfg, &mut store, &req, RecvCtx { now: 1_700_000_000, server_ip: ipv4(192, 168, 88, 1) });
    let Outcome::Reply(r) = out else { panic!("应当应答") };
    let bytes = encode_reply(&r.msg).expect("应当能编码");
    assert_eq!(bytes[0], 2, "BOOTREPLY");
    assert_eq!(&bytes[4..8], &0xABCD_1234u32.to_be_bytes());
    assert_eq!(&bytes[16..20], &[192, 168, 88, 100], "yiaddr");
    assert_eq!(&bytes[236..240], &[0x63, 0x82, 0x53, 0x63]);
    // options sorted by code, then the end mark
    assert_eq!(&bytes[240..243], &[1, 4, 255]);
    assert!(bytes[240..].windows(3).any(|w| w == [53, 1, 2]), "option 53 = OFFER");
    assert_eq!(*bytes.last().unwrap(), 0xff);
    let back = decode_request(&bytes).unwrap();
    assert_eq!(back.opcode, Opcode::BootReply);
    assert_eq!(back.xid, 0xABCD_1234);
    assert_eq!(back.flags, 0x8000);
    assert_eq!(back.chaddr, vec![0xac, 0x1f, 0x6b, 0x8e, 0, 1]);
    assert_eq!(back.msg_type, Some(MessageType::Offer));
    assert_eq!(back.server_id, Some(ipv4(192, 168, 88, 1)));
}

#[test]
fn a_frame_is_the_header_then_the_options_given() {
    let cfg = ServerConfig::new(vec![lab()]);
    let mut store = MemoryStore::new();
    let mut p = header(9, 0, &[2, 0, 0, 0, 0, 1]);
    p[24..28].copy_from_slice(&[0, 0, 0, 0]);
    p.extend_from_slice(&[53, 1, 1, 0xff]);
    let req = decode_request(&p).unwrap();
    let out = handle(&cfg, &mut store, &req, RecvCtx { now: 1_700_000_000, server_ip: ipv4(192, 168, 88, 1) });
    let Outcome::Reply(r) = out else { panic!("应当应答") };
    let framed = frame_reply(&r.msg, &[0xff]);
    assert_eq!(framed.len(), HEADER_LEN + 1);
    assert_eq!(framed[2], 6, "hlen");
    assert_eq!(&framed[28..34], &[2, 0, 0, 0, 0, 1]);
    assert!(framed[34..236].iter().all(|b| *b == 0), "chaddr padding, sname and an empty file are zeros");
    assert_eq!(framed[240], 0xff);
}

#[test]
fn option_lengths_the_decoder_asserts_on_are_refused() {
    assert!(options_are_safe(&[53, 1, 1, 0xff]));
    assert!(options_are_safe(&[]));
    assert!(options_are_safe(&[80, 0, 0xff]), "rapid commit is empty");
    assert!(!options_are_safe(&[80, 1, 9, 0xff]));
    assert!(!options_are_safe(&[94, 2, 1, 2, 0xff]));
    assert!(options_are_safe(&[94, 3, 1, 2, 3, 0xff]));
    assert!(options_are_safe(&[151, 0, 0xff]), "an empty status code is a decode error, not an assertion");
    assert!(!options_are_safe(&[152, 3, 0, 0, 1, 0xff]));
    assert!(!options_are_safe(&[81, 2, 0, 0, 0xff]));
    assert!(options_are_safe(&[81, 3, 0, 0, 0, 0xff]));
    // adjacent options of one code are joined before the check
    assert!(options_are_safe(&[81, 1, 0, 81, 2, 0, 0, 0xff]));
    assert!(!options_are_safe(&[81, 1, 0, 0, 81, 2, 0, 0, 0xff]), "a pad ends the run");
    // nothing after the end mark is looked at
    assert!(options_are_safe(&[0xff, 80, 1, 9]));
    // nor after an option that fails to decode: a three-byte subnet mask
    assert!(options_are_safe(&[1, 3, 0, 0, 0, 80, 1, 9, 0xff]));
    assert!(!options_are_safe(&[1, 4, 255, 255, 255, 0, 80, 1, 9, 0xff]));
    // an option of the open run's code that is cut short stops the decoder first
    assert!(options_are_safe(&[81, 1, 0, 81, 5, 0]));
    assert!(!options_are_safe(&[81, 1, 0, 53, 5, 0]));

    let mut p = header(5, 0, &[1, 2, 3, 4, 5, 6]);
    p.extend_from_slice(&[53, 1, 1, 81, 1, 0, 0xff]);
    assert!(decode_request(&p).is_none());
    assert_eq!(decode_packet(&p).unwrap_err(), "选项的长度不合规定，无法解码");
}

#[test]
fn options_after_one_that_fails_to_decode_are_not_read() {
    let mut p = header(5, 0, &[1, 2, 3, 4, 5, 6]);
    p.extend_from_slice(&[53, 1, 1, 151, 0, 80, 1, 9, 0xff]);
    let r = decode_request(&p).unwrap();
    assert_eq!(r.msg_type, Some(MessageType::Discover));
    assert!(decode_packet(&p).is_ok());
}
