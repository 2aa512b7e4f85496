//! DHCPv4 messages on the wire.
//!
//! The fixed BOOTP header (RFC 2131 §2: 236 bytes, then the magic cookie)
//! is read and written here. The options area after it is decoded and
//! encoded by dhcproto.

use vstd::prelude::*;

use dhcproto::v4::{DhcpOption, DhcpOptions, UnknownOption};
use dhcproto::{Decodable, Decoder, Encodable, Encoder};

use crate::addr::copy_bytes;
use crate::discovery::{be32, be_bytes, push_zeros, read_be32, zeros};
use crate::message::{
    opt_bytes, opt_code, opts_view, DhcpOpt, MessageType, Opcode, OptView, ReplyMsg, ReplyView, Request, RequestView,
    OPT_CLASS_ID, OPT_LEASE_TIME, OPT_MESSAGE_TYPE, OPT_SERVER_ID,
};

verus! {

/// The length of the fixed header with the magic cookie; the options start
/// here.
pub const HEADER_LEN: usize = 240;

/// Option 12.
pub const OPT_HOSTNAME: u8 = 12;

/// Option 50.
pub const OPT_REQUESTED_IP: u8 = 50;

/// Option 61.
pub const OPT_CLIENT_ID: u8 = 61;

/// Option 77.
pub const OPT_USER_CLASS: u8 = 77;

/// One option of a request as dhcproto decodes it, for the options a
/// request is read for.
#[derive(Debug, PartialEq, Eq)]
pub enum WireOpt {
    /// Option 53, by its number.
    Kind(u8),
    /// Options 60, 61 and 77.
    Bytes(Vec<u8>),
    /// Options 50 and 54.
    Addr(u32),
    /// Option 51.
    Secs(u32),
    /// Option 12.
    Text(String),
    /// Any other option.
    Other,
}

/// The mathematical value of a [`WireOpt`].
pub enum WireOptView {
    Kind(u8),
    Bytes(Seq<u8>),
    Addr(u32),
    Secs(u32),
    Text(Seq<char>),
    Other,
}

impl View for WireOpt {
    type V = WireOptView;

    open spec fn view(&self) -> WireOptView {
        match self {
            WireOpt::Kind(n) => WireOptView::Kind(*n),
            WireOpt::Bytes(b) => WireOptView::Bytes(b@),
            WireOpt::Addr(a) => WireOptView::Addr(*a),
            WireOpt::Secs(s) => WireOptView::Secs(*s),
            WireOpt::Text(t) => WireOptView::Text(t@),
            WireOpt::Other => WireOptView::Other,
        }
    }
}

pub open spec fn wire_opt_view(o: Option<WireOpt>) -> Option<WireOptView> {
    match o {
        Some(w) => Some(w@),
        None => None,
    }
}

/// What dhcproto finds under `code` in the options area `options`.
pub uninterp spec fn wire_option(options: Seq<u8>, code: u8) -> Option<WireOptView>;

/// Whether dhcproto's decoder takes a value of `len` bytes for option
/// `code` without reaching one of its assertions: option 80 must be
/// empty, option 94 three bytes, options 152 to 155 four bytes, and
/// option 81 at least three.
pub open spec fn run_ok(code: int, len: nat) -> bool {
    &&& !(code == 80 && len != 0)
    &&& !(code == 94 && len != 3)
    &&& !(152 <= code <= 155 && len != 4)
    &&& !(code == 81 && len < 3)
}

/// The run of whole options of code `c` that starts at `j` in `b`: where it
/// ends, and how many value bytes it holds together. The decoder joins such
/// a run into one value (RFC 3396).
pub open spec fn run_span(b: Seq<u8>, j: int, c: u8) -> (int, nat)
    decreases b.len() - j,
{
    if 0 <= j && j + 1 < b.len() && b[j] == c && j + 2 + b[j + 1] <= b.len() {
        let (e, t) = run_span(b, j + 2 + b[j + 1], c);
        (e, t + b[j + 1] as nat)
    } else {
        (j, 0)
    }
}

/// Whether dhcproto's `DhcpOption::decode` takes the option `run` (a run of
/// whole options of one code) without an error.
pub uninterp spec fn option_decodes(run: Seq<u8>) -> bool;

/// Decodes the run of options `b[start..end]` with dhcproto's
/// `DhcpOption::decode` and reports whether that succeeded. The run is
/// whole options of one code whose joined length the decoder does not
/// assert on. The claim is that the answer depends on the run's bytes alone
/// (it is named [`option_decodes`]); which values dhcproto accepts is not
/// stated.
#[verifier::external_body]
fn decodes_run(b: &[u8], start: usize, end: usize) -> (r: bool)
    requires
        start < end <= b@.len(),
        run_span(b@, start as int, b@[start as int]).0 == end,
        run_ok(b@[start as int] as int, run_span(b@, start as int, b@[start as int]).1),
    ensures
        r == option_decodes(b@.subrange(start as int, end as int)),
{
    DhcpOption::decode(&mut Decoder::new(&b[start..end])).is_ok()
}

/// What closing the run of code `code` (-1 for none) that began at `start`
/// and holds `len` value bytes at `end` decides: `Some(false)` where the
/// decoder asserts on it, `Some(true)` where it fails to decode it and so
/// stops reading options, `None` where the walk goes on.
pub open spec fn run_verdict(b: Seq<u8>, code: int, start: int, end: int, len: nat) -> Option<bool> {
    if code == -1 {
        None
    } else if !run_ok(code, len) {
        Some(false)
    } else if !option_decodes(b.subrange(start, end)) {
        Some(true)
    } else {
        None
    }
}

pub open spec fn verdict_or(v: Option<bool>, d: bool) -> bool {
    match v {
        Some(x) => x,
        None => d,
    }
}

/// Whether dhcproto reads the options area `b`, from `i` on, without
/// reaching one of its assertions, where a run of code `code` (-1 for
/// none) that began at `start` with `len` value bytes is open at `i`.
/// A pad, the end mark or another code closes the run, which the decoder
/// then decodes; it stops reading at the end mark, at the end of the
/// bytes, at an option cut short and at the first option that fails to
/// decode. An option of the open run's code that is cut short stops it
/// before the run is decoded.
pub open spec fn opts_safe_from(b: Seq<u8>, i: int, code: int, start: int, len: nat) -> bool
    decreases b.len() - i,
{
    if i < 0 || i >= b.len() || b[i] == 255 {
        verdict_or(run_verdict(b, code, start, i, len), true)
    } else if b[i] == 0 {
        verdict_or(run_verdict(b, code, start, i, len), opts_safe_from(b, i + 1, -1, 0, 0))
    } else if i + 1 >= b.len() || i + 2 + b[i + 1] > b.len() {
        b[i] as int == code || verdict_or(run_verdict(b, code, start, i, len), true)
    } else if b[i] as int == code {
        opts_safe_from(b, i + 2 + b[i + 1], code, start, len + b[i + 1] as nat)
    } else {
        verdict_or(
            run_verdict(b, code, start, i, len),
            opts_safe_from(b, i + 2 + b[i + 1], b[i] as int, i, b[i + 1] as nat),
        )
    }
}

/// Whether dhcproto decodes the options area `b` without reaching one of
/// its assertions.
pub open spec fn options_safe(b: Seq<u8>) -> bool {
    opts_safe_from(b, 0, -1, 0, 0)
}

pub open spec fn code_int(c: u16) -> int {
    if c == 256 {
        -1
    } else {
        c as int
    }
}

fn run_ok_exec(code: u16, len: usize) -> (r: bool)
    requires
        code <= 256,
    ensures
        r == run_ok(code_int(code), len as nat),
{
    !(code == 80 && len != 0) && !(code == 94 && len != 3) && !(152 <= code && code <= 155 && len
        != 4) && !(code == 81 && len < 3)
}

fn close_run(b: &[u8], code: u16, start: usize, end: usize, len: usize) -> (r: Option<bool>)
    requires
        code <= 256,
        start <= end <= b@.len(),
        code != 256 ==> start < end && b@[start as int] as int == code as int && run_span(
            b@,
            start as int,
            b@[start as int],
        ) == (end as int, len as nat),
    ensures
        r == run_verdict(b@, code_int(code), start as int, end as int, len as nat),
{
    if code == 256 {
        None
    } else if !run_ok_exec(code, len) {
        Some(false)
    } else if !decodes_run(b, start, end) {
        Some(true)
    } else {
        None
    }
}

/// Whether dhcproto decodes the options area `b` without reaching one of
/// its assertions (see [`options_safe`]).
pub fn options_are_safe(b: &[u8]) -> (r: bool)
    ensures
        r == options_safe(b@),
{
    let mut i: usize = 0;
    let mut code: u16 = 256;
    let mut start: usize = 0;
    let mut len: usize = 0;
    while i < b.len()
        invariant
            i <= b@.len(),
            start <= i,
            len <= i,
            code <= 256,
            code != 0 && code != 255,
            code != 256 ==> start < i && b@[start as int] as int == code as int && run_span(
                b@,
                start as int,
                b@[start as int],
            ) == (run_span(b@, i as int, b@[start as int]).0, (len + run_span(
                b@,
                i as int,
                b@[start as int],
            ).1) as nat),
            options_safe(b@) == opts_safe_from(
                b@,
                i as int,
                code_int(code),
                start as int,
                len as nat,
            ),
        decreases b@.len() - i,
    {
        let c = b[i];
        if c == 255 {
            return match close_run(b, code, start, i, len) {
                Some(v) => v,
                None => true,
            };
        }
        if c == 0 {
            match close_run(b, code, start, i, len) {
                Some(v) => return v,
                None => {},
            }
            i = i + 1;
            code = 256;
            start = 0;
            len = 0;
        } else {
            if i + 1 >= b.len() || b[i + 1] as usize > b.len() - i - 2 {
                if c as u16 == code {
                    return true;
                }
                return match close_run(b, code, start, i, len) {
                    Some(v) => v,
                    None => true,
                };
            }
            let l = b[i + 1] as usize;
            if c as u16 == code {
                len = len + l;
            } else {
                match close_run(b, code, start, i, len) {
                    Some(v) => return v,
                    None => {},
                }
                code = c as u16;
                start = i;
                len = l;
            }
            i = i + 2 + l;
        }
    }
    match close_run(b, code, start, i, len) {
        Some(v) => v,
        None => true,
    }
}

/// Decodes the options area `options` with dhcproto's
/// `DhcpOptions::decode` and looks `code` up with `DhcpOptions::get`,
/// handing the value out by its kind. The decoder asserts on some value
/// lengths (see [`options_safe`]), so such areas are left out. The claim is
/// that the result depends on the two arguments alone (it is named
/// [`wire_option`]); which options dhcproto understands, how it joins split
/// ones and where it stops on a malformed one are not stated.
#[verifier::external_body]
fn read_option(options: &[u8], code: u8) -> (r: Option<WireOpt>)
    requires
        options_safe(options@),
    ensures
        wire_opt_view(r) == wire_option(options@, code),
{
    let opts = DhcpOptions::decode(&mut Decoder::new(options)).ok()?;
    Some(match opts.get(code.into())? {
        DhcpOption::MessageType(t) => WireOpt::Kind(u8::from(*t)),
        DhcpOption::ClientIdentifier(v) | DhcpOption::ClassIdentifier(v) | DhcpOption::UserClass(v) => WireOpt::Bytes(v.clone()),
        DhcpOption::RequestedIpAddress(a) | DhcpOption::ServerIdentifier(a) => WireOpt::Addr(u32::from(*a)),
        DhcpOption::AddressLeaseTime(t) => WireOpt::Secs(*t),
        DhcpOption::Hostname(s) => WireOpt::Text(s.clone()),
        _ => WireOpt::Other,
    })
}

/// The big-endian 16-bit number at `i`.
pub open spec fn be16(b: Seq<u8>, i: int) -> u16 {
    (b[i] as int * 0x100 + b[i + 1] as int) as u16
}

pub open spec fn opcode_of(n: u8) -> Opcode {
    if n == 1 {
        Opcode::BootRequest
    } else if n == 2 {
        Opcode::BootReply
    } else {
        Opcode::Unknown(n)
    }
}

/// The message type numbered `n` (RFC 2132 §9.6).
pub open spec fn type_of(n: u8) -> MessageType {
    if n == 1 {
        MessageType::Discover
    } else if n == 2 {
        MessageType::Offer
    } else if n == 3 {
        MessageType::Request
    } else if n == 4 {
        MessageType::Decline
    } else if n == 5 {
        MessageType::Ack
    } else if n == 6 {
        MessageType::Nak
    } else if n == 7 {
        MessageType::Release
    } else if n == 8 {
        MessageType::Inform
    } else {
        MessageType::Unknown(n)
    }
}

/// Whether `b` holds a whole header whose hardware address fits the
/// sixteen bytes it has.
pub open spec fn header_ok(b: Seq<u8>) -> bool {
    b.len() >= HEADER_LEN && b[2] <= 16
}

/// The request that the header of `b` gives, with no options: opcode,
/// hardware type, `xid`, flags, `ciaddr`, `giaddr`, and the first `hlen`
/// bytes of `chaddr`.
pub open spec fn spec_header(b: Seq<u8>) -> RequestView {
    RequestView {
        opcode: opcode_of(b[0]),
        htype: b[1],
        xid: be32(b, 4),
        flags: be16(b, 10),
        ciaddr: be32(b, 12),
        giaddr: be32(b, 24),
        chaddr: b.subrange(28, 28 + b[2] as int),
        msg_type: None,
        client_ident: None,
        requested_ip: None,
        server_id: None,
        hostname: None,
        class_id: None,
        user_class: None,
        lease_time: None,
    }
}

pub open spec fn bytes_of(o: Option<WireOptView>) -> Option<Seq<u8>> {
    match o {
        Some(WireOptView::Bytes(b)) => Some(b),
        _ => None,
    }
}

pub open spec fn addr_of(o: Option<WireOptView>) -> Option<u32> {
    match o {
        Some(WireOptView::Addr(a)) => Some(a),
        _ => None,
    }
}

/// `q` with the field that option `code` fills set from `o`: a value of
/// the kind the field takes, or nothing. Other codes leave `q` as it is.
pub open spec fn spec_with_option(q: RequestView, code: u8, o: Option<WireOptView>) -> RequestView {
    if code == OPT_MESSAGE_TYPE {
        RequestView {
            msg_type: match o {
                Some(WireOptView::Kind(n)) => Some(type_of(n)),
                _ => None,
            },
            ..q
        }
    } else if code == OPT_CLIENT_ID {
        RequestView { client_ident: bytes_of(o), ..q }
    } else if code == OPT_REQUESTED_IP {
        RequestView { requested_ip: addr_of(o), ..q }
    } else if code == OPT_SERVER_ID {
        RequestView { server_id: addr_of(o), ..q }
    } else if code == OPT_HOSTNAME {
        RequestView {
            hostname: match o {
                Some(WireOptView::Text(t)) => Some(t),
                _ => None,
            },
            ..q
        }
    } else if code == OPT_CLASS_ID {
        RequestView { class_id: bytes_of(o), ..q }
    } else if code == OPT_USER_CLASS {
        RequestView { user_class: bytes_of(o), ..q }
    } else if code == OPT_LEASE_TIME {
        RequestView {
            lease_time: match o {
                Some(WireOptView::Secs(s)) => Some(s),
                _ => None,
            },
            ..q
        }
    } else {
        q
    }
}

/// The request in the packet `b`: its header, then the options that a
/// request is read for, each as dhcproto finds it in the options area.
/// Nothing when the header is not whole or dhcproto would assert on the
/// options area.
pub open spec fn spec_decode(b: Seq<u8>) -> Option<RequestView> {
    if header_ok(b) && options_safe(b.subrange(HEADER_LEN as int, b.len() as int)) {
        let o = b.subrange(HEADER_LEN as int, b.len() as int);
        let q = spec_header(b);
        let q = spec_with_option(q, OPT_MESSAGE_TYPE, wire_option(o, OPT_MESSAGE_TYPE));
        let q = spec_with_option(q, OPT_CLIENT_ID, wire_option(o, OPT_CLIENT_ID));
        let q = spec_with_option(q, OPT_REQUESTED_IP, wire_option(o, OPT_REQUESTED_IP));
        let q = spec_with_option(q, OPT_SERVER_ID, wire_option(o, OPT_SERVER_ID));
        let q = spec_with_option(q, OPT_HOSTNAME, wire_option(o, OPT_HOSTNAME));
        let q = spec_with_option(q, OPT_CLASS_ID, wire_option(o, OPT_CLASS_ID));
        let q = spec_with_option(q, OPT_USER_CLASS, wire_option(o, OPT_USER_CLASS));
        Some(spec_with_option(q, OPT_LEASE_TIME, wire_option(o, OPT_LEASE_TIME)))
    } else {
        None
    }
}

pub open spec fn opt_request_view(r: Option<Request>) -> Option<RequestView> {
    match r {
        Some(q) => Some(q@),
        None => None,
    }
}

fn opcode_from(n: u8) -> (r: Opcode)
    ensures
        r == opcode_of(n),
{
    if n == 1 {
        Opcode::BootRequest
    } else if n == 2 {
        Opcode::BootReply
    } else {
        Opcode::Unknown(n)
    }
}

/// The message type numbered `n`.
pub fn type_from(n: u8) -> (r: MessageType)
    ensures
        r == type_of(n),
{
    if n == 1 {
        MessageType::Discover
    } else if n == 2 {
        MessageType::Offer
    } else if n == 3 {
        MessageType::Request
    } else if n == 4 {
        MessageType::Decline
    } else if n == 5 {
        MessageType::Ack
    } else if n == 6 {
        MessageType::Nak
    } else if n == 7 {
        MessageType::Release
    } else if n == 8 {
        MessageType::Inform
    } else {
        MessageType::Unknown(n)
    }
}

/// The request that the header of `bytes` gives, with no options; `None`
/// when the packet is shorter than the header or its hardware address
/// length is over sixteen.
pub fn request_header(bytes: &[u8]) -> (r: Option<Request>)
    ensures
        match r {
            Some(q) => header_ok(bytes@) && q@ == spec_header(bytes@),
            None => !header_ok(bytes@),
        },
{
    if bytes.len() < HEADER_LEN || bytes[2] > 16 {
        return None;
    }
    let hlen = bytes[2] as usize;
    let mut chaddr: Vec<u8> = Vec::new();
    let mut k: usize = 0;
    while k < hlen
        invariant
            0 <= k <= hlen,
            hlen == bytes@[2],
            hlen <= 16,
            bytes@.len() >= HEADER_LEN,
            chaddr@ == bytes@.subrange(28, 28 + k),
        decreases hlen - k,
    {
        chaddr.push(bytes[28 + k]);
        k = k + 1;
        proof {
            assert(chaddr@ =~= bytes@.subrange(28, 28 + k));
        }
    }
    let flags: u16 = (bytes[10] as u16) * 0x100 + (bytes[11] as u16);
    Some(Request {
        opcode: opcode_from(bytes[0]),
        htype: bytes[1],
        xid: read_be32(bytes, 4),
        flags,
        ciaddr: read_be32(bytes, 12),
        giaddr: read_be32(bytes, 24),
        chaddr,
        msg_type: None,
        client_ident: None,
        requested_ip: None,
        server_id: None,
        hostname: None,
        class_id: None,
        user_class: None,
        lease_time: None,
    })
}

/// Sets the field of `req` that option `code` fills from what dhcproto
/// found under it: a value of the kind the field takes, or nothing.
pub fn with_option(req: &mut Request, code: u8, o: Option<WireOpt>)
    ensures
        final(req)@ == spec_with_option(old(req)@, code, wire_opt_view(o)),
{
    if code == OPT_MESSAGE_TYPE {
        req.msg_type = match o {
            Some(WireOpt::Kind(n)) => Some(type_from(n)),
            _ => None,
        };
    } else if code == OPT_CLIENT_ID {
        req.client_ident = match o {
            Some(WireOpt::Bytes(b)) => Some(b),
            _ => None,
        };
    } else if code == OPT_REQUESTED_IP {
        req.requested_ip = match o {
            Some(WireOpt::Addr(a)) => Some(a),
            _ => None,
        };
    } else if code == OPT_SERVER_ID {
        req.server_id = match o {
            Some(WireOpt::Addr(a)) => Some(a),
            _ => None,
        };
    } else if code == OPT_HOSTNAME {
        req.hostname = match o {
            Some(WireOpt::Text(t)) => Some(t),
            _ => None,
        };
    } else if code == OPT_CLASS_ID {
        req.class_id = match o {
            Some(WireOpt::Bytes(b)) => Some(b),
            _ => None,
        };
    } else if code == OPT_USER_CLASS {
        req.user_class = match o {
            Some(WireOpt::Bytes(b)) => Some(b),
            _ => None,
        };
    } else if code == OPT_LEASE_TIME {
        req.lease_time = match o {
            Some(WireOpt::Secs(s)) => Some(s),
            _ => None,
        };
    }
}

/// Decodes a packet into the request the server reads: `None` when it is
/// shorter than the header, its hardware address length is over sixteen
/// (dhcproto would slice past its sixteen bytes), or its options area holds
/// a value dhcproto asserts on.
pub fn decode_request(bytes: &[u8]) -> (r: Option<Request>)
    ensures
        opt_request_view(r) == spec_decode(bytes@),
{
    let mut q = match request_header(bytes) {
        Some(q) => q,
        None => return None,
    };
    let o = vstd::slice::slice_subrange(bytes, HEADER_LEN, bytes.len());
    if !options_are_safe(o) {
        return None;
    }
    with_option(&mut q, OPT_MESSAGE_TYPE, read_option(o, OPT_MESSAGE_TYPE));
    with_option(&mut q, OPT_CLIENT_ID, read_option(o, OPT_CLIENT_ID));
    with_option(&mut q, OPT_REQUESTED_IP, read_option(o, OPT_REQUESTED_IP));
    with_option(&mut q, OPT_SERVER_ID, read_option(o, OPT_SERVER_ID));
    with_option(&mut q, OPT_HOSTNAME, read_option(o, OPT_HOSTNAME));
    with_option(&mut q, OPT_CLASS_ID, read_option(o, OPT_CLASS_ID));
    with_option(&mut q, OPT_USER_CLASS, read_option(o, OPT_USER_CLASS));
    with_option(&mut q, OPT_LEASE_TIME, read_option(o, OPT_LEASE_TIME));
    Some(q)
}

/// dhcproto's account of a packet shorter than the header.
/// `Message::decode` reads the 240 bytes of the header before anything
/// else, so on fewer it fails there, with `DecodeError::NotEnoughBytes`,
/// whose text this is; it never reaches the options.
#[verifier::external_body]
fn short_packet_text(bytes: &[u8]) -> (r: Option<String>)
    requires
        bytes@.len() < HEADER_LEN,
    ensures
        r is Some,
        r matches Some(t) ==> t@ == "parser ran out of data-- not enough bytes"@,
{
    dhcproto::v4::Message::decode(&mut Decoder::new(bytes)).err().map(|e| e.to_string())
}

/// Why a packet with a whole header cannot be read: its hardware address
/// length is over the sixteen bytes the header has for it.
pub open spec fn spec_long_chaddr_text() -> Seq<char> {
    "硬件地址长度超过 16 字节"@
}

/// Why a packet with a whole header cannot be read: its options area holds
/// a value whose length dhcproto's decoder asserts on.
pub open spec fn spec_bad_option_text() -> Seq<char> {
    "选项的长度不合规定，无法解码"@
}

/// Why the bytes `b`, which do not decode, do not: dhcproto's complaint
/// about a packet shorter than the header, an option value dhcproto
/// asserts on, or a hardware address length over sixteen.
pub open spec fn spec_decode_error(b: Seq<u8>) -> Seq<char> {
    if b.len() < HEADER_LEN {
        "parser ran out of data-- not enough bytes"@
    } else if !options_safe(b.subrange(HEADER_LEN as int, b.len() as int)) {
        spec_bad_option_text()
    } else {
        spec_long_chaddr_text()
    }
}

/// Decodes a packet, or says why it cannot (see [`spec_decode_error`]).
pub fn decode_packet(bytes: &[u8]) -> (r: Result<Request, String>)
    ensures
        match r {
            Ok(q) => spec_decode(bytes@) == Some(q@),
            Err(e) => spec_decode(bytes@) is None && e@ == spec_decode_error(bytes@),
        },
{
    if bytes.len() < HEADER_LEN {
        return match short_packet_text(bytes) {
            Some(t) => Err(t),
            None => Err(String::new()),
        };
    }
    let o = vstd::slice::slice_subrange(bytes, HEADER_LEN, bytes.len());
    if !options_are_safe(o) {
        return Err("选项的长度不合规定，无法解码".to_owned());
    }
    match decode_request(bytes) {
        Some(q) => Ok(q),
        None => Err("硬件地址长度超过 16 字节".to_owned()),
    }
}

// ---------- writing a reply ----------

/// The number of a message type (RFC 2132 §9.6).
pub open spec fn type_code(t: MessageType) -> u8 {
    match t {
        MessageType::Discover => 1,
        MessageType::Offer => 2,
        MessageType::Request => 3,
        MessageType::Decline => 4,
        MessageType::Ack => 5,
        MessageType::Nak => 6,
        MessageType::Release => 7,
        MessageType::Inform => 8,
        MessageType::Unknown(n) => n,
    }
}

/// Addresses, four big-endian bytes each.
pub open spec fn addrs_bytes(v: Seq<u32>) -> Seq<u8>
    decreases v.len(),
{
    if v.len() == 0 {
        Seq::empty()
    } else {
        addrs_bytes(v.drop_last()) + be_bytes(v.last())
    }
}

/// The value bytes of an option (RFC 2132): the type number, addresses and
/// times big-endian, text in UTF-8, raw values as they are.
pub open spec fn opt_value(o: OptView) -> Seq<u8> {
    match o {
        OptView::MessageType(t) => seq![type_code(t)],
        OptView::ServerIdentifier(a) => be_bytes(a),
        OptView::AddressLeaseTime(s) => be_bytes(s),
        OptView::Renewal(s) => be_bytes(s),
        OptView::Rebinding(s) => be_bytes(s),
        OptView::SubnetMask(m) => be_bytes(m),
        OptView::Router(v) => addrs_bytes(v),
        OptView::DomainNameServer(v) => addrs_bytes(v),
        OptView::DomainName(t) => vstd::utf8::encode_utf8(t),
        OptView::BootfileName(b) => b,
        OptView::TftpServerName(b) => b,
        OptView::ClassIdentifier(b) => b,
        OptView::Message(t) => vstd::utf8::encode_utf8(t),
        OptView::Raw(_, b) => b,
    }
}

/// Options as (code, value) pairs, in their order.
pub open spec fn opt_pairs(opts: Seq<OptView>) -> Seq<(u8, Seq<u8>)> {
    opts.map_values(|o: OptView| (opt_code(o), opt_value(o)))
}

pub open spec fn pairs_view(v: Seq<(u8, Vec<u8>)>) -> Seq<(u8, Seq<u8>)> {
    v.map_values(|p: (u8, Vec<u8>)| (p.0, p.1@))
}

/// What dhcproto writes for the options `opts`.
pub uninterp spec fn wire_options(opts: Seq<(u8, Seq<u8>)>) -> Option<Seq<u8>>;

/// Encodes `opts` with dhcproto: each pair becomes a `DhcpOption::Unknown`
/// of that code and value, collected into `DhcpOptions` (its
/// `FromIterator`) and written by its `Encodable::encode`. The claim is that
/// the bytes depend on `opts` alone (they are named [`wire_options`]); the
/// order by code, the splitting of long values and the end mark are not
/// stated.
#[verifier::external_body]
fn encode_options(opts: &Vec<(u8, Vec<u8>)>) -> (r: Option<Vec<u8>>)
    ensures
        opt_bytes(r) == wire_options(pairs_view(opts@)),
{
    let o: DhcpOptions = opts.iter().map(|(c, d)| DhcpOption::Unknown(UnknownOption::new((*c).into(), d.clone()))).collect();
    let mut out = Vec::new();
    let res = o.encode(&mut Encoder::new(&mut out));
    res.ok().map(|_| out)
}

/// `b` followed by zeros up to `n` bytes.
pub open spec fn padded(b: Seq<u8>, n: nat) -> Seq<u8> {
    b + zeros((n - b.len()) as nat)
}

pub open spec fn file_bytes(f: Option<Seq<u8>>) -> Seq<u8> {
    match f {
        Some(b) => b,
        None => Seq::empty(),
    }
}

/// The magic cookie that ends the header.
pub open spec fn magic() -> Seq<u8> {
    seq![0x63u8, 0x82u8, 0x53u8, 0x63u8]
}

/// The header of a reply: BOOTREPLY, the hardware type and address length,
/// no hops, `xid`, no seconds, the flags, the four addresses, the hardware
/// address padded to sixteen bytes, an empty server name, the file padded
/// to 128 bytes, and the magic cookie.
pub open spec fn spec_reply_header(m: ReplyView) -> Seq<u8> {
    seq![2u8, m.htype, m.chaddr.len() as u8, 0u8] + be_bytes(m.xid) + seq![0u8, 0u8, (m.flags / 0x100) as u8, (m.flags % 0x100) as u8]
        + be_bytes(m.ciaddr) + be_bytes(m.yiaddr) + be_bytes(m.siaddr) + be_bytes(m.giaddr) + padded(m.chaddr, 16)
        + zeros(64) + padded(file_bytes(m.fname), 128) + magic()
}

/// Whether `m` fits the header: a hardware address of at most sixteen bytes
/// and a file of at most 128.
pub open spec fn fits_header(m: ReplyView) -> bool {
    &&& m.chaddr.len() <= 16
    &&& file_bytes(m.fname).len() <= 128
}

fn push_be32(out: &mut Vec<u8>, x: u32)
    ensures
        final(out)@ == old(out)@ + be_bytes(x),
{
    out.push((x / 0x1000000) as u8);
    out.push((x / 0x10000 % 0x100) as u8);
    out.push((x / 0x100 % 0x100) as u8);
    out.push((x % 0x100) as u8);
    proof {
        assert(final(out)@ =~= old(out)@ + be_bytes(x));
    }
}

fn push_bytes(out: &mut Vec<u8>, b: &[u8])
    ensures
        final(out)@ == old(out)@ + b@,
{
    let ghost start = out@;
    let mut k: usize = 0;
    while k < b.len()
        invariant
            0 <= k <= b@.len(),
            out@ == start + b@.take(k as int),
        decreases b@.len() - k,
    {
        out.push(b[k]);
        k = k + 1;
        proof {
            assert(out@ =~= start + b@.take(k as int));
        }
    }
    proof {
        assert(b@.take(b@.len() as int) =~= b@);
    }
}

fn addrs_value(v: &Vec<u32>) -> (r: Vec<u8>)
    ensures
        r@ == addrs_bytes(v@),
{
    let mut out: Vec<u8> = Vec::new();
    let mut k: usize = 0;
    while k < v.len()
        invariant
            0 <= k <= v@.len(),
            out@ == addrs_bytes(v@.take(k as int)),
        decreases v@.len() - k,
    {
        proof {
            assert(v@.take(k + 1).drop_last() =~= v@.take(k as int));
        }
        push_be32(&mut out, v[k]);
        k = k + 1;
    }
    proof {
        assert(v@.take(v@.len() as int) =~= v@);
    }
    out
}

fn type_number(t: MessageType) -> (r: u8)
    ensures
        r == type_code(t),
{
    match t {
        MessageType::Discover => 1,
        MessageType::Offer => 2,
        MessageType::Request => 3,
        MessageType::Decline => 4,
        MessageType::Ack => 5,
        MessageType::Nak => 6,
        MessageType::Release => 7,
        MessageType::Inform => 8,
        MessageType::Unknown(n) => n,
    }
}

fn be32_value(x: u32) -> (r: Vec<u8>)
    ensures
        r@ == be_bytes(x),
{
    let mut out: Vec<u8> = Vec::new();
    push_be32(&mut out, x);
    proof {
        assert(out@ =~= be_bytes(x));
    }
    out
}

/// The value bytes of an option.
pub fn option_value(o: &DhcpOpt) -> (r: Vec<u8>)
    ensures
        r@ == opt_value(o@),
{
    match o {
        DhcpOpt::MessageType(t) => vec![type_number(*t)],
        DhcpOpt::ServerIdentifier(a) => be32_value(*a),
        DhcpOpt::AddressLeaseTime(s) => be32_value(*s),
        DhcpOpt::Renewal(s) => be32_value(*s),
        DhcpOpt::Rebinding(s) => be32_value(*s),
        DhcpOpt::SubnetMask(m) => be32_value(*m),
        DhcpOpt::Router(v) => addrs_value(v),
        DhcpOpt::DomainNameServer(v) => addrs_value(v),
        DhcpOpt::DomainName(t) => copy_bytes(t.as_str().as_bytes()),
        DhcpOpt::BootfileName(b) => copy_bytes(b.as_slice()),
        DhcpOpt::TftpServerName(b) => copy_bytes(b.as_slice()),
        DhcpOpt::ClassIdentifier(b) => copy_bytes(b.as_slice()),
        DhcpOpt::Message(t) => copy_bytes(t.as_str().as_bytes()),
        DhcpOpt::Raw(_, b) => copy_bytes(b.as_slice()),
    }
}

/// The options as (code, value) pairs, in their order.
pub fn option_pairs(opts: &Vec<DhcpOpt>) -> (r: Vec<(u8, Vec<u8>)>)
    ensures
        pairs_view(r@) == opt_pairs(opts_view(opts@)),
{
    let mut out: Vec<(u8, Vec<u8>)> = Vec::new();
    let mut k: usize = 0;
    while k < opts.len()
        invariant
            0 <= k <= opts@.len(),
            pairs_view(out@) == opt_pairs(opts_view(opts@.take(k as int))),
        decreases opts@.len() - k,
    {
        let ghost before = out@;
        let pair = (opts[k].code(), option_value(&opts[k]));
        out.push(pair);
        k = k + 1;
        proof {
            assert(pairs_view(out@) =~= pairs_view(before).push((pair.0, pair.1@)));
            assert(opts_view(opts@.take(k as int)) =~= opts_view(opts@.take(k - 1)).push(opts@[k - 1]@));
            assert(opt_pairs(opts_view(opts@.take(k as int))) =~= opt_pairs(opts_view(opts@.take(k - 1))).push(
                (opt_code(opts@[k - 1]@), opt_value(opts@[k - 1]@)),
            ));
        }
    }
    proof {
        assert(opts@.take(opts@.len() as int) =~= opts@);
    }
    out
}

/// The fixed fields before the hardware address.
pub open spec fn header_start(m: ReplyView) -> Seq<u8> {
    seq![2u8, m.htype, m.chaddr.len() as u8, 0u8] + be_bytes(m.xid) + seq![0u8, 0u8, (m.flags / 0x100) as u8, (m.flags % 0x100) as u8]
        + be_bytes(m.ciaddr) + be_bytes(m.yiaddr) + be_bytes(m.siaddr) + be_bytes(m.giaddr)
}

fn push_header_start(out: &mut Vec<u8>, msg: &ReplyMsg)
    requires
        fits_header(msg@),
    ensures
        final(out)@ == old(out)@ + header_start(msg@),
{
    let ghost start = out@;
    out.push(2);
    out.push(msg.htype);
    out.push(msg.chaddr.len() as u8);
    out.push(0);
    push_be32(out, msg.xid);
    out.push(0);
    out.push(0);
    out.push((msg.flags / 0x100) as u8);
    out.push((msg.flags % 0x100) as u8);
    let ghost mid = out@;
    proof {
        assert(mid =~= start + (seq![2u8, msg@.htype, msg@.chaddr.len() as u8, 0u8] + be_bytes(msg.xid)
            + seq![0u8, 0u8, (msg.flags / 0x100) as u8, (msg.flags % 0x100) as u8]));
    }
    push_be32(out, msg.ciaddr);
    push_be32(out, msg.yiaddr);
    push_be32(out, msg.siaddr);
    push_be32(out, msg.giaddr);
    proof {
        assert(out@ =~= old(out)@ + header_start(msg@));
    }
}

fn push_padded(out: &mut Vec<u8>, b: &[u8], n: usize)
    requires
        b@.len() <= n,
    ensures
        final(out)@ == old(out)@ + padded(b@, n as nat),
{
    push_bytes(out, b);
    push_zeros(out, n - b.len());
    proof {
        assert(final(out)@ =~= old(out)@ + padded(b@, n as nat));
    }
}

/// The reply's header followed by the options area `options`.
pub fn frame_reply(msg: &ReplyMsg, options: &[u8]) -> (r: Vec<u8>)
    requires
        fits_header(msg@),
    ensures
        r@ == spec_reply_header(msg@) + options@,
{
    let mut out: Vec<u8> = Vec::new();
    push_header_start(&mut out, msg);
    push_padded(&mut out, msg.chaddr.as_slice(), 16);
    push_zeros(&mut out, 64);
    let empty: Vec<u8> = Vec::new();
    let file: &[u8] = match &msg.fname {
        Some(f) => f.as_slice(),
        None => empty.as_slice(),
    };
    assert(file@ == file_bytes(msg@.fname));
    push_padded(&mut out, file, 128);
    out.push(0x63);
    out.push(0x82);
    out.push(0x53);
    out.push(0x63);
    let ghost head = out@;
    proof {
        assert(head =~= header_start(msg@) + padded(msg@.chaddr, 16) + zeros(64) + padded(file_bytes(msg@.fname), 128) + magic());
        assert(head =~= spec_reply_header(msg@));
    }
    push_bytes(&mut out, options);
    out
}

/// Encodes a reply: its header, then its options as dhcproto writes them.
pub fn encode_reply(msg: &ReplyMsg) -> (r: Option<Vec<u8>>)
    requires
        fits_header(msg@),
    ensures
        match r {
            Some(b) => exists|o: Seq<u8>| wire_options(opt_pairs(opts_view(msg.opts@))) == Some(o) && b@ == spec_reply_header(msg@) + o,
            None => wire_options(opt_pairs(opts_view(msg.opts@))) is None,
        },
{
    let pairs = option_pairs(&msg.opts);
    match encode_options(&pairs) {
        Some(o) => Some(frame_reply(msg, o.as_slice())),
        None => None,
    }
}

proof fn lemma_be32_back(x: u32)
    ensures
        be32(be_bytes(x), 0) == x,
{
    let b = be_bytes(x);
    let a0 = x / 0x1000000;
    let a1 = x / 0x10000 % 0x100;
    let a2 = x / 0x100 % 0x100;
    let a3 = x % 0x100;
    assert(a0 < 0x100 && a1 < 0x100 && a2 < 0x100 && a3 < 0x100);
    assert(b[0] == a0 && b[1] == a1 && b[2] == a2 && b[3] == a3);
    assert(a0 * 0x1000000 + a1 * 0x10000 + a2 * 0x100 + a3 == x) by (nonlinear_arith)
        requires
            a0 == x / 0x1000000,
            a1 == x / 0x10000 % 0x100,
            a2 == x / 0x100 % 0x100,
            a3 == x % 0x100,
    ;
}

/// What a reply's header says reads back: a packet made of a reply's
/// header and any options area has a whole header, and that header gives
/// BOOTREPLY with the reply's hardware type, `xid`, flags, `ciaddr`,
/// `giaddr` and hardware address.
pub proof fn law_reply_header_reads_back(m: ReplyView, options: Seq<u8>)
    requires
        fits_header(m),
    ensures
        header_ok(spec_reply_header(m) + options),
        ({
            let q = spec_header(spec_reply_header(m) + options);
            &&& q.opcode == Opcode::BootReply
            &&& q.htype == m.htype
            &&& q.xid == m.xid
            &&& q.flags == m.flags
            &&& q.ciaddr == m.ciaddr
            &&& q.giaddr == m.giaddr
            &&& q.chaddr == m.chaddr
        }),
{
    let h = spec_reply_header(m);
    let b = h + options;
    let start = header_start(m);
    assert(h =~= start + padded(m.chaddr, 16) + zeros(64) + padded(file_bytes(m.fname), 128) + magic());
    assert(start.len() == 28);
    assert(h.len() == 240);
    assert forall|i: int| 0 <= i < 28 implies #[trigger] b[i] == start[i] by {}
    assert forall|i: int| 28 <= i < 28 + m.chaddr.len() implies #[trigger] b[i] == m.chaddr[i - 28] by {}
    assert(b.subrange(4, 8) =~= be_bytes(m.xid));
    assert(b.subrange(12, 16) =~= be_bytes(m.ciaddr));
    assert(b.subrange(24, 28) =~= be_bytes(m.giaddr));
    lemma_be32_back(m.xid);
    lemma_be32_back(m.ciaddr);
    lemma_be32_back(m.giaddr);
    assert(be32(b, 4) == be32(b.subrange(4, 8), 0));
    assert(be32(b, 12) == be32(b.subrange(12, 16), 0));
    assert(be32(b, 24) == be32(b.subrange(24, 28), 0));
    let f = m.flags;
    assert((f / 0x100) * 0x100 + f % 0x100 == f) by (nonlinear_arith);
    assert(b[10] == (f / 0x100) as u8 && b[11] == (f % 0x100) as u8);
    assert(b.subrange(28, 28 + b[2] as int) =~= m.chaddr);
}

} // verus!
