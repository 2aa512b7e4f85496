//! DHCPv4 messages as the decision layer sees them.
//!
//! A request carries the header fields and the options that the server
//! reads; a reply carries the header fields and options that it writes.
//! [`crate::wire`] turns them into bytes on the wire and back.

use vstd::prelude::*;

use crate::addr::copy_bytes;

verus! {

/// The BOOTP opcode.
#[derive(Clone, Copy, PartialEq, Eq, Debug, Structural)]
pub enum Opcode {
    BootRequest,
    BootReply,
    Unknown(u8),
}

/// Option 53, the DHCP message type.
#[derive(Clone, Copy, PartialEq, Eq, Debug, Structural)]
pub enum MessageType {
    Discover,
    Offer,
    Request,
    Decline,
    Ack,
    Nak,
    Release,
    Inform,
    /// Any other type (lease query and the like).
    Unknown(u8),
}

/// Option 53.
pub const OPT_MESSAGE_TYPE: u8 = 53;
/// Option 54, the server identifier.
pub const OPT_SERVER_ID: u8 = 54;
/// Option 51, the lease time.
pub const OPT_LEASE_TIME: u8 = 51;
/// Option 58, the renewal time T1.
pub const OPT_RENEWAL: u8 = 58;
/// Option 59, the rebinding time T2.
pub const OPT_REBINDING: u8 = 59;
/// Option 1, the subnet mask.
pub const OPT_SUBNET_MASK: u8 = 1;
/// Option 3, the routers.
pub const OPT_ROUTER: u8 = 3;
/// Option 6, the DNS servers.
pub const OPT_DNS: u8 = 6;
/// Option 15, the domain name.
pub const OPT_DOMAIN_NAME: u8 = 15;
/// Option 67, the boot file name.
pub const OPT_BOOTFILE: u8 = 67;
/// Option 66, the TFTP server name.
pub const OPT_TFTP_SERVER: u8 = 66;
/// Option 60, the vendor class identifier.
pub const OPT_CLASS_ID: u8 = 60;
/// Option 56, a message for the client.
pub const OPT_MESSAGE: u8 = 56;

/// The broadcast bit of the `flags` header field.
pub open spec fn spec_broadcast_flag(flags: u16) -> bool {
    flags >= 0x8000
}

/// Whether the client asked for broadcast replies.
pub fn broadcast_flag(flags: u16) -> (r: bool)
    ensures
        r == spec_broadcast_flag(flags),
{
    flags >= 0x8000
}

/// A client's message, with the fields and options the server reads.
#[derive(Debug)]
pub struct Request {
    pub opcode: Opcode,
    /// The hardware type (1 for Ethernet).
    pub htype: u8,
    pub xid: u32,
    pub flags: u16,
    pub ciaddr: u32,
    pub giaddr: u32,
    /// The client hardware address, `hlen` bytes of it.
    pub chaddr: Vec<u8>,
    /// Option 53.
    pub msg_type: Option<MessageType>,
    /// Option 61, raw.
    pub client_ident: Option<Vec<u8>>,
    /// Option 50.
    pub requested_ip: Option<u32>,
    /// Option 54.
    pub server_id: Option<u32>,
    /// Option 12.
    pub hostname: Option<String>,
    /// Option 60, raw.
    pub class_id: Option<Vec<u8>>,
    /// Option 77, raw.
    pub user_class: Option<Vec<u8>>,
    /// Option 51.
    pub lease_time: Option<u32>,
}

/// The bytes of an optional byte vector.
pub open spec fn opt_bytes(o: Option<Vec<u8>>) -> Option<Seq<u8>> {
    match o {
        Some(v) => Some(v@),
        None => None,
    }
}

/// The mathematical value of a [`Request`].
pub struct RequestView {
    pub opcode: Opcode,
    pub htype: u8,
    pub xid: u32,
    pub flags: u16,
    pub ciaddr: u32,
    pub giaddr: u32,
    pub chaddr: Seq<u8>,
    pub msg_type: Option<MessageType>,
    pub client_ident: Option<Seq<u8>>,
    pub requested_ip: Option<u32>,
    pub server_id: Option<u32>,
    pub hostname: Option<Seq<char>>,
    pub class_id: Option<Seq<u8>>,
    pub user_class: Option<Seq<u8>>,
    pub lease_time: Option<u32>,
}

impl View for Request {
    type V = RequestView;

    open spec fn view(&self) -> RequestView {
        RequestView {
            opcode: self.opcode,
            htype: self.htype,
            xid: self.xid,
            flags: self.flags,
            ciaddr: self.ciaddr,
            giaddr: self.giaddr,
            chaddr: self.chaddr@,
            msg_type: self.msg_type,
            client_ident: opt_bytes(self.client_ident),
            requested_ip: self.requested_ip,
            server_id: self.server_id,
            hostname: crate::lease::opt_text(self.hostname),
            class_id: opt_bytes(self.class_id),
            user_class: opt_bytes(self.user_class),
            lease_time: self.lease_time,
        }
    }
}

impl Request {
    /// A bare BOOTREQUEST from hardware address `chaddr`, with no options.
    pub fn new(xid: u32, chaddr: &[u8]) -> (r: Request)
        ensures
            r@ == (RequestView {
                opcode: Opcode::BootRequest,
                htype: 1,
                xid,
                flags: 0,
                ciaddr: 0,
                giaddr: 0,
                chaddr: chaddr@,
                msg_type: None,
                client_ident: None,
                requested_ip: None,
                server_id: None,
                hostname: None,
                class_id: None,
                user_class: None,
                lease_time: None,
            }),
    {
        Request {
            opcode: Opcode::BootRequest,
            htype: 1,
            xid,
            flags: 0,
            ciaddr: 0,
            giaddr: 0,
            chaddr: copy_bytes(chaddr),
            msg_type: None,
            client_ident: None,
            requested_ip: None,
            server_id: None,
            hostname: None,
            class_id: None,
            user_class: None,
            lease_time: None,
        }
    }
}

/// An option the server writes.
#[derive(Debug, PartialEq)]
pub enum DhcpOpt {
    MessageType(MessageType),
    ServerIdentifier(u32),
    AddressLeaseTime(u32),
    Renewal(u32),
    Rebinding(u32),
    SubnetMask(u32),
    Router(Vec<u32>),
    DomainNameServer(Vec<u32>),
    DomainName(String),
    BootfileName(Vec<u8>),
    TftpServerName(Vec<u8>),
    ClassIdentifier(Vec<u8>),
    Message(String),
    /// Any option by code and raw value.
    Raw(u8, Vec<u8>),
}

/// The mathematical value of a [`DhcpOpt`].
pub enum OptView {
    MessageType(MessageType),
    ServerIdentifier(u32),
    AddressLeaseTime(u32),
    Renewal(u32),
    Rebinding(u32),
    SubnetMask(u32),
    Router(Seq<u32>),
    DomainNameServer(Seq<u32>),
    DomainName(Seq<char>),
    BootfileName(Seq<u8>),
    TftpServerName(Seq<u8>),
    ClassIdentifier(Seq<u8>),
    Message(Seq<char>),
    Raw(u8, Seq<u8>),
}

impl View for DhcpOpt {
    type V = OptView;

    open spec fn view(&self) -> OptView {
        match self {
            DhcpOpt::MessageType(t) => OptView::MessageType(*t),
            DhcpOpt::ServerIdentifier(a) => OptView::ServerIdentifier(*a),
            DhcpOpt::AddressLeaseTime(s) => OptView::AddressLeaseTime(*s),
            DhcpOpt::Renewal(s) => OptView::Renewal(*s),
            DhcpOpt::Rebinding(s) => OptView::Rebinding(*s),
            DhcpOpt::SubnetMask(m) => OptView::SubnetMask(*m),
            DhcpOpt::Router(v) => OptView::Router(v@),
            DhcpOpt::DomainNameServer(v) => OptView::DomainNameServer(v@),
            DhcpOpt::DomainName(s) => OptView::DomainName(s@),
            DhcpOpt::BootfileName(b) => OptView::BootfileName(b@),
            DhcpOpt::TftpServerName(b) => OptView::TftpServerName(b@),
            DhcpOpt::ClassIdentifier(b) => OptView::ClassIdentifier(b@),
            DhcpOpt::Message(s) => OptView::Message(s@),
            DhcpOpt::Raw(c, b) => OptView::Raw(*c, b@),
        }
    }
}

/// The code an option goes under.
pub open spec fn opt_code(o: OptView) -> u8 {
    match o {
        OptView::MessageType(_) => OPT_MESSAGE_TYPE,
        OptView::ServerIdentifier(_) => OPT_SERVER_ID,
        OptView::AddressLeaseTime(_) => OPT_LEASE_TIME,
        OptView::Renewal(_) => OPT_RENEWAL,
        OptView::Rebinding(_) => OPT_REBINDING,
        OptView::SubnetMask(_) => OPT_SUBNET_MASK,
        OptView::Router(_) => OPT_ROUTER,
        OptView::DomainNameServer(_) => OPT_DNS,
        OptView::DomainName(_) => OPT_DOMAIN_NAME,
        OptView::BootfileName(_) => OPT_BOOTFILE,
        OptView::TftpServerName(_) => OPT_TFTP_SERVER,
        OptView::ClassIdentifier(_) => OPT_CLASS_ID,
        OptView::Message(_) => OPT_MESSAGE,
        OptView::Raw(c, _) => c,
    }
}

/// A copy of a list of addresses.
pub fn copy_addrs(v: &[u32]) -> (r: Vec<u32>)
    ensures
        r@ == v@,
{
    let mut out: Vec<u32> = Vec::new();
    let mut i: usize = 0;
    while i < v.len()
        invariant
            0 <= i <= v@.len(),
            out@ == v@.take(i as int),
        decreases v@.len() - i,
    {
        out.push(v[i]);
        i = i + 1;
        proof {
            assert(out@ =~= v@.take(i as int));
        }
    }
    proof {
        assert(v@.take(v@.len() as int) =~= v@);
    }
    out
}

impl DhcpOpt {
    /// The code this option goes under.
    pub fn code(&self) -> (r: u8)
        ensures
            r == opt_code(self@),
    {
        match self {
            DhcpOpt::MessageType(_) => OPT_MESSAGE_TYPE,
            DhcpOpt::ServerIdentifier(_) => OPT_SERVER_ID,
            DhcpOpt::AddressLeaseTime(_) => OPT_LEASE_TIME,
            DhcpOpt::Renewal(_) => OPT_RENEWAL,
            DhcpOpt::Rebinding(_) => OPT_REBINDING,
            DhcpOpt::SubnetMask(_) => OPT_SUBNET_MASK,
            DhcpOpt::Router(_) => OPT_ROUTER,
            DhcpOpt::DomainNameServer(_) => OPT_DNS,
            DhcpOpt::DomainName(_) => OPT_DOMAIN_NAME,
            DhcpOpt::BootfileName(_) => OPT_BOOTFILE,
            DhcpOpt::TftpServerName(_) => OPT_TFTP_SERVER,
            DhcpOpt::ClassIdentifier(_) => OPT_CLASS_ID,
            DhcpOpt::Message(_) => OPT_MESSAGE,
            DhcpOpt::Raw(c, _) => *c,
        }
    }
}

impl Clone for DhcpOpt {
    fn clone(&self) -> (r: Self)
        ensures
            r@ == self@,
    {
        match self {
            DhcpOpt::MessageType(t) => DhcpOpt::MessageType(*t),
            DhcpOpt::ServerIdentifier(a) => DhcpOpt::ServerIdentifier(*a),
            DhcpOpt::AddressLeaseTime(s) => DhcpOpt::AddressLeaseTime(*s),
            DhcpOpt::Renewal(s) => DhcpOpt::Renewal(*s),
            DhcpOpt::Rebinding(s) => DhcpOpt::Rebinding(*s),
            DhcpOpt::SubnetMask(m) => DhcpOpt::SubnetMask(*m),
            DhcpOpt::Router(v) => DhcpOpt::Router(copy_addrs(v.as_slice())),
            DhcpOpt::DomainNameServer(v) => DhcpOpt::DomainNameServer(copy_addrs(v.as_slice())),
            DhcpOpt::DomainName(s) => DhcpOpt::DomainName(s.clone()),
            DhcpOpt::BootfileName(b) => DhcpOpt::BootfileName(copy_bytes(b.as_slice())),
            DhcpOpt::TftpServerName(b) => DhcpOpt::TftpServerName(copy_bytes(b.as_slice())),
            DhcpOpt::ClassIdentifier(b) => DhcpOpt::ClassIdentifier(copy_bytes(b.as_slice())),
            DhcpOpt::Message(s) => DhcpOpt::Message(s.clone()),
            DhcpOpt::Raw(c, b) => DhcpOpt::Raw(*c, copy_bytes(b.as_slice())),
        }
    }
}

/// The options a list sets, by code: a later option replaces an earlier one
/// with the same code.
pub open spec fn opt_map(s: Seq<OptView>) -> Map<u8, OptView>
    decreases s.len(),
{
    if s.len() == 0 {
        Map::empty()
    } else {
        opt_map(s.drop_last()).insert(opt_code(s.last()), s.last())
    }
}

/// The list without the options of code `c`.
pub open spec fn without_code(s: Seq<OptView>, c: u8) -> Seq<OptView>
    decreases s.len(),
{
    if s.len() == 0 {
        s
    } else if opt_code(s.last()) == c {
        without_code(s.drop_last(), c)
    } else {
        without_code(s.drop_last(), c).push(s.last())
    }
}

pub proof fn lemma_without_code(s: Seq<OptView>, c: u8)
    ensures
        opt_map(without_code(s, c)) == opt_map(s).remove(c),
    decreases s.len(),
{
    if s.len() == 0 {
        assert(opt_map(s).remove(c) =~= Map::empty());
    } else {
        lemma_without_code(s.drop_last(), c);
        let w = without_code(s.drop_last(), c);
        if opt_code(s.last()) == c {
            assert(opt_map(s).remove(c) =~= opt_map(s.drop_last()).remove(c));
        } else {
            assert(w.push(s.last()).drop_last() =~= w);
            assert(opt_map(s).remove(c) =~= opt_map(s.drop_last()).remove(c).insert(
                opt_code(s.last()),
                s.last(),
            ));
        }
    }
}

/// The views of a list of options.
pub open spec fn opts_view(v: Seq<DhcpOpt>) -> Seq<OptView> {
    v.map_values(|o: DhcpOpt| o@)
}

/// A reply the server sends.
#[derive(Debug)]
pub struct ReplyMsg {
    pub htype: u8,
    pub xid: u32,
    pub flags: u16,
    pub ciaddr: u32,
    pub yiaddr: u32,
    pub siaddr: u32,
    pub giaddr: u32,
    pub chaddr: Vec<u8>,
    /// The BOOTP `file` field; never longer than 128 bytes.
    pub fname: Option<Vec<u8>>,
    /// The options, in the order they were set (see [`opt_map`]).
    pub opts: Vec<DhcpOpt>,
}

/// The mathematical value of a [`ReplyMsg`].
pub struct ReplyView {
    pub htype: u8,
    pub xid: u32,
    pub flags: u16,
    pub ciaddr: u32,
    pub yiaddr: u32,
    pub siaddr: u32,
    pub giaddr: u32,
    pub chaddr: Seq<u8>,
    pub fname: Option<Seq<u8>>,
    pub opts: Map<u8, OptView>,
}

impl View for ReplyMsg {
    type V = ReplyView;

    open spec fn view(&self) -> ReplyView {
        ReplyView {
            htype: self.htype,
            xid: self.xid,
            flags: self.flags,
            ciaddr: self.ciaddr,
            yiaddr: self.yiaddr,
            siaddr: self.siaddr,
            giaddr: self.giaddr,
            chaddr: self.chaddr@,
            fname: opt_bytes(self.fname),
            opts: opt_map(opts_view(self.opts@)),
        }
    }
}

/// The skeleton of every reply: header fields copied from the request, the
/// message type and the server identifier.
pub open spec fn spec_base_reply(req: RequestView, kind: MessageType, server_id: u32) -> ReplyView {
    ReplyView {
        htype: req.htype,
        xid: req.xid,
        flags: req.flags,
        ciaddr: 0,
        yiaddr: 0,
        siaddr: 0,
        giaddr: req.giaddr,
        chaddr: req.chaddr,
        fname: None,
        opts: Map::empty().insert(OPT_MESSAGE_TYPE, OptView::MessageType(kind)).insert(
            OPT_SERVER_ID,
            OptView::ServerIdentifier(server_id),
        ),
    }
}

impl ReplyMsg {
    /// The opcode of every reply: BOOTREPLY.
    pub fn opcode(&self) -> (r: Opcode)
        ensures
            r == Opcode::BootReply,
    {
        Opcode::BootReply
    }

    /// Sets `o`, replacing any option of the same code; the header fields
    /// stay as they are.
    pub fn put(&mut self, o: DhcpOpt)
        ensures
            final(self)@ == (ReplyView { opts: old(self)@.opts.insert(opt_code(o@), o@), ..old(self)@ }),
    {
        let ghost before = opts_view(self.opts@);
        self.opts.push(o);
        proof {
            assert(opts_view(self.opts@) =~= before.push(o@));
            assert(opts_view(self.opts@).drop_last() =~= before);
        }
    }

    /// Removes every option of code `c`.
    pub fn remove_opt(&mut self, c: u8)
        ensures
            final(self)@ == (ReplyView { opts: old(self)@.opts.remove(c), ..old(self)@ }),
    {
        let ghost all = opts_view(self.opts@);
        let mut kept: Vec<DhcpOpt> = Vec::new();
        let mut i: usize = 0;
        while i < self.opts.len()
            invariant
                0 <= i <= self.opts@.len(),
                all == opts_view(self.opts@),
                opts_view(kept@) == without_code(all.take(i as int), c),
            decreases self.opts@.len() - i,
        {
            let ghost prev = opts_view(kept@);
            proof {
                assert(all.take(i + 1).drop_last() =~= all.take(i as int));
                assert(all.take(i + 1).last() == self.opts@[i as int]@);
            }
            if self.opts[i].code() != c {
                kept.push(self.opts[i].clone());
                proof {
                    assert(opts_view(kept@) =~= prev.push(all[i as int]));
                }
            }
            i = i + 1;
        }
        proof {
            assert(all.take(all.len() as int) =~= all);
            lemma_without_code(all, c);
        }
        self.opts = kept;
    }

    /// The option of code `c`, if set.
    pub fn opt(&self, c: u8) -> (r: Option<DhcpOpt>)
        ensures
            match r {
                Some(o) => self@.opts.contains_key(c) && self@.opts[c] == o@,
                None => !self@.opts.contains_key(c),
            },
    {
        let ghost all = opts_view(self.opts@);
        let mut i: usize = self.opts.len();
        proof {
            assert(all.take(all.len() as int) =~= all);
        }
        while i > 0
            invariant
                0 <= i <= self.opts@.len(),
                all == opts_view(self.opts@),
                opt_map(all).contains_key(c) == opt_map(all.take(i as int)).contains_key(c),
                opt_map(all.take(i as int)).contains_key(c) ==> opt_map(all)[c] == opt_map(
                    all.take(i as int),
                )[c],
            decreases i,
        {
            proof {
                assert(all.take(i as int).drop_last() =~= all.take(i - 1));
                assert(all.take(i as int).last() == self.opts@[i - 1]@);
            }
            if self.opts[i - 1].code() == c {
                return Some(self.opts[i - 1].clone());
            }
            i = i - 1;
        }
        None
    }
}

/// The reply skeleton for `req`: see [`spec_base_reply`].
pub fn base_reply(req: &Request, kind: MessageType, server_id: u32) -> (r: ReplyMsg)
    ensures
        r@ == spec_base_reply(req@, kind, server_id),
{
    let mut m = ReplyMsg {
        htype: req.htype,
        xid: req.xid,
        flags: req.flags,
        ciaddr: 0,
        yiaddr: 0,
        siaddr: 0,
        giaddr: req.giaddr,
        chaddr: copy_bytes(req.chaddr.as_slice()),
        fname: None,
        opts: Vec::new(),
    };
    proof {
        assert(opts_view(m.opts@) =~= Seq::<OptView>::empty());
        assert(m@.opts =~= Map::<u8, OptView>::empty());
    }
    m.put(DhcpOpt::MessageType(kind));
    m.put(DhcpOpt::ServerIdentifier(server_id));
    m
}

} // verus!
