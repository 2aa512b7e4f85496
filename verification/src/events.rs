//! What the service reports of each packet: the labels in logs and in the
//! interface's live view, the event it pushes, and the running counts.

use vstd::prelude::*;

use crate::addr::spec_client_text;
use crate::lease::opt_text;
use crate::message::{DhcpOpt, MessageType, OptView, Request, ReplyMsg, ReplyView, RequestView, OPT_MESSAGE, OPT_MESSAGE_TYPE};
use crate::parse::{push_dec, push_str, spec_dec};
use crate::scope::ScopeId;
use crate::server::{
    spec_client_of, spec_handled_text, spec_vendor_class, client_id_of, vendor_class_of, DropReason,
    Outcome, OutcomeView,
};
use crate::store::AllocSource;
use crate::text::string_from_chars;

verus! {

/// The name of a message type as logs show it: `DISCOVER`, `LEASEQUERY`,
/// `UNKNOWN(200)`.
pub open spec fn spec_type_name(t: MessageType) -> Seq<char> {
    match t {
        MessageType::Discover => "DISCOVER"@,
        MessageType::Offer => "OFFER"@,
        MessageType::Request => "REQUEST"@,
        MessageType::Decline => "DECLINE"@,
        MessageType::Ack => "ACK"@,
        MessageType::Nak => "NAK"@,
        MessageType::Release => "RELEASE"@,
        MessageType::Inform => "INFORM"@,
        MessageType::Unknown(n) => if n == 9 {
            "FORCERENEW"@
        } else if n == 10 {
            "LEASEQUERY"@
        } else if n == 11 {
            "LEASEUNASSIGNED"@
        } else if n == 12 {
            "LEASEUNKNOWN"@
        } else if n == 13 {
            "LEASEACTIVE"@
        } else if n == 14 {
            "BULKLEASEQUERY"@
        } else if n == 15 {
            "LEASEQUERYDONE"@
        } else if n == 16 {
            "ACTIVELEASEQUERY"@
        } else if n == 17 {
            "LEASEQUERYSTATUS"@
        } else if n == 18 {
            "TLS"@
        } else {
            "UNKNOWN("@ + spec_dec(n as nat) + ")"@
        },
    }
}

fn msg_type_name(t: MessageType) -> (r: String)
    ensures
        r@ == spec_type_name(t),
{
    let named: &str = match t {
        MessageType::Discover => "DISCOVER",
        MessageType::Offer => "OFFER",
        MessageType::Request => "REQUEST",
        MessageType::Decline => "DECLINE",
        MessageType::Ack => "ACK",
        MessageType::Nak => "NAK",
        MessageType::Release => "RELEASE",
        MessageType::Inform => "INFORM",
        MessageType::Unknown(n) => if n == 9 {
            "FORCERENEW"
        } else if n == 10 {
            "LEASEQUERY"
        } else if n == 11 {
            "LEASEUNASSIGNED"
        } else if n == 12 {
            "LEASEUNKNOWN"
        } else if n == 13 {
            "LEASEACTIVE"
        } else if n == 14 {
            "BULKLEASEQUERY"
        } else if n == 15 {
            "LEASEQUERYDONE"
        } else if n == 16 {
            "ACTIVELEASEQUERY"
        } else if n == 17 {
            "LEASEQUERYSTATUS"
        } else if n == 18 {
            "TLS"
        } else {
            let mut out: Vec<char> = Vec::new();
            push_str(&mut out, "UNKNOWN(");
            push_dec(&mut out, n as u64);
            push_str(&mut out, ")");
            return string_from_chars(out.as_slice());
        },
    };
    named.to_owned()
}

/// The readable name of the message type a request carries, or `?`.
pub open spec fn spec_request_label(req: RequestView) -> Seq<char> {
    match req.msg_type {
        Some(t) => spec_type_name(t),
        None => "?"@,
    }
}

/// The readable name of a request's type, such as DISCOVER.
pub fn request_label(req: &Request) -> (r: String)
    ensures
        r@ == spec_request_label(req@),
{
    match req.msg_type {
        Some(t) => msg_type_name(t),
        None => "?".to_owned(),
    }
}

/// The readable name of a reply's type: OFFER, ACK, NAK, or REPLY.
pub open spec fn spec_reply_label(msg: ReplyView) -> Seq<char> {
    if msg.opts.contains_key(OPT_MESSAGE_TYPE) {
        match msg.opts[OPT_MESSAGE_TYPE] {
            OptView::MessageType(MessageType::Offer) => "OFFER"@,
            OptView::MessageType(MessageType::Ack) => "ACK"@,
            OptView::MessageType(MessageType::Nak) => "NAK"@,
            _ => "REPLY"@,
        }
    } else {
        "REPLY"@
    }
}

pub fn reply_label(msg: &ReplyMsg) -> (r: &'static str)
    ensures
        r@ == spec_reply_label(msg@),
{
    match msg.opt(OPT_MESSAGE_TYPE) {
        Some(DhcpOpt::MessageType(MessageType::Offer)) => "OFFER",
        Some(DhcpOpt::MessageType(MessageType::Ack)) => "ACK",
        Some(DhcpOpt::MessageType(MessageType::Nak)) => "NAK",
        _ => "REPLY",
    }
}

/// The reason a NAK gives (option 56), when it gives one. When a client is
/// refused this is what most needs showing: a bare NAK says nothing of why.
pub open spec fn spec_reject_reason(msg: ReplyView) -> Option<Seq<char>> {
    if msg.opts.contains_key(OPT_MESSAGE) {
        match msg.opts[OPT_MESSAGE] {
            OptView::Message(m) => if m.len() > 0 { Some(m) } else { None },
            _ => None,
        }
    } else {
        None
    }
}

pub fn reject_reason(msg: &ReplyMsg) -> (r: Option<String>)
    ensures
        opt_text(r) == spec_reject_reason(msg@),
{
    match msg.opt(OPT_MESSAGE) {
        Some(DhcpOpt::Message(m)) => if !m.as_str().is_empty() {
            Some(m)
        } else {
            None
        },
        _ => None,
    }
}

/// The client's identity in readable form, or `?`.
pub open spec fn spec_client_label(req: RequestView) -> Seq<char> {
    match spec_client_of(req) {
        Some(c) => spec_client_text(c),
        None => "?"@,
    }
}

pub fn client_label(req: &Request) -> (r: String)
    ensures
        r@ == spec_client_label(req@),
{
    match client_id_of(req) {
        Some(c) => c.to_text(),
        None => "?".to_owned(),
    }
}

/// Why a packet went unanswered, in the interface's words.
pub open spec fn spec_drop_reason_text(r: DropReason) -> Seq<char> {
    match r {
        DropReason::NotBootRequest => "不是 BootRequest"@,
        DropReason::NoMessageType => "缺少 option 53"@,
        DropReason::UnsupportedType => "服务端不处理该报文类型"@,
        DropReason::UnidentifiableClient => "既无有效 MAC 也无 option 61"@,
        DropReason::NoMatchingScope => "该网段没有配置作用域"@,
        DropReason::ScopeDisabled => "作用域已禁用"@,
        DropReason::PoolExhausted => "地址池已耗尽"@,
        DropReason::ChoseAnotherServer => "客户端选了别的服务器"@,
        DropReason::DeclineWithoutAddress => "DECLINE 缺少 option 50"@,
        DropReason::ReleaseWithoutAddress => "RELEASE 缺少 ciaddr"@,
        DropReason::ReleaseNotOwned => "RELEASE 的地址不属于该客户端"@,
    }
}

pub fn drop_reason_text(r: DropReason) -> (t: &'static str)
    ensures
        t@ == spec_drop_reason_text(r),
{
    match r {
        DropReason::NotBootRequest => "不是 BootRequest",
        DropReason::NoMessageType => "缺少 option 53",
        DropReason::UnsupportedType => "服务端不处理该报文类型",
        DropReason::UnidentifiableClient => "既无有效 MAC 也无 option 61",
        DropReason::NoMatchingScope => "该网段没有配置作用域",
        DropReason::ScopeDisabled => "作用域已禁用",
        DropReason::PoolExhausted => "地址池已耗尽",
        DropReason::ChoseAnotherServer => "客户端选了别的服务器",
        DropReason::DeclineWithoutAddress => "DECLINE 缺少 option 50",
        DropReason::ReleaseWithoutAddress => "RELEASE 缺少 ciaddr",
        DropReason::ReleaseNotOwned => "RELEASE 的地址不属于该客户端",
    }
}

/// How an address was chosen, in the interface's words.
pub open spec fn spec_alloc_source_text(s: AllocSource) -> Seq<char> {
    match s {
        AllocSource::Existing => "沿用原地址"@,
        AllocSource::Reservation => "静态保留"@,
        AllocSource::Requested => "满足客户端请求"@,
        AllocSource::Pool => "池分配"@,
    }
}

pub fn alloc_source_text(s: AllocSource) -> (t: &'static str)
    ensures
        t@ == spec_alloc_source_text(s),
{
    match s {
        AllocSource::Existing => "沿用原地址",
        AllocSource::Reservation => "静态保留",
        AllocSource::Requested => "满足客户端请求",
        AllocSource::Pool => "池分配",
    }
}

/// One handled packet, as the interface's live log shows it.
#[derive(Debug)]
pub struct PacketEvent {
    pub at: u64,
    /// The client's identity, readable.
    pub client: String,
    /// What was received: DISCOVER, REQUEST, ...
    pub request: String,
    /// What was done: OFFER, ACK, NAK, REPLY, DROP, HANDLED.
    pub result: String,
    pub scope_id: Option<ScopeId>,
    pub ip: Option<u32>,
    /// Why it was dropped, or how the address was chosen.
    pub detail: Option<String>,
    /// The client's own option 60. A screen of MACs tells nobody which
    /// machine is which; this often names the vendor and the boot stage.
    pub vendor_class: Option<String>,
}

pub struct PacketEventView {
    pub at: u64,
    pub client: Seq<char>,
    pub request: Seq<char>,
    pub result: Seq<char>,
    pub scope_id: Option<ScopeId>,
    pub ip: Option<u32>,
    pub detail: Option<Seq<char>>,
    pub vendor_class: Option<Seq<char>>,
}

impl View for PacketEvent {
    type V = PacketEventView;

    open spec fn view(&self) -> PacketEventView {
        PacketEventView {
            at: self.at,
            client: self.client@,
            request: self.request@,
            result: self.result@,
            scope_id: self.scope_id,
            ip: self.ip,
            detail: opt_text(self.detail),
            vendor_class: opt_text(self.vendor_class),
        }
    }
}

/// What the service tells the interface.
#[derive(Debug)]
pub enum Event {
    /// A packet was handled.
    Packet(PacketEvent),
    /// The leases changed: the interface should fetch them again.
    LeasesChanged,
    /// The scopes changed: likewise.
    ScopesChanged,
    /// The periodic clean-up removed expired leases.
    Reaped { count: usize },
}

pub enum EventView {
    Packet(PacketEventView),
    LeasesChanged,
    ScopesChanged,
    Reaped { count: usize },
}

impl View for Event {
    type V = EventView;

    open spec fn view(&self) -> EventView {
        match self {
            Event::Packet(e) => EventView::Packet(e@),
            Event::LeasesChanged => EventView::LeasesChanged,
            Event::ScopesChanged => EventView::ScopesChanged,
            Event::Reaped { count } => EventView::Reaped { count: *count },
        }
    }
}

pub open spec fn event_views(v: Seq<Event>) -> Seq<EventView> {
    v.map_values(|e: Event| e@)
}

/// The detail of a dropped packet. An exhausted pool is most often a run of
/// addresses held by statically configured devices, so what the probe saw
/// is added when it saw something.
pub open spec fn spec_drop_detail(r: DropReason, blocked: Seq<char>) -> Seq<char> {
    if r == DropReason::PoolExhausted && blocked.len() > 0 {
        spec_drop_reason_text(r) + "（"@ + blocked + "）"@
    } else {
        spec_drop_reason_text(r)
    }
}

/// The event for one packet: `at` is when it came, `blocked` what the
/// address probe reports of blocked addresses (empty for nothing).
pub open spec fn spec_packet_event(req: RequestView, o: OutcomeView, at: u64, blocked: Seq<char>) -> PacketEventView {
    let client = spec_client_label(req);
    let request = spec_request_label(req);
    let vendor_class = spec_vendor_class(req);
    match o {
        OutcomeView::Reply(r) => PacketEventView {
            at,
            client,
            request,
            result: spec_reply_label(r.msg),
            scope_id: Some(r.scope_id),
            ip: if r.msg.yiaddr != 0 { Some(r.msg.yiaddr) } else { None },
            detail: match spec_reject_reason(r.msg) {
                Some(m) => Some(m),
                None => match r.alloc_source {
                    Some(s) => Some(spec_alloc_source_text(s)),
                    None => None,
                },
            },
            vendor_class,
        },
        OutcomeView::Handled(h) => PacketEventView {
            at,
            client,
            request,
            result: "HANDLED"@,
            scope_id: None,
            ip: None,
            detail: Some(spec_handled_text(h)),
            vendor_class,
        },
        OutcomeView::Drop(d) => PacketEventView {
            at,
            client,
            request,
            result: "DROP"@,
            scope_id: None,
            ip: None,
            detail: Some(spec_drop_detail(d, blocked)),
            vendor_class,
        },
    }
}

/// Builds the event for one packet.
pub fn packet_event(req: &Request, outcome: &Outcome, at: u64, blocked: &str) -> (r: PacketEvent)
    ensures
        r@ == spec_packet_event(req@, outcome@, at, blocked@),
{
    let client = client_label(req);
    let request = request_label(req);
    let vendor_class = vendor_class_of(req);
    match outcome {
        Outcome::Reply(r) => {
            let detail = match reject_reason(&r.msg) {
                Some(m) => Some(m),
                None => match r.alloc_source {
                    Some(s) => Some(alloc_source_text(s).to_owned()),
                    None => None,
                },
            };
            PacketEvent {
                at,
                client,
                request,
                result: reply_label(&r.msg).to_owned(),
                scope_id: Some(r.scope_id),
                ip: if r.msg.yiaddr != 0 { Some(r.msg.yiaddr) } else { None },
                detail,
                vendor_class,
            }
        },
        Outcome::Handled(h) => PacketEvent {
            at,
            client,
            request,
            result: "HANDLED".to_owned(),
            scope_id: None,
            ip: None,
            detail: Some(h.text().to_owned()),
            vendor_class,
        },
        Outcome::Drop(d) => {
            let mut out: Vec<char> = Vec::new();
            push_str(&mut out, drop_reason_text(*d));
            if *d == DropReason::PoolExhausted && !blocked.is_empty() {
                push_str(&mut out, "（");
                push_str(&mut out, blocked);
                push_str(&mut out, "）");
            }
            proof {
                assert(out@ =~= spec_drop_detail(*d, blocked@));
            }
            PacketEvent {
                at,
                client,
                request,
                result: "DROP".to_owned(),
                scope_id: None,
                ip: None,
                detail: Some(string_from_chars(out.as_slice())),
                vendor_class,
            }
        },
    }
}

/// Whether handling a packet may have changed the leases: anything that was
/// not dropped.
pub open spec fn spec_changes_leases(o: OutcomeView) -> bool {
    !(o is Drop)
}

/// What the interface is told of a handled packet, in order: the packet's
/// event, then, unless the packet was dropped, that the leases changed.
pub open spec fn spec_packet_events(req: RequestView, o: OutcomeView, at: u64, blocked: Seq<char>) -> Seq<EventView> {
    let first = seq![EventView::Packet(spec_packet_event(req, o, at, blocked))];
    if spec_changes_leases(o) {
        first.push(EventView::LeasesChanged)
    } else {
        first
    }
}

/// A handled packet is reported first, stamped with the time it came; word
/// that the leases changed follows exactly when it was not dropped, and
/// nothing else is said.
pub proof fn law_packet_events(req: RequestView, o: OutcomeView, at: u64, blocked: Seq<char>)
    ensures
        spec_packet_events(req, o, at, blocked).len() == (if o is Drop { 1int } else { 2int }),
        spec_packet_events(req, o, at, blocked)[0] == EventView::Packet(spec_packet_event(req, o, at, blocked)),
        spec_packet_event(req, o, at, blocked).at == at,
        !(o is Drop) ==> spec_packet_events(req, o, at, blocked)[1] == EventView::LeasesChanged,
{
}

pub fn changes_leases(o: &Outcome) -> (r: bool)
    ensures
        r == spec_changes_leases(o@),
{
    match o {
        Outcome::Drop(_) => false,
        _ => true,
    }
}

/// Which count a handled packet adds to, besides the count of all packets.
#[derive(Clone, Copy, Debug, PartialEq, Eq, Structural)]
pub enum Tally {
    Offers,
    Acks,
    Naks,
    Drops,
}

pub open spec fn spec_tally(o: OutcomeView) -> Option<Tally> {
    match o {
        OutcomeView::Reply(r) => if r.msg.opts.contains_key(OPT_MESSAGE_TYPE) {
            match r.msg.opts[OPT_MESSAGE_TYPE] {
                OptView::MessageType(MessageType::Offer) => Some(Tally::Offers),
                OptView::MessageType(MessageType::Ack) => Some(Tally::Acks),
                OptView::MessageType(MessageType::Nak) => Some(Tally::Naks),
                _ => None,
            }
        } else {
            None
        },
        OutcomeView::Drop(_) => Some(Tally::Drops),
        OutcomeView::Handled(_) => None,
    }
}

pub fn tally(o: &Outcome) -> (r: Option<Tally>)
    ensures
        r == spec_tally(o@),
{
    match o {
        Outcome::Reply(r) => match r.msg.opt(OPT_MESSAGE_TYPE) {
            Some(DhcpOpt::MessageType(MessageType::Offer)) => Some(Tally::Offers),
            Some(DhcpOpt::MessageType(MessageType::Ack)) => Some(Tally::Acks),
            Some(DhcpOpt::MessageType(MessageType::Nak)) => Some(Tally::Naks),
            _ => None,
        },
        Outcome::Drop(_) => Some(Tally::Drops),
        Outcome::Handled(_) => None,
    }
}

/// Running counts. A long-running service must be able to say whether it is
/// working at all: logs roll over, these numbers do not.
#[derive(Clone, Copy, Debug, Default, PartialEq, Eq, Structural)]
pub struct Counters {
    pub packets: u64,
    pub offers: u64,
    pub acks: u64,
    pub naks: u64,
    pub drops: u64,
    /// When the last packet came (Unix seconds); 0 for never.
    ///
    /// "Listening, but not one request" is the commonest failure on site,
    /// and from the server it looks exactly like a network with no clients
    /// yet. This timestamp is what tells the two apart, and what idle exit
    /// goes by.
    pub last_packet_at: u64,
}

/// One more, wrapping at the top as a counter does.
pub open spec fn plus_one(n: u64) -> u64 {
    if n == u64::MAX {
        0
    } else {
        (n + 1) as u64
    }
}

/// `n` with one more when `hit`.
pub open spec fn plus_one_if(n: u64, hit: bool) -> u64 {
    if hit {
        plus_one(n)
    } else {
        n
    }
}

/// The counts after one handled packet that came at `at`: one more packet,
/// the last packet at `at`, and one more in the count that [`spec_tally`]
/// names for the outcome.
pub open spec fn spec_counted(c: Counters, o: OutcomeView, at: u64) -> Counters {
    let t = spec_tally(o);
    Counters {
        packets: plus_one(c.packets),
        offers: plus_one_if(c.offers, t == Some(Tally::Offers)),
        acks: plus_one_if(c.acks, t == Some(Tally::Acks)),
        naks: plus_one_if(c.naks, t == Some(Tally::Naks)),
        drops: plus_one_if(c.drops, t == Some(Tally::Drops)),
        last_packet_at: at,
    }
}

impl Counters {
    /// Every count at zero, and no packet yet.
    pub fn new() -> (r: Counters)
        ensures
            r == (Counters { packets: 0, offers: 0, acks: 0, naks: 0, drops: 0, last_packet_at: 0 }),
    {
        Counters { packets: 0, offers: 0, acks: 0, naks: 0, drops: 0, last_packet_at: 0 }
    }

    /// Adds one to a count.
    pub fn bump(c: &mut u64)
        ensures
            *final(c) == plus_one(*old(c)),
    {
        *c = c.wrapping_add(1);
    }

    /// Reads a count.
    pub fn get(c: &u64) -> (r: u64)
        ensures
            r == *c,
    {
        *c
    }

    /// Counts one handled packet that came at `at` (see [`spec_counted`]).
    pub fn count(&mut self, outcome: &Outcome, at: u64)
        ensures
            *final(self) == spec_counted(*old(self), outcome@, at),
    {
        Counters::bump(&mut self.packets);
        self.last_packet_at = at;
        match tally(outcome) {
            Some(Tally::Offers) => Counters::bump(&mut self.offers),
            Some(Tally::Acks) => Counters::bump(&mut self.acks),
            Some(Tally::Naks) => Counters::bump(&mut self.naks),
            Some(Tally::Drops) => Counters::bump(&mut self.drops),
            None => {},
        }
    }
}

} // verus!
