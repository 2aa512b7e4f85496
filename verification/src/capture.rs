//! Keeping received packets as they came, and feeding them back to the
//! decision layer afterwards.
//!
//! The quirks of real BMCs live in the raw bytes: option 61 as `01+MAC`
//! rather than a bare MAC, private vendor options, length fields that
//! disagree with the content. A decoded structure hides them, as it is
//! already what was understood of the packet; and the packets that do not
//! decode at all are the most valuable. So capture happens before decoding,
//! and a capture can be replayed offline through the very same `handle`.

use vstd::prelude::*;

use crate::config::{hex_pair, lemma_hex_pairs_none_extends, read_hex_pair, spec_hex_pairs};
use crate::events::{
    client_label, drop_reason_text, reply_label, request_label, spec_client_label,
    spec_drop_reason_text, spec_reply_label, spec_request_label,
};
use crate::lease::UnixTime;
use crate::message::{Request, RequestView};
use crate::parse::{
    char_seqs, parse_ipv4, push_dec, push_ipv4, push_str, spec_dec, spec_ipv4_text, spec_parse_ipv4, spec_split, spec_trim,
    split_chars, trim,
};
use crate::scope::Scope;
use crate::server::{handle, spec_handle, spec_handled_text, time_ok, Outcome, OutcomeView, RecvCtx, ServerConfig};
use crate::store::{LeaseMap, LeaseStore, MemoryStore};
use crate::text::{chars_of, push_hex, spec_hex, spec_hex_char, string_from_chars};
use crate::wire::{decode_packet, spec_decode, spec_decode_error};

verus! {

/// One line of a capture file. JSON lines rather than binary: someone on
/// site may want to look at it, or pick one machine's packets out of it;
/// a rack's worth is a few hundred packets, so readability wins.
#[derive(Debug)]
pub struct Captured {
    /// When it came (Unix seconds).
    pub at: u64,
    /// The sender, `address:port`.
    pub from: String,
    /// The listener it came in on: with several networks, which one.
    pub listener: String,
    /// The raw bytes in hexadecimal.
    pub hex: String,
}

/// The bytes in lower-case hexadecimal, two digits each.
pub fn to_hex(bytes: &[u8]) -> (r: String)
    ensures
        r@ == spec_hex(bytes@),
{
    let mut out: Vec<char> = Vec::new();
    push_hex(&mut out, bytes);
    string_from_chars(out.as_slice())
}

/// The bytes a hexadecimal text stands for: its UTF-8 bytes taken in pairs,
/// each pair read as std reads a base-16 `u8`; `None` for an odd length or a
/// pair that does not read.
pub open spec fn spec_from_hex(s: Seq<char>) -> Option<Seq<u8>> {
    let b = vstd::utf8::encode_utf8(s);
    if b.len() % 2 != 0 {
        None
    } else {
        spec_hex_pairs(b)
    }
}

/// Reads [`to_hex`]'s output back.
pub fn from_hex(s: &str) -> (r: Option<Vec<u8>>)
    ensures
        match r {
            Some(v) => spec_from_hex(s@) == Some(v@),
            None => spec_from_hex(s@) is None,
        },
{
    let b = s.as_bytes();
    if b.len() % 2 != 0 {
        return None;
    }
    let ghost bs = b@;
    let mut out: Vec<u8> = Vec::new();
    let mut i: usize = 0;
    while i < b.len()
        invariant
            b@ == bs,
            bs == vstd::utf8::encode_utf8(s@),
            i % 2 == 0,
            i <= bs.len(),
            bs.len() % 2 == 0,
            spec_hex_pairs(bs.take(i as int)) == Some(out@),
        decreases bs.len() - i,
    {
        proof {
            let t = bs.take(i + 2);
            assert(t.take(t.len() - 2) =~= bs.take(i as int));
            assert(t[t.len() - 2] == bs[i as int] && t[t.len() - 1] == bs[i + 1]);
        }
        match read_hex_pair(b[i], b[i + 1]) {
            Some(v) => {
                out.push(v);
            },
            None => {
                proof {
                    lemma_hex_pairs_none_extends(bs, i as int);
                }
                return None;
            },
        }
        i = i + 2;
    }
    proof {
        assert(bs.take(bs.len() as int) =~= bs);
    }
    Some(out)
}

proof fn lemma_hex_digit_reads(n: int)
    requires
        0 <= n < 16,
    ensures
        crate::config::byte_hex(spec_hex_char(n) as u8) == Some(n as u8),
{
}

proof fn lemma_hex_is_ascii(b: Seq<u8>)
    ensures
        vstd::utf8::is_ascii_chars(spec_hex(b)),
        spec_hex(b).len() == 2 * b.len(),
    decreases b.len(),
{
    if b.len() > 0 {
        lemma_hex_is_ascii(b.drop_last());
        let h = spec_hex(b.drop_last());
        let last = crate::text::spec_hex_byte(b.last());
        assert(spec_hex(b) == h + last);
        assert forall|i: int| 0 <= i < spec_hex(b).len() implies '\0' <= #[trigger] spec_hex(b)[i] <= '\u{7f}' by {
            if i < h.len() {
                assert(spec_hex(b)[i] == h[i]);
            } else {
                assert(spec_hex(b)[i] == last[i - h.len()]);
            }
        }
    }
}

proof fn lemma_pairs_of_hex(b: Seq<u8>)
    ensures
        spec_hex_pairs(Seq::new(spec_hex(b).len(), |i: int| spec_hex(b)[i] as u8)) == Some(b),
    decreases b.len(),
{
    lemma_hex_is_ascii(b);
    let e = Seq::new(spec_hex(b).len(), |i: int| spec_hex(b)[i] as u8);
    if b.len() > 0 {
        let p = b.drop_last();
        lemma_pairs_of_hex(p);
        lemma_hex_is_ascii(p);
        let ep = Seq::new(spec_hex(p).len(), |i: int| spec_hex(p)[i] as u8);
        assert(spec_hex(b) == spec_hex(p) + crate::text::spec_hex_byte(b.last()));
        assert(e.take(e.len() - 2) =~= ep);
        let x = b.last();
        lemma_hex_digit_reads(x as int / 16);
        lemma_hex_digit_reads(x as int % 16);
        assert(e[e.len() - 2] == spec_hex_char(x as int / 16) as u8);
        assert(e[e.len() - 1] == spec_hex_char(x as int % 16) as u8);
        assert(hex_pair(e[e.len() - 2], e[e.len() - 1]) == Some(x)) by {
            assert(spec_hex_char(x as int / 16) as u8 != 43u8) by {
                lemma_hex_digit_reads(x as int / 16);
            }
            assert(((x as int / 16) * 16 + x as int % 16) as u8 == x);
        }
        assert(p.push(x) =~= b);
    } else {
        assert(e.len() == 0);
    }
}

/// Reading back what [`to_hex`] wrote gives the bytes that were written.
pub proof fn law_hex_roundtrip(b: Seq<u8>)
    ensures
        spec_from_hex(spec_hex(b)) == Some(b),
{
    lemma_hex_is_ascii(b);
    vstd::utf8::is_ascii_chars_encode_utf8(spec_hex(b));
    let e = vstd::utf8::encode_utf8(spec_hex(b));
    assert(e =~= Seq::new(spec_hex(b).len(), |i: int| spec_hex(b)[i] as u8));
    lemma_pairs_of_hex(b);
}

/// What replaying one record concluded.
#[derive(Debug, PartialEq, Eq)]
pub enum Verdict {
    /// It did not even decode: the most interesting kind, an encoding not
    /// understood yet.
    Undecodable(String),
    /// The decision layer handled it; a sentence saying how.
    Decided(String),
}

pub enum VerdictView {
    Undecodable(Seq<char>),
    Decided(Seq<char>),
}

impl View for Verdict {
    type V = VerdictView;

    open spec fn view(&self) -> VerdictView {
        match self {
            Verdict::Undecodable(s) => VerdictView::Undecodable(s@),
            Verdict::Decided(s) => VerdictView::Decided(s@),
        }
    }
}

/// One line of a capture file: not a record at all (the JSON parser's
/// complaint), or a record with what decoding its bytes gave (see
/// [`record_item`]).
#[derive(Debug)]
pub enum ReplayItem {
    /// Not a capture record; what the parser said.
    NotARecord(String),
    /// A record and the decoder's result for its bytes (looked at only when
    /// the hexadecimal reads).
    Record { rec: Captured, decoded: Result<Request, String> },
}

pub enum ReplayItemView {
    NotARecord(Seq<char>),
    Record { at: u64, listener: Seq<char>, hex: Seq<char>, decoded: Result<RequestView, Seq<char>> },
}

impl View for ReplayItem {
    type V = ReplayItemView;

    open spec fn view(&self) -> ReplayItemView {
        match self {
            ReplayItem::NotARecord(e) => ReplayItemView::NotARecord(e@),
            ReplayItem::Record { rec, decoded } => ReplayItemView::Record {
                at: rec.at,
                listener: rec.listener@,
                hex: rec.hex@,
                decoded: match decoded {
                    Ok(r) => Ok(r@),
                    Err(e) => Err(e@),
                },
            },
        }
    }
}

/// The lines of a capture file that hold something, each trimmed and
/// numbered from 1 by its place among all the file's lines (`\n` ends a
/// line; a `\r` before it is trimmed away with the rest). Of the first `k`
/// lines of `ls`.
pub open spec fn numbered_lines(ls: Seq<Seq<char>>, k: nat) -> Seq<(nat, Seq<char>)>
    decreases k,
{
    if k == 0 || k > ls.len() {
        Seq::empty()
    } else {
        let prev = numbered_lines(ls, (k - 1) as nat);
        let t = spec_trim(ls[k - 1]);
        if t.len() == 0 {
            prev
        } else {
            prev.push((k, t))
        }
    }
}

/// The lines of the capture file `text` that hold something (see
/// [`numbered_lines`]).
pub open spec fn spec_capture_lines(text: Seq<char>) -> Seq<(nat, Seq<char>)> {
    let ls = spec_split(text, '\n');
    numbered_lines(ls, ls.len())
}

pub open spec fn line_views(v: Seq<(usize, String)>) -> Seq<(nat, Seq<char>)> {
    v.map_values(|p: (usize, String)| (p.0 as nat, p.1@))
}

/// The lines of a capture file worth replaying: trimmed, blank ones
/// skipped, each with its line number counted from 1.
pub fn capture_lines(text: &str) -> (r: Vec<(usize, String)>)
    ensures
        line_views(r@) == spec_capture_lines(text@),
{
    let cs = chars_of(text);
    let ls = split_chars(cs.as_slice(), '\n');
    proof {
        crate::parse::lemma_split_nonempty(cs@, '\n');
    }
    let mut out: Vec<(usize, String)> = Vec::new();
    let mut k: usize = 0;
    while k < ls.len()
        invariant
            0 <= k <= ls@.len(),
            char_seqs(ls@) == spec_split(text@, '\n'),
            line_views(out@) == numbered_lines(char_seqs(ls@), k as nat),
        decreases ls@.len() - k,
    {
        let t = trim(ls[k].as_slice());
        let ghost before = out@;
        proof {
            assert(char_seqs(ls@)[k as int] == ls@[k as int]@);
        }
        if t.len() > 0 {
            let line = string_from_chars(t.as_slice());
            out.push((k + 1, line));
            proof {
                assert(line_views(out@) =~= line_views(before).push(((k + 1) as nat, t@)));
            }
        }
        k = k + 1;
    }
    out
}

/// A record ready for replay: its bytes decoded when its hexadecimal reads
/// (an empty complaint otherwise, which replay does not look at).
pub fn record_item(rec: Captured) -> (r: ReplayItem)
    ensures
        r matches ReplayItem::Record { rec: kept, decoded } && {
            &&& kept.at == rec.at
            &&& kept.from@ == rec.from@
            &&& kept.listener@ == rec.listener@
            &&& kept.hex@ == rec.hex@
            &&& match spec_from_hex(rec.hex@) {
                None => decoded matches Err(e) && e@.len() == 0,
                Some(b) => match decoded {
                    Ok(q) => spec_decode(b) == Some(q@),
                    Err(e) => spec_decode(b) is None && e@ == spec_decode_error(b),
                },
            }
        },
{
    let decoded = match from_hex(rec.hex.as_str()) {
        Some(b) => decode_packet(b.as_slice()),
        None => Err(String::new()),
    };
    ReplayItem::Record { rec, decoded }
}

/// The sentence for a handled packet: who, what came, and what was done.
pub open spec fn spec_decided_text(req: RequestView, o: OutcomeView) -> Seq<char> {
    let head = spec_client_label(req) + " "@ + spec_request_label(req) + " → "@;
    match o {
        OutcomeView::Reply(r) => head + spec_reply_label(r.msg) + " "@ + spec_ipv4_text(r.msg.yiaddr),
        OutcomeView::Handled(h) => head + spec_handled_text(h),
        OutcomeView::Drop(d) => head + "未应答（"@ + spec_drop_reason_text(d) + "）"@,
    }
}

pub fn decided_text(req: &Request, o: &Outcome) -> (r: String)
    ensures
        r@ == spec_decided_text(req@, o@),
{
    let mut out: Vec<char> = Vec::new();
    push_str(&mut out, client_label(req).as_str());
    push_str(&mut out, " ");
    push_str(&mut out, request_label(req).as_str());
    push_str(&mut out, " → ");
    match o {
        Outcome::Reply(r) => {
            push_str(&mut out, reply_label(&r.msg));
            push_str(&mut out, " ");
            push_ipv4(&mut out, r.msg.yiaddr);
        },
        Outcome::Handled(h) => {
            push_str(&mut out, h.text());
        },
        Outcome::Drop(d) => {
            push_str(&mut out, "未应答（");
            push_str(&mut out, drop_reason_text(*d));
            push_str(&mut out, "）");
        },
    }
    string_from_chars(out.as_slice())
}

/// The listener address a record names, or 0.0.0.0 when it does not read,
/// so that the record can still be replayed.
pub open spec fn listener_ip(listener: Seq<char>) -> u32 {
    match spec_parse_ipv4(listener) {
        Some(ip) => ip,
        None => 0,
    }
}

/// Why a record cannot be replayed: its time is so late that adding a
/// lease time to it would not fit in 64 bits.
pub open spec fn spec_late_text() -> Seq<char> {
    "时间戳超出了租期计算的范围"@
}

/// The verdict on one item and the leases after it. Each record is
/// handled at its own time, so that lease times behave as they did.
pub open spec fn spec_replay_one(scopes: Seq<Scope>, m: LeaseMap, item: ReplayItemView) -> (VerdictView, LeaseMap) {
    match item {
        ReplayItemView::NotARecord(e) => (VerdictView::Undecodable("这一行不是捕获记录："@ + e), m),
        ReplayItemView::Record { at, listener, hex, decoded } => if !time_ok(at) {
            (VerdictView::Undecodable(spec_late_text()), m)
        } else {
            match spec_from_hex(hex) {
                None => (VerdictView::Undecodable("hex 字段不是合法的十六进制"@), m),
                Some(bytes) => match decoded {
                    Err(e) => (VerdictView::Undecodable(e + " —— "@ + spec_dec(bytes.len()) + " 字节："@ + hex), m),
                    Ok(req) => {
                        let (o, m2) = spec_handle(scopes, m, Set::empty(), req, RecvCtx { now: at, server_ip: listener_ip(listener) });
                        (VerdictView::Decided(spec_decided_text(req, o)), m2)
                    },
                },
            }
        },
    }
}

/// The verdicts on a run of items, from no leases at all.
pub open spec fn spec_replay(scopes: Seq<Scope>, items: Seq<ReplayItemView>) -> (Seq<VerdictView>, LeaseMap)
    decreases items.len(),
{
    if items.len() == 0 {
        (Seq::empty(), Map::empty())
    } else {
        let (vs, m) = spec_replay(scopes, items.drop_last());
        let (v, m2) = spec_replay_one(scopes, m, items.last());
        (vs.push(v), m2)
    }
}

pub open spec fn item_views(v: Seq<(usize, ReplayItem)>) -> Seq<ReplayItemView> {
    v.map_values(|p: (usize, ReplayItem)| p.1@)
}

pub open spec fn verdict_views(v: Seq<(usize, Verdict)>) -> Seq<VerdictView> {
    v.map_values(|p: (usize, Verdict)| p.1@)
}

fn replay_one(cfg: &ServerConfig, store: &mut MemoryStore, item: &ReplayItem) -> (r: Verdict)
    requires
        old(store).inv(),
    ensures
        final(store).inv(),
        (r@, final(store).leases()) == spec_replay_one(cfg.scopes@, old(store).leases(), item@),
{
    match item {
        ReplayItem::NotARecord(e) => {
            let mut out: Vec<char> = Vec::new();
            push_str(&mut out, "这一行不是捕获记录：");
            push_str(&mut out, e.as_str());
            Verdict::Undecodable(string_from_chars(out.as_slice()))
        },
        ReplayItem::Record { rec, decoded } => {
            if rec.at > u64::MAX - 0xffff_ffff {
                return Verdict::Undecodable("时间戳超出了租期计算的范围".to_owned());
            }
            let bytes = match from_hex(rec.hex.as_str()) {
                Some(b) => b,
                None => return Verdict::Undecodable("hex 字段不是合法的十六进制".to_owned()),
            };
            match decoded {
                Err(e) => {
                    let mut out: Vec<char> = Vec::new();
                    push_str(&mut out, e.as_str());
                    push_str(&mut out, " —— ");
                    push_dec(&mut out, bytes.len() as u64);
                    push_str(&mut out, " 字节：");
                    push_str(&mut out, rec.hex.as_str());
                    Verdict::Undecodable(string_from_chars(out.as_slice()))
                },
                Ok(req) => {
                    let lc = chars_of(rec.listener.as_str());
                    let server_ip = match parse_ipv4(lc.as_slice()) {
                        Some(ip) => ip,
                        None => 0,
                    };
                    let ctx = RecvCtx { now: rec.at, server_ip };
                    let outcome = handle(cfg, store, req, ctx);
                    Verdict::Decided(decided_text(req, &outcome))
                },
            }
        },
    }
}

/// Feeds the items of a capture file, numbered by their lines, through the
/// real decision layer, in order and from an empty lease table, and says
/// for each line what came of it.
pub fn replay(scopes: Vec<Scope>, items: &Vec<(usize, ReplayItem)>) -> (r: Vec<(usize, Verdict)>)
    ensures
        r@.len() == items@.len(),
        forall|k: int| 0 <= k < items@.len() ==> #[trigger] r@[k].0 == items@[k].0,
        verdict_views(r@) == spec_replay(scopes@, item_views(items@)).0,
{
    let cfg = ServerConfig::new(scopes);
    let mut store = MemoryStore::new();
    let mut out: Vec<(usize, Verdict)> = Vec::new();
    let mut k: usize = 0;
    while k < items.len()
        invariant
            0 <= k <= items@.len(),
            store.inv(),
            out@.len() == k,
            forall|j: int| 0 <= j < k ==> #[trigger] out@[j].0 == items@[j].0,
            (verdict_views(out@), store.leases()) == spec_replay(cfg.scopes@, item_views(items@).take(k as int)),
        decreases items@.len() - k,
    {
        proof {
            assert(item_views(items@).take(k + 1).drop_last() =~= item_views(items@).take(k as int));
            assert(item_views(items@).take(k + 1).last() == items@[k as int].1@);
        }
        let ghost before = verdict_views(out@);
        let v = replay_one(&cfg, &mut store, &items[k].1);
        out.push((items[k].0, v));
        proof {
            assert(verdict_views(out@) =~= before.push(v@));
        }
        k = k + 1;
    }
    proof {
        assert(item_views(items@).take(items@.len() as int) =~= item_views(items@));
    }
    out
}

} // verus!
