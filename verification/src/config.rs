//! Daemon configuration.
//!
//! A scope says how a subnet hands out addresses; a listener says who this
//! host is on that subnet. They are kept apart because one scope
//! configuration may be reused on several machines, while the host's own
//! address belongs to the machine.

use vstd::prelude::*;

use crate::addr::{ClientId, ClientKey, MacAddr, Range, spec_mac_array, spec_parse_mac};
use crate::parse::{
    is_whitespace, parse_ipv4, parse_u8, spec_parse_ipv4, spec_parse_u8, spec_split, spec_split_once,
    spec_trim, split_chars, split_once, trim, char_seqs, is_ws, lemma_split_nonempty,
};
use crate::scope::{
    push_net, spec_net_text, spec_netmask, spec_scope_error_text, spec_scope_id_text, spec_validate,
    BootConfig, Reservation, Scope, ScopeError, ScopeId,
};
use crate::parse::{push_ipv4, push_str, spec_ipv4_text};
use crate::lease::opt_text;
use crate::text::{chars_of, string_from_chars};

verus! {

/// A listening point: this host's address on a subnet, and optionally the
/// interface to bind to.
#[derive(Debug)]
pub struct Listener {
    /// This host's address on the subnet: option 54 (server identifier),
    /// the key for choosing the scope, and the source of replies.
    pub server_ip: u32,
    /// The interface name. Only Linux uses it (`SO_BINDTODEVICE`): with it
    /// each listener receives only its own interface's broadcasts, which is
    /// what makes several interfaces truly separate.
    pub iface: Option<String>,
}

impl Clone for Listener {
    fn clone(&self) -> (r: Self)
        ensures
            r.server_ip == self.server_ip,
            crate::lease::opt_text(r.iface) == crate::lease::opt_text(self.iface),
    {
        Listener { server_ip: self.server_ip, iface: crate::lease::clone_opt_string(&self.iface) }
    }
}

#[derive(Debug)]
pub struct Config {
    pub listeners: Vec<Listener>,
    pub scopes: Vec<Scope>,
}

/// Why a range given on the command line was refused.
#[derive(Clone, Copy, PartialEq, Eq, Debug, Structural)]
pub enum RangeError {
    /// Not written as `start-end`.
    NoDash,
    /// The start is not an address.
    BadStart,
    /// The end is not an address.
    BadEnd,
    /// The start is above the end.
    Inverted,
}

/// The range that [`parse_range`] reads from `cs`.
pub open spec fn spec_parse_range(cs: Seq<char>) -> Result<Range, RangeError> {
    match spec_split_once(cs, '-') {
        None => Err(RangeError::NoDash),
        Some((a, b)) => match spec_parse_ipv4(spec_trim(a)) {
            None => Err(RangeError::BadStart),
            Some(start) => match spec_parse_ipv4(spec_trim(b)) {
                None => Err(RangeError::BadEnd),
                Some(end) => if start <= end {
                    Ok(Range { start, end })
                } else {
                    Err(RangeError::Inverted)
                },
            },
        },
    }
}

/// A range as the command line writes it, `192.168.88.10-192.168.88.20`;
/// spaces around either address are allowed.
pub fn parse_range(s: &str) -> (r: Result<Range, RangeError>)
    ensures
        r == spec_parse_range(s@),
{
    let cs = chars_of(s);
    let (a, b) = match split_once(cs.as_slice(), '-') {
        Some(p) => p,
        None => return Err(RangeError::NoDash),
    };
    let start = match parse_ipv4(trim(a.as_slice()).as_slice()) {
        Some(v) => v,
        None => return Err(RangeError::BadStart),
    };
    let end = match parse_ipv4(trim(b.as_slice()).as_slice()) {
        Some(v) => v,
        None => return Err(RangeError::BadEnd),
    };
    match Range::new(start, end) {
        Some(r) => Ok(r),
        None => Err(RangeError::Inverted),
    }
}

/// Why a reservation given on the command line was refused.
#[derive(Clone, Copy, PartialEq, Eq, Debug, Structural)]
pub enum ReservationError {
    /// No `=` and address after the MAC.
    MissingIp,
    /// The MAC does not parse.
    BadMac,
    /// The address does not parse.
    BadIp,
}

/// What [`parse_reservation`] reads: the client's MAC, the address, and
/// the host name if one follows.
pub struct ReservationView {
    pub mac: Seq<u8>,
    pub ip: u32,
    pub hostname: Option<Seq<char>>,
}

/// `MAC=IP` or `MAC=IP=hostname`; parts are trimmed, and anything after a
/// third `=` is ignored.
pub open spec fn spec_parse_reservation(cs: Seq<char>) -> Result<ReservationView, ReservationError> {
    let parts = spec_split(cs, '=');
    if parts.len() < 2 {
        Err(ReservationError::MissingIp)
    } else {
        match spec_parse_mac(spec_trim(parts[0])) {
            None => Err(ReservationError::BadMac),
            Some(mac) => match spec_parse_ipv4(spec_trim(parts[1])) {
                None => Err(ReservationError::BadIp),
                Some(ip) => Ok(
                    ReservationView {
                        mac,
                        ip,
                        hostname: if parts.len() >= 3 {
                            Some(spec_trim(parts[2]))
                        } else {
                            None
                        },
                    },
                ),
            },
        }
    }
}

/// A reservation as the command line writes it (see
/// [`spec_parse_reservation`]).
pub fn parse_reservation(s: &str) -> (r: Result<Reservation, ReservationError>)
    ensures
        match r {
            Ok(res) => spec_parse_reservation(s@) matches Ok(v) && res.client@ == ClientKey::Mac(
                MacAddr(spec_mac_array(v.mac)),
            ) && res.ip == v.ip && crate::lease::opt_text(res.hostname) == v.hostname,
            Err(e) => spec_parse_reservation(s@) == Err::<ReservationView, ReservationError>(e),
        },
{
    let cs = chars_of(s);
    let parts = split_chars(cs.as_slice(), '=');
    proof {
        lemma_split_nonempty(cs@, '=');
        if parts@.len() >= 1 {
            assert(char_seqs(parts@)[0] == parts@[0]@);
        }
        if parts@.len() >= 2 {
            assert(char_seqs(parts@)[1] == parts@[1]@);
        }
        if parts@.len() >= 3 {
            assert(char_seqs(parts@)[2] == parts@[2]@);
        }
    }
    if parts.len() < 2 {
        return Err(ReservationError::MissingIp);
    }
    let mac = match MacAddr::parse_chars(trim(parts[0].as_slice()).as_slice()) {
        Some(m) => m,
        None => return Err(ReservationError::BadMac),
    };
    let ip = match parse_ipv4(trim(parts[1].as_slice()).as_slice()) {
        Some(v) => v,
        None => return Err(ReservationError::BadIp),
    };
    let hostname = if parts.len() >= 3 {
        let h = trim(parts[2].as_slice());
        Some(string_from_chars(h.as_slice()))
    } else {
        None
    };
    proof {
        assert(mac.0 == spec_mac_array(mac.0@));
    }
    Ok(Reservation { client: ClientId::Mac(mac), ip, hostname })
}

/// Why a raw option given on the command line was refused.
#[derive(Clone, Copy, PartialEq, Eq, Debug, Structural)]
pub enum OptionError {
    /// Not written as `code=hex`.
    MissingEquals,
    /// The code is not a number in 0-255.
    BadCode,
    /// The value has an odd number of hexadecimal digits.
    OddLength,
    /// The value is not hexadecimal.
    NotHex,
}

/// `cs` without its whitespace.
pub open spec fn spec_drop_ws(cs: Seq<char>) -> Seq<char>
    decreases cs.len(),
{
    if cs.len() == 0 {
        cs
    } else if is_ws(cs.last()) {
        spec_drop_ws(cs.drop_last())
    } else {
        spec_drop_ws(cs.drop_last()).push(cs.last())
    }
}

/// The value of an ASCII hexadecimal digit byte.
pub open spec fn byte_hex(b: u8) -> Option<u8> {
    if 48 <= b <= 57 {
        Some((b - 48) as u8)
    } else if 97 <= b <= 102 {
        Some((b - 87) as u8)
    } else if 65 <= b <= 70 {
        Some((b - 55) as u8)
    } else {
        None
    }
}

/// Two bytes read as std's `u8::from_str_radix(.., 16)` reads them: two
/// hexadecimal digits, or a `+` and one digit.
pub open spec fn hex_pair(b0: u8, b1: u8) -> Option<u8> {
    if b0 == 43 {
        byte_hex(b1)
    } else {
        match (byte_hex(b0), byte_hex(b1)) {
            (Some(x), Some(y)) => Some((x * 16 + y) as u8),
            _ => None,
        }
    }
}

/// The bytes that consecutive pairs of `b` stand for, or `None` if a pair
/// is not hexadecimal.
pub open spec fn spec_hex_pairs(b: Seq<u8>) -> Option<Seq<u8>>
    decreases b.len(),
{
    if b.len() < 2 {
        Some(Seq::empty())
    } else {
        match spec_hex_pairs(b.take(b.len() - 2)) {
            None => None,
            Some(p) => match hex_pair(b[b.len() - 2], b[b.len() - 1]) {
                Some(v) => Some(p.push(v)),
                None => None,
            },
        }
    }
}

/// Reading the pairs of `b` from position `i` on never cuts a character in
/// two: each pair up to the first that is not hexadecimal starts and ends
/// on a character boundary. (Where one would not, std's slicing panics.)
pub open spec fn pairs_slice_cleanly(b: Seq<u8>, i: int) -> bool
    decreases b.len() - i,
{
    if i < 0 || i + 2 > b.len() {
        true
    } else if !(vstd::utf8::is_char_boundary(b, i) && vstd::utf8::is_char_boundary(b, i + 2)) {
        false
    } else if hex_pair(b[i], b[i + 1]) is None {
        true
    } else {
        pairs_slice_cleanly(b, i + 2)
    }
}

/// The raw option that [`parse_option`] reads from `cs`.
pub open spec fn spec_parse_option(cs: Seq<char>) -> Result<(u8, Seq<u8>), OptionError> {
    match spec_split_once(cs, '=') {
        None => Err(OptionError::MissingEquals),
        Some((code, hex)) => match spec_parse_u8(spec_trim(code)) {
            None => Err(OptionError::BadCode),
            Some(c) => {
                let b = vstd::utf8::encode_utf8(spec_drop_ws(hex));
                if b.len() % 2 != 0 {
                    Err(OptionError::OddLength)
                } else {
                    match spec_hex_pairs(b) {
                        Some(v) => Ok((c, v)),
                        None => Err(OptionError::NotHex),
                    }
                }
            },
        },
    }
}

/// The inputs on which reading a raw option does not cut a character in two
/// (see [`pairs_slice_cleanly`]).
pub open spec fn option_reads_cleanly(cs: Seq<char>) -> bool {
    match spec_split_once(cs, '=') {
        None => true,
        Some((code, hex)) => spec_parse_u8(spec_trim(code)) is None || vstd::utf8::encode_utf8(
            spec_drop_ws(hex),
        ).len() % 2 != 0 || pairs_slice_cleanly(vstd::utf8::encode_utf8(spec_drop_ws(hex)), 0),
    }
}

fn drop_ws(cs: &[char]) -> (r: Vec<char>)
    ensures
        r@ == spec_drop_ws(cs@),
{
    let mut out: Vec<char> = Vec::new();
    let mut i: usize = 0;
    while i < cs.len()
        invariant
            0 <= i <= cs@.len(),
            out@ == spec_drop_ws(cs@.take(i as int)),
        decreases cs@.len() - i,
    {
        proof {
            assert(cs@.take(i + 1).drop_last() =~= cs@.take(i as int));
        }
        if !is_whitespace(cs[i]) {
            out.push(cs[i]);
        }
        i = i + 1;
    }
    proof {
        assert(cs@.take(cs@.len() as int) =~= cs@);
    }
    out
}

fn hex_byte_value(b: u8) -> (r: Option<u8>)
    ensures
        r == byte_hex(b),
{
    if 48 <= b && b <= 57 {
        Some(b - 48)
    } else if 97 <= b && b <= 102 {
        Some(b - 87)
    } else if 65 <= b && b <= 70 {
        Some(b - 55)
    } else {
        None
    }
}

pub(crate) fn read_hex_pair(b0: u8, b1: u8) -> (r: Option<u8>)
    ensures
        r == hex_pair(b0, b1),
{
    if b0 == 43 {
        return hex_byte_value(b1);
    }
    match (hex_byte_value(b0), hex_byte_value(b1)) {
        (Some(x), Some(y)) => Some(x * 16 + y),
        _ => None,
    }
}

pub(crate) proof fn lemma_hex_pairs_none_extends(b: Seq<u8>, i: int)
    requires
        0 <= i,
        i % 2 == 0,
        i + 2 <= b.len(),
        b.len() % 2 == 0,
        hex_pair(b[i], b[i + 1]) is None,
    ensures
        spec_hex_pairs(b) is None,
    decreases b.len(),
{
    if i + 2 < b.len() {
        let t = b.take(b.len() - 2);
        assert(t[i] == b[i] && t[i + 1] == b[i + 1]);
        lemma_hex_pairs_none_extends(t, i);
    }
}

/// Whether reading a raw option from `s` cuts no character in two (see
/// [`option_reads_cleanly`]).
pub fn option_reads_cleanly_exec(s: &str) -> (r: bool)
    ensures
        r == option_reads_cleanly(s@),
{
    let cs = chars_of(s);
    let (code, hex) = match split_once(cs.as_slice(), '=') {
        Some(p) => p,
        None => return true,
    };
    if parse_u8(trim(code.as_slice()).as_slice()).is_none() {
        return true;
    }
    let hc = drop_ws(hex.as_slice());
    let hs = string_from_chars(hc.as_slice());
    let text = hs.as_str();
    let b = text.as_bytes();
    if b.len() % 2 != 0 {
        return true;
    }
    let ghost bs = b@;
    let mut i: usize = 0;
    assert(option_reads_cleanly(s@) == pairs_slice_cleanly(bs, 0));
    while i < b.len()
        invariant
            b@ == bs,
            bs == vstd::utf8::encode_utf8(hc@),
            text@ == hc@,
            vstd::utf8::encode_utf8(text@) == bs,
            i % 2 == 0,
            i <= bs.len(),
            bs.len() % 2 == 0,
            option_reads_cleanly(s@) == pairs_slice_cleanly(bs, i as int),
        decreases bs.len() - i,
    {
        assert(i + 2 <= bs.len());
        if !(text.is_char_boundary(i) && text.is_char_boundary(i + 2)) {
            return false;
        }
        if read_hex_pair(b[i], b[i + 1]).is_none() {
            return true;
        }
        i = i + 2;
    }
    true
}

/// A raw option as the command line writes it, `43=060108ff`: a code of
/// 0-255, `=`, and hexadecimal (whitespace in it is ignored). It saves a
/// flag for each of the hundred-odd rarely used DHCP options.
pub fn parse_option(s: &str) -> (r: Result<(u8, Vec<u8>), OptionError>)
    requires
        option_reads_cleanly(s@),
    ensures
        match r {
            Ok((c, v)) => spec_parse_option(s@) == Ok::<(u8, Seq<u8>), OptionError>((c, v@)),
            Err(e) => spec_parse_option(s@) == Err::<(u8, Seq<u8>), OptionError>(e),
        },
{
    let cs = chars_of(s);
    let (code, hex) = match split_once(cs.as_slice(), '=') {
        Some(p) => p,
        None => return Err(OptionError::MissingEquals),
    };
    let c = match parse_u8(trim(code.as_slice()).as_slice()) {
        Some(c) => c,
        None => return Err(OptionError::BadCode),
    };
    let hc = drop_ws(hex.as_slice());
    let hs = string_from_chars(hc.as_slice());
    let b = hs.as_str().as_bytes();
    if b.len() % 2 != 0 {
        return Err(OptionError::OddLength);
    }
    let ghost bs = b@;
    let mut out: Vec<u8> = Vec::new();
    let mut i: usize = 0;
    assert(spec_parse_option(s@) == match spec_hex_pairs(bs) {
        Some(v) => Ok((c, v)),
        None => Err(OptionError::NotHex),
    });
    while i < b.len()
        invariant
            b@ == bs,
            bs == vstd::utf8::encode_utf8(hc@),
            i % 2 == 0,
            i <= bs.len(),
            bs.len() % 2 == 0,
            spec_hex_pairs(bs.take(i as int)) == Some(out@),
            spec_parse_option(s@) == match spec_hex_pairs(bs) {
                Some(v) => Ok((c, v)),
                None => Err(OptionError::NotHex),
            },
        decreases bs.len() - i,
    {
        assert(i + 2 <= bs.len());
        proof {
            let t = bs.take(i + 2);
            assert(t.take(t.len() - 2) =~= bs.take(i as int));
            assert(t[t.len() - 2] == bs[i as int] && t[t.len() - 1] == bs[i + 1]);
        }
        match read_hex_pair(b[i], b[i + 1]) {
            Some(v) => {
                out.push(v);
            },
            None => {
                proof {
                    lemma_hex_pairs_none_extends(bs, i as int);
                }
                return Err(OptionError::NotHex);
            },
        }
        i = i + 2;
    }
    proof {
        assert(bs.take(bs.len() as int) =~= bs);
    }
    Ok((c, out))
}

/// A problem [`Config::check`] finds.
#[derive(Debug)]
pub enum Problem {
    /// The scope's own configuration is wrong (see `Scope::validate`).
    Scope { name: String, id: ScopeId, error: ScopeError },
    /// No listener address lies in the scope's subnet, and the scope is not
    /// served through a relay: requests would arrive but no reply could go
    /// out.
    NoListener { name: String, subnet: u32, prefix: u8 },
    /// A listener address lies in several scopes, so which one serves it is
    /// not determined.
    SharedListener { server_ip: u32, scopes: Vec<String> },
}

/// The mathematical value of a [`Problem`].
pub enum ProblemView {
    Scope { name: Seq<char>, id: ScopeId, error: ScopeError },
    NoListener { name: Seq<char>, subnet: u32, prefix: u8 },
    SharedListener { server_ip: u32, scopes: Seq<Seq<char>> },
}

/// The texts of a vector of strings.
pub open spec fn texts(v: Seq<String>) -> Seq<Seq<char>> {
    v.map_values(|x: String| x@)
}

impl View for Problem {
    type V = ProblemView;

    open spec fn view(&self) -> ProblemView {
        match self {
            Problem::Scope { name, id, error } => ProblemView::Scope {
                name: name@,
                id: *id,
                error: *error,
            },
            Problem::NoListener { name, subnet, prefix } => ProblemView::NoListener {
                name: name@,
                subnet: *subnet,
                prefix: *prefix,
            },
            Problem::SharedListener { server_ip, scopes } => ProblemView::SharedListener {
                server_ip: *server_ip,
                scopes: texts(scopes@),
            },
        }
    }
}

pub open spec fn problems_view(v: Seq<Problem>) -> Seq<ProblemView> {
    v.map_values(|p: Problem| p@)
}

/// Why a configuration was refused.
#[derive(Debug)]
pub enum CheckError {
    /// Scopes but no listener: requests would arrive, replies could not go
    /// out.
    NoListeners,
    /// The problems found, all of them.
    Problems(Vec<Problem>),
}

pub enum CheckErrorView {
    NoListeners,
    Problems(Seq<ProblemView>),
}

impl View for CheckError {
    type V = CheckErrorView;

    open spec fn view(&self) -> CheckErrorView {
        match self {
            CheckError::NoListeners => CheckErrorView::NoListeners,
            CheckError::Problems(p) => CheckErrorView::Problems(problems_view(p@)),
        }
    }
}

/// The problems of each scope's own configuration, scope by scope.
pub open spec fn spec_scope_problems(scopes: Seq<Scope>) -> Seq<ProblemView>
    decreases scopes.len(),
{
    if scopes.len() == 0 {
        Seq::empty()
    } else {
        let s = scopes.last();
        spec_scope_problems(scopes.drop_last()) + spec_validate(s).map_values(
            |e: ScopeError| ProblemView::Scope { name: s.name@, id: s.id, error: e },
        )
    }
}

pub open spec fn has_listener_for(s: Scope, ls: Seq<Listener>) -> bool {
    exists|j: int| 0 <= j < ls.len() && s.spec_contains(#[trigger] ls[j].server_ip)
}

/// The scopes, not served through a relay, in whose subnet no listener
/// lies. (A relayed subnet has no address of this host on it; replies go
/// back to `giaddr`. It must be marked, or the commonest mistake, a
/// forgotten listener, would pass unnoticed.)
pub open spec fn spec_missing_listeners(scopes: Seq<Scope>, ls: Seq<Listener>) -> Seq<ProblemView>
    decreases scopes.len(),
{
    if scopes.len() == 0 {
        Seq::empty()
    } else {
        let s = scopes.last();
        spec_missing_listeners(scopes.drop_last(), ls) + if !s.via_relay && !has_listener_for(s, ls) {
            seq![ProblemView::NoListener { name: s.name@, subnet: s.subnet, prefix: s.prefix }]
        } else {
            Seq::empty()
        }
    }
}

/// The names of the scopes containing `ip`.
pub open spec fn spec_hits(scopes: Seq<Scope>, ip: u32) -> Seq<Seq<char>>
    decreases scopes.len(),
{
    if scopes.len() == 0 {
        Seq::empty()
    } else {
        spec_hits(scopes.drop_last(), ip) + if scopes.last().spec_contains(ip) {
            seq![scopes.last().name@]
        } else {
            Seq::empty()
        }
    }
}

/// The listeners whose address lies in more than one scope.
pub open spec fn spec_shared_listeners(scopes: Seq<Scope>, ls: Seq<Listener>) -> Seq<ProblemView>
    decreases ls.len(),
{
    if ls.len() == 0 {
        Seq::empty()
    } else {
        let ip = ls.last().server_ip;
        spec_shared_listeners(scopes, ls.drop_last()) + if spec_hits(scopes, ip).len() > 1 {
            seq![ProblemView::SharedListener { server_ip: ip, scopes: spec_hits(scopes, ip) }]
        } else {
            Seq::empty()
        }
    }
}

/// All problems of a configuration, in the order they are reported.
pub open spec fn spec_problems(scopes: Seq<Scope>, ls: Seq<Listener>) -> Seq<ProblemView> {
    spec_scope_problems(scopes) + spec_missing_listeners(scopes, ls) + spec_shared_listeners(scopes, ls)
}

/// What [`Config::check`] decides.
pub open spec fn spec_check(scopes: Seq<Scope>, ls: Seq<Listener>) -> Result<(), CheckErrorView> {
    if ls.len() == 0 && scopes.len() > 0 {
        Err(CheckErrorView::NoListeners)
    } else if spec_problems(scopes, ls).len() > 0 {
        Err(CheckErrorView::Problems(spec_problems(scopes, ls)))
    } else {
        Ok(())
    }
}

fn scope_problems(scopes: &Vec<Scope>, out: &mut Vec<Problem>)
    ensures
        problems_view(final(out)@) == problems_view(old(out)@) + spec_scope_problems(scopes@),
{
    let ghost start = problems_view(out@);
    let mut i: usize = 0;
    while i < scopes.len()
        invariant
            0 <= i <= scopes@.len(),
            problems_view(out@) == start + spec_scope_problems(scopes@.take(i as int)),
        decreases scopes@.len() - i,
    {
        let s = &scopes[i];
        let errs = s.validate();
        let ghost before = problems_view(out@);
        let ghost mk = |e: ScopeError| ProblemView::Scope { name: s.name@, id: s.id, error: e };
        let mut k: usize = 0;
        while k < errs.len()
            invariant
                0 <= k <= errs@.len(),
                errs@ == spec_validate(*s),
                mk == (|e: ScopeError| ProblemView::Scope { name: s.name@, id: s.id, error: e }),
                problems_view(out@) == before + errs@.take(k as int).map_values(mk),
            decreases errs@.len() - k,
        {
            let ghost prev = problems_view(out@);
            out.push(Problem::Scope { name: s.name.clone(), id: s.id, error: errs[k] });
            proof {
                assert(problems_view(out@) =~= prev.push(mk(errs@[k as int])));
                assert(errs@.take(k + 1).map_values(mk) =~= errs@.take(k as int).map_values(mk).push(
                    mk(errs@[k as int]),
                ));
            }
            k = k + 1;
        }
        proof {
            assert(errs@.take(errs@.len() as int) =~= errs@);
            assert(scopes@.take(i + 1).drop_last() =~= scopes@.take(i as int));
            assert(scopes@.take(i + 1).last() == *s);
            assert(spec_validate(*s).map_values(mk) =~= spec_validate(*s).map_values(
                |e: ScopeError| ProblemView::Scope { name: s.name@, id: s.id, error: e },
            ));
        }
        i = i + 1;
    }
    proof {
        assert(scopes@.take(scopes@.len() as int) =~= scopes@);
    }
}

fn has_listener(s: &Scope, ls: &Vec<Listener>) -> (r: bool)
    ensures
        r == has_listener_for(*s, ls@),
{
    let mut j: usize = 0;
    while j < ls.len()
        invariant
            0 <= j <= ls@.len(),
            forall|k: int| 0 <= k < j ==> !s.spec_contains(#[trigger] ls@[k].server_ip),
        decreases ls@.len() - j,
    {
        if s.contains(ls[j].server_ip) {
            return true;
        }
        j = j + 1;
    }
    false
}

fn missing_listeners(scopes: &Vec<Scope>, ls: &Vec<Listener>, out: &mut Vec<Problem>)
    ensures
        problems_view(final(out)@) == problems_view(old(out)@) + spec_missing_listeners(
            scopes@,
            ls@,
        ),
{
    let ghost start = problems_view(out@);
    let mut i: usize = 0;
    while i < scopes.len()
        invariant
            0 <= i <= scopes@.len(),
            problems_view(out@) == start + spec_missing_listeners(scopes@.take(i as int), ls@),
        decreases scopes@.len() - i,
    {
        let s = &scopes[i];
        let ghost prev = problems_view(out@);
        proof {
            assert(scopes@.take(i + 1).drop_last() =~= scopes@.take(i as int));
            assert(scopes@.take(i + 1).last() == *s);
        }
        if !s.via_relay && !has_listener(s, ls) {
            out.push(Problem::NoListener { name: s.name.clone(), subnet: s.subnet, prefix: s.prefix });
            proof {
                assert(problems_view(out@) =~= prev.push(
                    ProblemView::NoListener { name: s.name@, subnet: s.subnet, prefix: s.prefix },
                ));
            }
        }
        proof {
            assert(problems_view(out@) =~= start + spec_missing_listeners(scopes@.take(i + 1), ls@));
        }
        i = i + 1;
    }
    proof {
        assert(scopes@.take(scopes@.len() as int) =~= scopes@);
    }
}

fn hits(scopes: &Vec<Scope>, ip: u32) -> (r: Vec<String>)
    ensures
        texts(r@) == spec_hits(scopes@, ip),
{
    let mut out: Vec<String> = Vec::new();
    let mut i: usize = 0;
    while i < scopes.len()
        invariant
            0 <= i <= scopes@.len(),
            texts(out@) == spec_hits(scopes@.take(i as int), ip),
        decreases scopes@.len() - i,
    {
        let ghost prev = texts(out@);
        proof {
            assert(scopes@.take(i + 1).drop_last() =~= scopes@.take(i as int));
            assert(scopes@.take(i + 1).last() == scopes@[i as int]);
        }
        if scopes[i].contains(ip) {
            out.push(scopes[i].name.clone());
            proof {
                assert(texts(out@) =~= prev.push(scopes@[i as int].name@));
            }
        }
        proof {
            assert(texts(out@) =~= spec_hits(scopes@.take(i + 1), ip));
        }
        i = i + 1;
    }
    proof {
        assert(scopes@.take(scopes@.len() as int) =~= scopes@);
    }
    out
}

fn shared_listeners(scopes: &Vec<Scope>, ls: &Vec<Listener>, out: &mut Vec<Problem>)
    ensures
        problems_view(final(out)@) == problems_view(old(out)@) + spec_shared_listeners(
            scopes@,
            ls@,
        ),
{
    let ghost start = problems_view(out@);
    let mut i: usize = 0;
    while i < ls.len()
        invariant
            0 <= i <= ls@.len(),
            problems_view(out@) == start + spec_shared_listeners(scopes@, ls@.take(i as int)),
        decreases ls@.len() - i,
    {
        let ip = ls[i].server_ip;
        let h = hits(scopes, ip);
        let ghost prev = problems_view(out@);
        proof {
            assert(ls@.take(i + 1).drop_last() =~= ls@.take(i as int));
            assert(ls@.take(i + 1).last() == ls@[i as int]);
        }
        if h.len() > 1 {
            let ghost hv = texts(h@);
            out.push(Problem::SharedListener { server_ip: ip, scopes: h });
            proof {
                assert(problems_view(out@) =~= prev.push(
                    ProblemView::SharedListener { server_ip: ip, scopes: hv },
                ));
            }
        }
        proof {
            assert(problems_view(out@) =~= start + spec_shared_listeners(scopes@, ls@.take(i + 1)));
        }
        i = i + 1;
    }
    proof {
        assert(ls@.take(ls@.len() as int) =~= ls@);
    }
}

impl Config {
    /// The checks before starting. A scope's own problems come from
    /// `Scope::validate`; this adds the consistency between objects. Every
    /// problem is reported, not just the first (see [`spec_check`]).
    ///
    /// No listeners is fine when there are no scopes either: that is the
    /// service started first, with interfaces and pools chosen later in the
    /// interface. No scopes is fine too: then nothing is answered, which is
    /// safe.
    pub fn check(&self) -> (r: Result<(), CheckError>)
        ensures
            match r {
                Ok(()) => spec_check(self.scopes@, self.listeners@) is Ok,
                Err(e) => spec_check(self.scopes@, self.listeners@) == Err::<(), CheckErrorView>(e@),
            },
    {
        if self.listeners.len() == 0 && self.scopes.len() > 0 {
            return Err(CheckError::NoListeners);
        }
        let mut problems: Vec<Problem> = Vec::new();
        proof {
            assert(problems_view(problems@) =~= Seq::<ProblemView>::empty());
        }
        scope_problems(&self.scopes, &mut problems);
        missing_listeners(&self.scopes, &self.listeners, &mut problems);
        shared_listeners(&self.scopes, &self.listeners, &mut problems);
        proof {
            assert(problems_view(problems@) =~= spec_problems(self.scopes@, self.listeners@));
        }
        if problems.len() > 0 {
            Err(CheckError::Problems(problems))
        } else {
            Ok(())
        }
    }
}

/// `parts` joined by `sep`.
pub open spec fn join(parts: Seq<Seq<char>>, sep: Seq<char>) -> Seq<char>
    decreases parts.len(),
{
    if parts.len() == 0 {
        Seq::empty()
    } else if parts.len() == 1 {
        parts[0]
    } else {
        join(parts.drop_last(), sep) + sep + parts.last()
    }
}

/// Appends `parts` joined by `sep`.
pub fn push_joined(out: &mut Vec<char>, parts: &Vec<String>, sep: &str)
    ensures
        final(out)@ == old(out)@ + join(texts(parts@), sep@),
{
    let ghost start = out@;
    let mut i: usize = 0;
    while i < parts.len()
        invariant
            0 <= i <= parts@.len(),
            out@ == start + join(texts(parts@.take(i as int)), sep@),
        decreases parts@.len() - i,
    {
        let ghost prev = out@;
        if i > 0 {
            push_str(out, sep);
        }
        push_str(out, parts[i].as_str());
        proof {
            let t = texts(parts@.take(i + 1));
            assert(t.drop_last() =~= texts(parts@.take(i as int)));
            assert(t.last() == parts@[i as int]@);
            if i == 0 {
                assert(t.len() == 1);
            }
            assert(out@ =~= start + join(t, sep@));
        }
        i = i + 1;
    }
    proof {
        assert(parts@.take(parts@.len() as int) =~= parts@);
    }
}

/// The message for one problem.
pub open spec fn spec_problem_text(p: ProblemView) -> Seq<char> {
    match p {
        ProblemView::Scope { name, id, error } => "作用域 "@ + name + "（"@ + spec_scope_id_text(id)
            + "）: "@ + spec_scope_error_text(error),
        ProblemView::NoListener { name, subnet, prefix } => "作用域 "@ + name + "（"@ + spec_net_text(
            subnet,
            prefix,
        )
            + "）没有对应的监听器 —— 需要一个 server_ip 落在这个网段内；如果这个网段是经 DHCP 中继服务的，请标上 viaRelay"@,
        ProblemView::SharedListener { server_ip, scopes } => "监听器 "@ + spec_ipv4_text(server_ip)
            + " 同时落在多个作用域里（"@ + join(scopes, "、"@) + "），无法确定用哪个"@,
    }
}

impl Problem {
    pub fn push_text(&self, out: &mut Vec<char>)
        ensures
            final(out)@ == old(out)@ + spec_problem_text(self@),
    {
        let ghost start = out@;
        match self {
            Problem::Scope { name, id, error } => {
                push_str(out, "作用域 ");
                push_str(out, name.as_str());
                push_str(out, "（");
                let idt = id.to_text();
                push_str(out, idt.as_str());
                push_str(out, "）: ");
                error.push_text(out);
            },
            Problem::NoListener { name, subnet, prefix } => {
                push_str(out, "作用域 ");
                push_str(out, name.as_str());
                push_str(out, "（");
                push_net(out, *subnet, *prefix);
                push_str(
                    out,
                    "）没有对应的监听器 —— 需要一个 server_ip 落在这个网段内；如果这个网段是经 DHCP 中继服务的，请标上 viaRelay",
                );
            },
            Problem::SharedListener { server_ip, scopes } => {
                push_str(out, "监听器 ");
                push_ipv4(out, *server_ip);
                push_str(out, " 同时落在多个作用域里（");
                push_joined(out, scopes, "、");
                push_str(out, "），无法确定用哪个");
            },
        }
        proof {
            assert(out@ =~= start + spec_problem_text(self@));
        }
    }
}

/// The lines of a list of problems, each after `\n  - `.
pub open spec fn spec_problem_lines(ps: Seq<ProblemView>) -> Seq<char>
    decreases ps.len(),
{
    if ps.len() == 0 {
        Seq::empty()
    } else {
        spec_problem_lines(ps.drop_last()) + "\n  - "@ + spec_problem_text(ps.last())
    }
}

/// The message for a refused configuration.
pub open spec fn spec_check_error_text(e: CheckErrorView) -> Seq<char> {
    match e {
        CheckErrorView::NoListeners => "配了作用域却没有监听器 —— 收得到请求也发不出应答"@,
        CheckErrorView::Problems(ps) => "配置有问题："@ + spec_problem_lines(ps),
    }
}

impl CheckError {
    /// The message, every problem on a line of its own.
    pub fn text(&self) -> (r: String)
        ensures
            r@ == spec_check_error_text(self@),
    {
        let mut out: Vec<char> = Vec::new();
        match self {
            CheckError::NoListeners => {
                push_str(&mut out, "配了作用域却没有监听器 —— 收得到请求也发不出应答");
            },
            CheckError::Problems(ps) => {
                push_str(&mut out, "配置有问题：");
                let ghost start = out@;
                let mut i: usize = 0;
                while i < ps.len()
                    invariant
                        0 <= i <= ps@.len(),
                        out@ == start + spec_problem_lines(problems_view(ps@.take(i as int))),
                    decreases ps@.len() - i,
                {
                    push_str(&mut out, "\n  - ");
                    ps[i].push_text(&mut out);
                    proof {
                        let t = problems_view(ps@.take(i + 1));
                        assert(t.drop_last() =~= problems_view(ps@.take(i as int)));
                        assert(t.last() == ps@[i as int]@);
                        assert(out@ =~= start + spec_problem_lines(t));
                    }
                    i = i + 1;
                }
                proof {
                    assert(ps@.take(ps@.len() as int) =~= ps@);
                }
            },
        }
        string_from_chars(out.as_slice())
    }
}

/// A single subnet described by command-line arguments, for starting a DHCP
/// service without a configuration file.
#[derive(Debug)]
pub struct Quick {
    /// This host's address on the subnet; the subnet follows from it and
    /// the prefix. `None` starts with no listener at all, to be chosen in
    /// the interface.
    pub server_ip: Option<u32>,
    pub prefix: u8,
    pub pool: Option<Range>,
    pub router: Option<u32>,
    pub dns: Vec<u32>,
    pub lease_secs: u32,
    pub iface: Option<String>,
    pub reservations: Vec<Reservation>,
    /// PXE / UEFI HTTP Boot parameters; without them no boot option is sent.
    pub boot: Option<BootConfig>,
    /// Extra raw DHCP options, for whatever has no field of its own.
    pub extra_options: Vec<(u8, Vec<u8>)>,
}

/// The scope that [`Config::from_quick`] builds for a listener at `ip`
/// with pool `pool`.
pub open spec fn quick_scope(s: Scope, o: Quick, ip: u32, pool: Range) -> bool {
    &&& s.id == ScopeId(1)
    &&& s.name@ == "quick"@
    &&& s.enabled
    &&& s.subnet == ip & spec_netmask(o.prefix)
    &&& s.prefix == o.prefix
    &&& s.pools@ == seq![pool]
    &&& s.exclusions@.len() == 0
    &&& s.reservations == o.reservations
    &&& s.router == o.router
    &&& s.dns == o.dns
    &&& s.domain is None
    &&& s.lease_secs == o.lease_secs
    &&& s.offer_secs == if o.lease_secs < 30 {
        o.lease_secs
    } else {
        30
    }
    &&& s.decline_quarantine_secs == 3600
    &&& s.boot == o.boot
    &&& s.extra_options == o.extra_options
    &&& !s.via_relay
}

/// The configuration [`Config::from_quick`] builds: one listener at `ip`,
/// and one scope if a pool was given (without one the listener still
/// starts, and scopes are made later in the interface).
pub open spec fn quick_shape(c: Config, o: Quick, ip: u32) -> bool {
    &&& c.listeners@.len() == 1
    &&& c.listeners@[0].server_ip == ip
    &&& c.listeners@[0].iface == o.iface
    &&& match o.pool {
        None => c.scopes@.len() == 0,
        Some(pool) => c.scopes@.len() == 1 && quick_scope(c.scopes@[0], o, ip, pool),
    }
}

impl Config {
    /// Builds a single-subnet configuration from command-line arguments
    /// (see [`quick_shape`]) and checks it. Quick setups usually want
    /// addresses back soon, so the offer hold is 30 seconds at most.
    pub fn from_quick(o: Quick) -> (r: Result<Config, CheckError>)
        ensures
            match o.server_ip {
                None => r matches Ok(c) && c.listeners@.len() == 0 && c.scopes@.len() == 0,
                Some(ip) => match r {
                    Ok(c) => quick_shape(c, o, ip) && spec_check(c.scopes@, c.listeners@) is Ok,
                    Err(e) => exists|c: Config|
                        quick_shape(c, o, ip) && spec_check(c.scopes@, c.listeners@) == Err::<
                            (),
                            CheckErrorView,
                        >(e@),
                },
            },
    {
        let ghost oo = o;
        let server_ip = match o.server_ip {
            Some(ip) => ip,
            None => {
                let cfg = Config { listeners: Vec::new(), scopes: Vec::new() };
                return Ok(cfg);
            },
        };
        let mask = crate::scope::netmask_of(o.prefix);
        let subnet = server_ip & mask;
        let mut scope = Scope::new(1, "quick", subnet, o.prefix);
        proof {
            reveal_strlit("quick");
        }
        let has_pool = o.pool.is_some();
        if let Some(p) = o.pool {
            scope.pools.push(p);
            proof {
                assert(scope.pools@ =~= seq![p]);
            }
        }
        scope.router = o.router;
        scope.dns = o.dns;
        scope.lease_secs = o.lease_secs;
        scope.reservations = o.reservations;
        scope.boot = o.boot;
        scope.extra_options = o.extra_options;
        scope.offer_secs = if o.lease_secs < 30 {
            o.lease_secs
        } else {
            30
        };
        let mut listeners: Vec<Listener> = Vec::new();
        listeners.push(Listener { server_ip, iface: o.iface });
        let mut scopes: Vec<Scope> = Vec::new();
        if has_pool {
            scopes.push(scope);
        }
        let cfg = Config { listeners, scopes };
        proof {
            if has_pool {
                assert(cfg.scopes@[0] == scope);
                assert(quick_scope(cfg.scopes@[0], oo, server_ip, oo.pool.unwrap()));
            }
            assert(quick_shape(cfg, oo, server_ip));
        }
        match cfg.check() {
            Ok(()) => Ok(cfg),
            Err(e) => Err(e),
        }
    }
}

/// The arguments that describe a single subnet on the command line.
#[derive(Debug)]
pub struct QuickArgs {
    pub listen: Option<u32>,
    pub prefix: u8,
    /// `start-end`.
    pub pool: Option<String>,
    pub router: Option<u32>,
    pub dns: Vec<u32>,
    pub lease_secs: u32,
    /// `MAC=IP` or `MAC=IP=hostname`, each.
    pub reservations: Vec<String>,
    pub boot_file: Option<String>,
    pub next_server: Option<u32>,
    pub tftp_server: Option<String>,
    pub http_boot_url: Option<String>,
    pub ipxe_url: Option<String>,
    /// `code=hex`, each.
    pub options: Vec<String>,
    pub iface: Option<String>,
    /// Start without scopes (and without a listener when none is given),
    /// to be set up in the interface.
    pub serve_empty: bool,
}

/// Why the command-line arguments do not describe a subnet.
#[derive(Clone, Copy, PartialEq, Eq, Debug, Structural)]
pub enum ArgsError {
    /// Neither `--listen` nor `--serve-empty`.
    NeedListen,
    /// Neither `--pool` nor `--serve-empty`.
    NeedPool,
    Range(RangeError),
    Reservation(ReservationError),
    Option(OptionError),
}

/// The first reservation of `rs` that does not parse, and why.
pub open spec fn spec_first_reservation_error(rs: Seq<Seq<char>>) -> Option<ReservationError>
    decreases rs.len(),
{
    if rs.len() == 0 {
        None
    } else {
        match spec_first_reservation_error(rs.drop_last()) {
            Some(e) => Some(e),
            None => match spec_parse_reservation(rs.last()) {
                Err(e) => Some(e),
                Ok(_) => None,
            },
        }
    }
}

/// The first raw option of `os` that does not parse, and why.
pub open spec fn spec_first_option_error(os: Seq<Seq<char>>) -> Option<OptionError>
    decreases os.len(),
{
    if os.len() == 0 {
        None
    } else {
        match spec_first_option_error(os.drop_last()) {
            Some(e) => Some(e),
            None => match spec_parse_option(os.last()) {
                Err(e) => Some(e),
                Ok(_) => None,
            },
        }
    }
}

/// Reading the raw options in order, up to the first that fails, cuts no
/// character in two (see [`option_reads_cleanly`]).
pub open spec fn options_read_cleanly(os: Seq<Seq<char>>) -> bool
    decreases os.len(),
{
    if os.len() == 0 {
        true
    } else {
        options_read_cleanly(os.drop_last()) && (spec_first_option_error(os.drop_last()) is Some
            || option_reads_cleanly(os.last()))
    }
}

/// What is wrong with the arguments, checked in this order: a listener
/// (unless serving empty), a pool (likewise), the pool, the reservations,
/// the raw options.
pub open spec fn spec_args_error(a: QuickArgs) -> Option<ArgsError> {
    if a.listen is None && !a.serve_empty {
        Some(ArgsError::NeedListen)
    } else if a.pool is None && !a.serve_empty {
        Some(ArgsError::NeedPool)
    } else if a.pool matches Some(p) && spec_parse_range(p@) is Err {
        Some(ArgsError::Range(spec_parse_range(a.pool.unwrap()@)->Err_0))
    } else if spec_first_reservation_error(texts(a.reservations@)) is Some {
        Some(ArgsError::Reservation(spec_first_reservation_error(texts(a.reservations@)).unwrap()))
    } else if spec_first_option_error(texts(a.options@)) is Some {
        Some(ArgsError::Option(spec_first_option_error(texts(a.options@)).unwrap()))
    } else {
        None
    }
}

/// The boot parameters the arguments give, if any.
pub open spec fn spec_args_boot(a: QuickArgs) -> Option<BootConfig> {
    let b = BootConfig {
        filename: a.boot_file,
        next_server: a.next_server,
        server_name: a.tftp_server,
        http_url: a.http_boot_url,
        ipxe_url: a.ipxe_url,
    };
    if b.filename is None && b.next_server is None && b.server_name is None && b.http_url is None
        && b.ipxe_url is None {
        None
    } else {
        Some(b)
    }
}

/// A reservation as [`parse_reservation`] reads it.
pub open spec fn reservation_is(r: Reservation, v: ReservationView) -> bool {
    r.client@ == ClientKey::Mac(MacAddr(spec_mac_array(v.mac))) && r.ip == v.ip && opt_text(r.hostname)
        == v.hostname
}

/// `r` is what [`parse_reservation`] reads from `s`.
pub open spec fn parsed_reservation(s: Seq<char>, r: Reservation) -> bool {
    spec_parse_reservation(s) matches Ok(w) && reservation_is(r, w)
}

/// `o` is what [`parse_option`] reads from `s`.
pub open spec fn parsed_option(s: Seq<char>, o: (u8, Vec<u8>)) -> bool {
    spec_parse_option(s) == Ok::<(u8, Seq<u8>), OptionError>((o.0, o.1@))
}

fn parse_reservations(rs: &Vec<String>) -> (r: Result<Vec<Reservation>, ReservationError>)
    ensures
        match r {
            Ok(v) => spec_first_reservation_error(texts(rs@)) is None && v@.len() == rs@.len()
                && forall|i: int| 0 <= i < rs@.len() ==> parsed_reservation(rs@[i]@, #[trigger] v@[i]),
            Err(e) => spec_first_reservation_error(texts(rs@)) == Some(e),
        },
{
    let mut out: Vec<Reservation> = Vec::new();
    let mut i: usize = 0;
    while i < rs.len()
        invariant
            0 <= i <= rs@.len(),
            spec_first_reservation_error(texts(rs@.take(i as int))) is None,
            out@.len() == i,
            forall|k: int| 0 <= k < i ==> parsed_reservation(rs@[k]@, #[trigger] out@[k]),
        decreases rs@.len() - i,
    {
        proof {
            assert(texts(rs@.take(i + 1)).drop_last() =~= texts(rs@.take(i as int)));
            assert(texts(rs@.take(i + 1)).last() == rs@[i as int]@);
        }
        match parse_reservation(rs[i].as_str()) {
            Ok(r) => {
                let ghost prev = out@;
                out.push(r);
                proof {
                    assert(out@ == prev.push(r));
                    assert(parsed_reservation(rs@[i as int]@, out@[i as int]));
                }
            },
            Err(e) => {
                proof {
                    lemma_first_error_reservation_prefix(texts(rs@), i + 1);
                    assert(texts(rs@).take(i + 1) =~= texts(rs@.take(i + 1)));
                }
                return Err(e);
            },
        }
        i = i + 1;
    }
    proof {
        assert(rs@.take(rs@.len() as int) =~= rs@);
    }
    Ok(out)
}

/// Once a prefix of the reservations has an error, the whole list has the
/// same first error.
proof fn lemma_first_error_reservation_prefix(rs: Seq<Seq<char>>, n: int)
    requires
        0 <= n <= rs.len(),
        spec_first_reservation_error(rs.take(n)) is Some,
    ensures
        spec_first_reservation_error(rs) == spec_first_reservation_error(rs.take(n)),
    decreases rs.len() - n,
{
    if n < rs.len() {
        assert(rs.take(n + 1).drop_last() =~= rs.take(n));
        lemma_first_error_reservation_prefix(rs, n + 1);
    } else {
        assert(rs.take(n) =~= rs);
    }
}

proof fn lemma_first_error_option_prefix(os: Seq<Seq<char>>, n: int)
    requires
        0 <= n <= os.len(),
        spec_first_option_error(os.take(n)) is Some,
    ensures
        spec_first_option_error(os) == spec_first_option_error(os.take(n)),
    decreases os.len() - n,
{
    if n < os.len() {
        assert(os.take(n + 1).drop_last() =~= os.take(n));
        lemma_first_error_option_prefix(os, n + 1);
    } else {
        assert(os.take(n) =~= os);
    }
}

proof fn lemma_options_clean_prefix(os: Seq<Seq<char>>, n: int)
    requires
        0 <= n <= os.len(),
        options_read_cleanly(os),
    ensures
        options_read_cleanly(os.take(n)),
    decreases os.len() - n,
{
    if n < os.len() {
        assert(os.take(n + 1).drop_last() =~= os.take(n));
        lemma_options_clean_prefix(os, n + 1);
    } else {
        assert(os.take(n) =~= os);
    }
}

fn parse_options(os: &Vec<String>) -> (r: Result<Vec<(u8, Vec<u8>)>, OptionError>)
    requires
        options_read_cleanly(texts(os@)),
    ensures
        match r {
            Ok(v) => spec_first_option_error(texts(os@)) is None && v@.len() == os@.len()
                && forall|i: int| 0 <= i < os@.len() ==> parsed_option(os@[i]@, #[trigger] v@[i]),
            Err(e) => spec_first_option_error(texts(os@)) == Some(e),
        },
{
    let mut out: Vec<(u8, Vec<u8>)> = Vec::new();
    let mut i: usize = 0;
    while i < os.len()
        invariant
            0 <= i <= os@.len(),
            options_read_cleanly(texts(os@)),
            spec_first_option_error(texts(os@.take(i as int))) is None,
            out@.len() == i,
            forall|k: int| 0 <= k < i ==> parsed_option(os@[k]@, #[trigger] out@[k]),
        decreases os@.len() - i,
    {
        proof {
            assert(texts(os@.take(i + 1)).drop_last() =~= texts(os@.take(i as int)));
            assert(texts(os@.take(i + 1)).last() == os@[i as int]@);
            assert(texts(os@).take(i + 1) =~= texts(os@.take(i + 1)));
            lemma_options_clean_prefix(texts(os@), i + 1);
        }
        match parse_option(os[i].as_str()) {
            Ok(p) => {
                out.push(p);
            },
            Err(e) => {
                proof {
                    lemma_first_error_option_prefix(texts(os@), i + 1);
                }
                return Err(e);
            },
        }
        i = i + 1;
    }
    proof {
        assert(os@.take(os@.len() as int) =~= os@);
    }
    Ok(out)
}

/// Turns the command-line description of a subnet into a [`Quick`]: see
/// [`spec_args_error`] for what is refused. Without `--serve-empty` both a
/// listener address and a pool are needed; with it either may be left out
/// and set up in the interface.
#[verifier::rlimit(40)]
pub fn quick_from_args(a: QuickArgs) -> (r: Result<Quick, ArgsError>)
    requires
        (spec_args_error(a) is None || (spec_args_error(a) matches Some(ArgsError::Option(_))))
            ==> options_read_cleanly(texts(a.options@)),
    ensures
        match r {
            Err(e) => spec_args_error(a) == Some(e),
            Ok(q) => {
                &&& spec_args_error(a) is None
                &&& q.server_ip == a.listen
                &&& q.prefix == a.prefix
                &&& q.pool == match a.pool {
                    Some(p) => Some(spec_parse_range(p@)->Ok_0),
                    None => None,
                }
                &&& q.router == a.router
                &&& q.dns == a.dns
                &&& q.lease_secs == a.lease_secs
                &&& q.iface == a.iface
                &&& q.reservations@.len() == a.reservations@.len()
                &&& forall|i: int|
                    0 <= i < a.reservations@.len() ==> parsed_reservation(
                        a.reservations@[i]@,
                        #[trigger] q.reservations@[i],
                    )
                &&& q.boot == spec_args_boot(a)
                &&& q.extra_options@.len() == a.options@.len()
                &&& forall|i: int|
                    0 <= i < a.options@.len() ==> parsed_option(
                        a.options@[i]@,
                        #[trigger] q.extra_options@[i],
                    )
            },
        },
{
    let ghost aa = a;
    if a.listen.is_none() && !a.serve_empty {
        return Err(ArgsError::NeedListen);
    }
    if a.pool.is_none() && !a.serve_empty {
        return Err(ArgsError::NeedPool);
    }
    let pool = match &a.pool {
        Some(p) => match parse_range(p.as_str()) {
            Ok(r) => Some(r),
            Err(e) => return Err(ArgsError::Range(e)),
        },
        None => None,
    };
    let reservations = match parse_reservations(&a.reservations) {
        Ok(v) => v,
        Err(e) => return Err(ArgsError::Reservation(e)),
    };
    let extra_options = match parse_options(&a.options) {
        Ok(v) => v,
        Err(e) => return Err(ArgsError::Option(e)),
    };
    let boot = BootConfig {
        filename: a.boot_file,
        next_server: a.next_server,
        server_name: a.tftp_server,
        http_url: a.http_boot_url,
        ipxe_url: a.ipxe_url,
    };
    let boot = if boot.is_empty() {
        None
    } else {
        Some(boot)
    };
    Ok(
        Quick {
            server_ip: a.listen,
            prefix: a.prefix,
            pool,
            router: a.router,
            dns: a.dns,
            lease_secs: a.lease_secs,
            iface: a.iface,
            reservations,
            boot,
            extra_options,
        },
    )
}

} // verus!
