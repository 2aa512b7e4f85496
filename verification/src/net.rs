//! The platform layer: interfaces and their addresses.
//!
//! Listing interfaces is the same on every platform once the operating
//! system has been asked; configuring an address is a privileged operation
//! that each platform does its own way. Here the plans are made (which
//! commands, in which order, what a failure means); running them is the
//! caller's part.

use vstd::prelude::*;

use crate::addr::{MacAddr, spec_parse_mac};
use crate::parse::{
    contains_chars, has_substr, parse_ipv4, parse_u8, push_dec, push_ipv4, push_str, spec_dec,
    spec_ipv4_text, spec_parse_ipv4, spec_parse_u8, spec_split_once, spec_trim, split_once, trim,
};
use crate::scope::{netmask_of, spec_netmask};
use crate::text::{chars_of, string_from_chars};

verus! {

/// The platform a plan is made for.
#[derive(Clone, Copy, PartialEq, Eq, Debug, Structural)]
pub enum Platform {
    Windows,
    Linux,
    MacOs,
    /// Anything else: address configuration is not supported there.
    Other,
}

/// What can go wrong with interfaces.
#[derive(Debug, PartialEq, Eq)]
pub enum NetError {
    /// Listing the interfaces failed.
    Enumerate(String),
    NoSuchInterface(String),
    /// Not privileged enough. A variant of its own because it is handled
    /// quite differently: other errors need other arguments, this one only
    /// another identity. Mixed in with the rest, a caller would be left
    /// guessing at an "access denied".
    NeedsPrivilege { iface: String },
    Configure { iface: String, detail: String },
    /// The platform does not support the operation.
    Unsupported,
}

/// What each platform calls being privileged, for messages in its own terms.
pub open spec fn spec_privilege_name(p: Platform) -> Seq<char> {
    if p == Platform::Windows {
        "管理员权限"@
    } else {
        "root 权限（或 CAP_NET_ADMIN）"@
    }
}

pub fn privilege_name(p: Platform) -> (r: &'static str)
    ensures
        r@ == spec_privilege_name(p),
{
    if p == Platform::Windows {
        "管理员权限"
    } else {
        "root 权限（或 CAP_NET_ADMIN）"
    }
}

/// The next step to suggest for an error on `p`: saying only "failed" does
/// not help, saying what to do does.
pub open spec fn spec_hint(e: NetError, p: Platform) -> Option<Seq<char>> {
    match e {
        NetError::NeedsPrivilege { .. } => Some(
            if p == Platform::Windows {
                "以管理员身份重新运行，或先手工把网卡地址配好。\n注意 lessord 本身不需要管理员 —— 只有修改网卡地址这一步需要。"@
            } else {
                "用 sudo 重新运行，或先手工把网卡地址配好。\n注意 lessord 本身不需要 root —— 只有修改网卡地址这一步需要。"@
            },
        ),
        NetError::NoSuchInterface(_) => Some("用 `lessor-netcfg list` 看看本机有哪些网卡。"@),
        _ => None,
    }
}

/// The message for an error.
pub open spec fn spec_net_error_text(e: NetError, p: Platform) -> Seq<char> {
    match e {
        NetError::Enumerate(s) => "枚举网卡失败: "@ + s@,
        NetError::NoSuchInterface(s) => "找不到网卡 "@ + s@,
        NetError::NeedsPrivilege { iface } => "修改网卡 "@ + iface@ + " 需要"@ + spec_privilege_name(p)
            + "，当前身份不足"@,
        NetError::Configure { iface, detail } => "配置网卡 "@ + iface@ + " 失败: "@ + detail@,
        NetError::Unsupported => "当前平台不支持该操作"@,
    }
}

impl NetError {
    /// Whether running again with another identity can fix it.
    pub fn is_privilege(&self) -> (r: bool)
        ensures
            r == (self is NeedsPrivilege),
    {
        match self {
            NetError::NeedsPrivilege { .. } => true,
            _ => false,
        }
    }

    /// The next step to suggest (see [`spec_hint`]).
    pub fn hint(&self, p: Platform) -> (r: Option<String>)
        ensures
            match r {
                Some(s) => spec_hint(*self, p) == Some(s@),
                None => spec_hint(*self, p) is None,
            },
    {
        match self {
            NetError::NeedsPrivilege { .. } => Some(
                if p == Platform::Windows {
                    "以管理员身份重新运行，或先手工把网卡地址配好。\n注意 lessord 本身不需要管理员 —— 只有修改网卡地址这一步需要。".to_owned()
                } else {
                    "用 sudo 重新运行，或先手工把网卡地址配好。\n注意 lessord 本身不需要 root —— 只有修改网卡地址这一步需要。".to_owned()
                },
            ),
            NetError::NoSuchInterface(_) => Some("用 `lessor-netcfg list` 看看本机有哪些网卡。".to_owned()),
            _ => None,
        }
    }

    /// The message (see [`spec_net_error_text`]).
    pub fn text(&self, p: Platform) -> (r: String)
        ensures
            r@ == spec_net_error_text(*self, p),
    {
        let mut out: Vec<char> = Vec::new();
        match self {
            NetError::Enumerate(s) => {
                push_str(&mut out, "枚举网卡失败: ");
                push_str(&mut out, s.as_str());
            },
            NetError::NoSuchInterface(s) => {
                push_str(&mut out, "找不到网卡 ");
                push_str(&mut out, s.as_str());
            },
            NetError::NeedsPrivilege { iface } => {
                push_str(&mut out, "修改网卡 ");
                push_str(&mut out, iface.as_str());
                push_str(&mut out, " 需要");
                push_str(&mut out, privilege_name(p));
                push_str(&mut out, "，当前身份不足");
            },
            NetError::Configure { iface, detail } => {
                push_str(&mut out, "配置网卡 ");
                push_str(&mut out, iface.as_str());
                push_str(&mut out, " 失败: ");
                push_str(&mut out, detail.as_str());
            },
            NetError::Unsupported => {
                push_str(&mut out, "当前平台不支持该操作");
            },
        }
        proof {
            assert(out@ =~= spec_net_error_text(*self, p));
        }
        string_from_chars(out.as_slice())
    }

    /// The exit status for the error: 77 when privilege is missing, so that
    /// a script can tell "run again as someone else" from a wrong argument;
    /// 1 otherwise.
    pub fn exit_code(&self) -> (r: u8)
        ensures
            r == if self is NeedsPrivilege {
                77u8
            } else {
                1u8
            },
    {
        if self.is_privilege() {
            77
        } else {
            1
        }
    }
}

/// The texts by which configuration tools say "not privileged enough". The
/// tools do not tell errors apart by exit status, only by text, and on
/// Windows the text is localised, so the Chinese wording counts as well.
pub open spec fn permission_needles() -> Seq<Seq<char>> {
    seq![
        "requires elevation"@,
        "Access is denied"@,
        "需要提升"@,
        "拒绝访问"@,
        "以管理员"@,
        "Operation not permitted"@,
        "Permission denied"@,
        "must be root"@,
        "not permitted"@,
    ]
}

/// Whether one of `needles` occurs in `text`.
pub open spec fn has_any(text: Seq<char>, needles: Seq<Seq<char>>) -> bool {
    exists|i: int| 0 <= i < needles.len() && has_substr(text, #[trigger] needles[i])
}

/// Whether one of the needles occurs in `text`: see [`has_any`].
pub fn contains_any(text: &str, needles: &[&str]) -> (r: bool)
    ensures
        r == has_any(text@, needles@.map_values(|n: &str| n@)),
{
    let t = chars_of(text);
    let ghost ns = needles@.map_values(|n: &str| n@);
    let mut i: usize = 0;
    while i < needles.len()
        invariant
            0 <= i <= needles@.len(),
            t@ == text@,
            ns == needles@.map_values(|n: &str| n@),
            forall|k: int| 0 <= k < i ==> !has_substr(text@, #[trigger] ns[k]),
        decreases needles@.len() - i,
    {
        let n = chars_of(needles[i]);
        if contains_chars(t.as_slice(), n.as_slice()) {
            proof {
                assert(has_substr(text@, ns[i as int]));
            }
            return true;
        }
        i = i + 1;
    }
    false
}

/// Whether a tool's output says privilege is missing.
pub fn looks_like_permission_error(text: &str) -> (r: bool)
    ensures
        r == has_any(text@, permission_needles()),
{
    let needles: [&str; 9] = [
        "requires elevation",
        "Access is denied",
        "需要提升",
        "拒绝访问",
        "以管理员",
        "Operation not permitted",
        "Permission denied",
        "must be root",
        "not permitted",
    ];
    let r = contains_any(text, &needles);
    proof {
        assert(needles@.map_values(|n: &str| n@) =~= permission_needles());
    }
    r
}

/// What `String::from_utf8_lossy` makes of `bytes`.
pub open spec fn lossy(bytes: Seq<u8>) -> Seq<char> {
    crate::text::utf8_lossy(bytes)
}

/// The text of a failed command: its error output, or its normal output
/// when the error output is blank (some tools, `netsh` among them, write
/// their errors there), trimmed.
pub open spec fn spec_failure_text(stderr: Seq<u8>, stdout: Seq<u8>) -> Seq<char> {
    if spec_trim(lossy(stderr)).len() == 0 {
        spec_trim(lossy(stdout))
    } else {
        spec_trim(lossy(stderr))
    }
}

/// The text of a failed command (see [`spec_failure_text`]).
pub fn failure_text(stderr: &[u8], stdout: &[u8]) -> (r: Vec<char>)
    ensures
        r@ == spec_failure_text(stderr@, stdout@),
{
    let e = crate::text::text_from_bytes_lossy(stderr);
    let et = trim(chars_of(e.as_str()).as_slice());
    if et.len() == 0 {
        let o = crate::text::text_from_bytes_lossy(stdout);
        trim(chars_of(o.as_str()).as_slice())
    } else {
        et
    }
}

/// The error for a command that failed on `iface`: privilege missing when
/// its output says so, else the output itself, for without it a failure
/// can hardly be traced.
pub open spec fn spec_failure_error(iface: Seq<char>, stderr: Seq<u8>, stdout: Seq<u8>) -> (bool, Seq<
    char,
>) {
    let t = spec_failure_text(stderr, stdout);
    (has_any(t, permission_needles()), t)
}

/// The error for a command that failed on `iface` (see
/// [`spec_failure_error`]).
pub fn failure_error(iface: &str, stderr: &[u8], stdout: &[u8]) -> (r: NetError)
    ensures
        match r {
            NetError::NeedsPrivilege { iface: i } => i@ == iface@ && spec_failure_error(
                iface@,
                stderr@,
                stdout@,
            ).0,
            NetError::Configure { iface: i, detail } => i@ == iface@ && !spec_failure_error(
                iface@,
                stderr@,
                stdout@,
            ).0 && detail@ == spec_failure_error(iface@, stderr@, stdout@).1,
            _ => false,
        },
{
    let t = failure_text(stderr, stdout);
    let s = string_from_chars(t.as_slice());
    if looks_like_permission_error(s.as_str()) {
        NetError::NeedsPrivilege { iface: iface.to_owned() }
    } else {
        NetError::Configure { iface: iface.to_owned(), detail: s }
    }
}

/// An IPv4 address on an interface.
#[derive(Clone, Copy, PartialEq, Eq, Debug, Structural)]
pub struct Ipv4Cidr {
    pub addr: u32,
    pub prefix: u8,
}

impl Ipv4Cidr {
    /// The network address.
    pub fn network(&self) -> (r: u32)
        ensures
            r == self.addr & spec_netmask(self.prefix),
    {
        self.addr & netmask_of(self.prefix)
    }

    /// `192.168.88.37/24`.
    pub fn to_text(&self) -> (r: String)
        ensures
            r@ == spec_ipv4_text(self.addr) + seq!['/'] + spec_dec(self.prefix as nat),
    {
        let mut out: Vec<char> = Vec::new();
        push_ipv4(&mut out, self.addr);
        out.push('/');
        push_dec(&mut out, self.prefix as u64);
        proof {
            assert(out@ =~= spec_ipv4_text(self.addr) + seq!['/'] + spec_dec(self.prefix as nat));
        }
        string_from_chars(out.as_slice())
    }
}

/// An interface.
#[derive(Debug)]
pub struct Interface {
    /// The system's name: `ens33` on Linux, possibly a Chinese "以太网" on
    /// Windows.
    pub name: String,
    pub index: Option<u32>,
    pub mac: Option<MacAddr>,
    pub ipv4: Vec<Ipv4Cidr>,
    pub is_loopback: bool,
    /// Having an IPv4 address counts as usable: link state cannot be read
    /// reliably across platforms, and what matters here is whether
    /// addresses can be handed out on it.
    pub has_address: bool,
}

impl Interface {
    /// Whether a DHCP service can run on it.
    pub fn is_servable(&self) -> (r: bool)
        ensures
            r == (!self.is_loopback && self.has_address),
    {
        !self.is_loopback && self.has_address
    }

    /// The address to use as the server identifier on it: the first.
    pub fn primary_ipv4(&self) -> (r: Option<Ipv4Cidr>)
        ensures
            r == if self.ipv4@.len() > 0 {
                Some(self.ipv4@[0])
            } else {
                None
            },
    {
        if self.ipv4.len() > 0 {
            Some(self.ipv4[0])
        } else {
            None
        }
    }
}

/// The number of set bits.
pub open spec fn count_ones(n: u32) -> nat
    decreases n,
{
    if n == 0 {
        0
    } else {
        (n % 2) as nat + count_ones(n / 2)
    }
}

pub open spec fn pow2(k: nat) -> nat
    decreases k,
{
    if k == 0 {
        1
    } else {
        2 * pow2((k - 1) as nat)
    }
}

proof fn lemma_count_ones_le(n: u32, k: nat)
    requires
        n < pow2(k),
    ensures
        count_ones(n) <= k,
    decreases k,
{
    if k > 0 && n > 0 {
        lemma_count_ones_le(n / 2, (k - 1) as nat);
    }
}

/// The prefix length of a netmask: its number of set bits.
pub fn netmask_to_prefix(mask: u32) -> (r: u8)
    ensures
        r == count_ones(mask),
{
    proof {
        reveal_with_fuel(pow2, 33);
        assert(pow2(32) == 4294967296);
        lemma_count_ones_le(mask, 32);
    }
    let mut n = mask;
    let mut c: u8 = 0;
    while n > 0
        invariant
            c + count_ones(n) == count_ones(mask),
            count_ones(mask) <= 32,
        decreases n,
    {
        c = c + (n % 2) as u8;
        n = n / 2;
    }
    c
}

/// The order of `String`s: lexicographic by character (UTF-8 keeps the
/// order of code points, so this is std's byte order too).
pub open spec fn lex_lt(a: Seq<char>, b: Seq<char>) -> bool
    decreases a.len(),
{
    if b.len() == 0 {
        false
    } else if a.len() == 0 {
        true
    } else if a[0] < b[0] {
        true
    } else if a[0] == b[0] {
        lex_lt(a.drop_first(), b.drop_first())
    } else {
        false
    }
}

pub proof fn lemma_lex_asym(a: Seq<char>, b: Seq<char>)
    ensures
        lex_lt(a, b) ==> !lex_lt(b, a),
    decreases a.len(),
{
    if a.len() > 0 && b.len() > 0 && a[0] == b[0] {
        lemma_lex_asym(a.drop_first(), b.drop_first());
    }
}

pub proof fn lemma_lex_trans(a: Seq<char>, b: Seq<char>, c: Seq<char>)
    ensures
        lex_lt(a, b) && lex_lt(b, c) ==> lex_lt(a, c),
    decreases a.len(),
{
    if a.len() > 0 && b.len() > 0 && c.len() > 0 && a[0] == b[0] && b[0] == c[0] {
        lemma_lex_trans(a.drop_first(), b.drop_first(), c.drop_first());
    }
}

pub proof fn lemma_lex_total(a: Seq<char>, b: Seq<char>)
    ensures
        a == b || lex_lt(a, b) || lex_lt(b, a),
    decreases a.len(),
{
    if a.len() > 0 && b.len() > 0 && a[0] == b[0] {
        lemma_lex_total(a.drop_first(), b.drop_first());
        if a.drop_first() == b.drop_first() {
            assert(a =~= seq![a[0]] + a.drop_first());
            assert(b =~= seq![b[0]] + b.drop_first());
        }
    } else if a.len() == 0 && b.len() == 0 {
        assert(a =~= b);
    }
}

/// Whether `a` comes before `b` (see [`lex_lt`]).
pub fn text_lt(a: &[char], b: &[char]) -> (r: bool)
    ensures
        r == lex_lt(a@, b@),
{
    let mut i: usize = 0;
    proof {
        assert(a@.skip(0) =~= a@);
        assert(b@.skip(0) =~= b@);
    }
    while i < a.len() && i < b.len() && a[i] == b[i]
        invariant
            0 <= i <= a@.len(),
            i <= b@.len(),
            lex_lt(a@, b@) == lex_lt(a@.skip(i as int), b@.skip(i as int)),
        decreases a@.len() - i,
    {
        proof {
            assert(a@.skip(i as int).drop_first() =~= a@.skip(i + 1));
            assert(b@.skip(i as int).drop_first() =~= b@.skip(i + 1));
        }
        i = i + 1;
    }
    proof {
        if i < a@.len() && i < b@.len() {
            assert(a@.skip(i as int)[0] == a@[i as int]);
            assert(b@.skip(i as int)[0] == b@[i as int]);
        }
    }
    if i == b.len() {
        false
    } else if i == a.len() {
        true
    } else {
        a[i] < b[i]
    }
}

/// One record of the operating system's interface list: an interface
/// name, its index, its hardware address as text, and IPv4 addresses with
/// their netmasks. An interface may come in several records (one per
/// address, on some systems).
#[derive(Debug)]
pub struct RawInterface {
    pub name: String,
    pub index: u32,
    pub mac: Option<String>,
    pub v4: Vec<(u32, Option<u32>)>,
}

/// The value of an [`Interface`].
pub struct InterfaceModel {
    pub name: Seq<char>,
    pub index: Option<u32>,
    pub mac: Option<MacAddr>,
    pub ipv4: Seq<Ipv4Cidr>,
    pub is_loopback: bool,
    pub has_address: bool,
}

pub open spec fn model_of(i: Interface) -> InterfaceModel {
    InterfaceModel {
        name: i.name@,
        index: i.index,
        mac: i.mac,
        ipv4: i.ipv4@,
        is_loopback: i.is_loopback,
        has_address: i.has_address,
    }
}

pub open spec fn models(v: Seq<Interface>) -> Seq<InterfaceModel> {
    v.map_values(|i: Interface| model_of(i))
}

/// The hardware address a record gives, when its text parses.
pub open spec fn spec_mac_of(m: Option<String>) -> Option<MacAddr> {
    match m {
        Some(t) => match spec_parse_mac(t@) {
            Some(b) => Some(MacAddr(crate::addr::spec_mac_array(b))),
            None => None,
        },
        None => None,
    }
}

/// An address with its netmask; without a netmask, a host address (/32).
pub open spec fn cidr_of(ip: u32, netmask: Option<u32>) -> Ipv4Cidr {
    Ipv4Cidr {
        addr: ip,
        prefix: match netmask {
            Some(m) => count_ones(m) as u8,
            None => 32,
        },
    }
}

/// Whether `ip` is in 127.0.0.0/8.
pub open spec fn is_loopback_ip(ip: u32) -> bool {
    ip / 16777216 == 127
}

/// An interface's addresses after taking in `addrs`: each new one appended
/// (an address is listed once), and the interface marked loopback if one
/// is a loopback address.
pub open spec fn absorb_addrs(m: InterfaceModel, addrs: Seq<(u32, Option<u32>)>) -> InterfaceModel
    decreases addrs.len(),
{
    if addrs.len() == 0 {
        m
    } else {
        let p = absorb_addrs(m, addrs.drop_last());
        let c = cidr_of(addrs.last().0, addrs.last().1);
        InterfaceModel {
            is_loopback: p.is_loopback || is_loopback_ip(addrs.last().0),
            ipv4: if p.ipv4.contains(c) {
                p.ipv4
            } else {
                p.ipv4.push(c)
            },
            ..p
        }
    }
}

/// The first position in `list` whose name is `name`.
pub open spec fn name_index(list: Seq<InterfaceModel>, name: Seq<char>) -> Option<int> {
    if exists|i: int| 0 <= i < list.len() && #[trigger] list[i].name == name {
        Some(
            choose|i: int|
                0 <= i < list.len() && list[i].name == name && forall|j: int|
                    0 <= j < i ==> #[trigger] list[j].name != name,
        )
    } else {
        None
    }
}

proof fn lemma_name_index(list: Seq<InterfaceModel>, name: Seq<char>, p: int)
    requires
        0 <= p <= list.len(),
        forall|q: int| 0 <= q < p ==> #[trigger] list[q].name != name,
        p == list.len() || list[p].name == name,
    ensures
        name_index(list, name) == if p < list.len() {
            Some(p)
        } else {
            None::<int>
        },
{
    if p < list.len() {
        let c = choose|i: int|
            0 <= i < list.len() && list[i].name == name && forall|j: int|
                0 <= j < i ==> #[trigger] list[j].name != name;
        assert(0 <= p < list.len() && list[p].name == name && forall|j: int|
            0 <= j < p ==> #[trigger] list[j].name != name);
        if c < p {
            assert(list[c].name != name);
        }
        if p < c {
            assert(list[p].name != name);
        }
    }
}

/// Where a new name goes in a list ordered by name: before the first entry
/// that does not come before it.
pub open spec fn sorted_position(list: Seq<InterfaceModel>, name: Seq<char>) -> int {
    if exists|i: int| 0 <= i < list.len() && !lex_lt(#[trigger] list[i].name, name) {
        choose|i: int|
            0 <= i < list.len() && !lex_lt(list[i].name, name) && forall|j: int|
                0 <= j < i ==> lex_lt(#[trigger] list[j].name, name)
    } else {
        list.len() as int
    }
}

/// An entry after a record of its interface: the hardware address if it had
/// none yet, the record's addresses, and whether it now has any.
pub open spec fn absorb_record(m: InterfaceModel, r: RawInterface) -> InterfaceModel {
    let m1 = if m.mac is None {
        InterfaceModel { mac: spec_mac_of(r.mac), ..m }
    } else {
        m
    };
    let m2 = absorb_addrs(m1, r.v4@);
    InterfaceModel { has_address: m2.ipv4.len() > 0, ..m2 }
}

/// The interface list, ordered by name, after one more record: records of
/// one interface are merged into one entry.
pub open spec fn absorb(list: Seq<InterfaceModel>, r: RawInterface) -> Seq<InterfaceModel> {
    match name_index(list, r.name@) {
        Some(i) => list.update(i, absorb_record(list[i], r)),
        None => {
            let fresh = InterfaceModel {
                name: r.name@,
                index: Some(r.index),
                mac: spec_mac_of(r.mac),
                ipv4: Seq::empty(),
                is_loopback: false,
                has_address: false,
            };
            list.insert(sorted_position(list, r.name@), absorb_record(fresh, r))
        },
    }
}

/// The interfaces the records describe, one per name, ordered by name.
pub open spec fn spec_interfaces(raws: Seq<RawInterface>) -> Seq<InterfaceModel>
    decreases raws.len(),
{
    if raws.len() == 0 {
        Seq::empty()
    } else {
        absorb(spec_interfaces(raws.drop_last()), raws.last())
    }
}

fn copy_cidrs(v: &Vec<Ipv4Cidr>) -> (r: Vec<Ipv4Cidr>)
    ensures
        r@ == v@,
{
    let mut out: Vec<Ipv4Cidr> = Vec::new();
    let mut i: usize = 0;
    while i < v.len()
        invariant
            0 <= i <= v@.len(),
            out@ == v@.take(i as int),
        decreases v@.len() - i,
    {
        out.push(v[i]);
        i = i + 1;
        proof {
            assert(out@ =~= v@.take(i as int));
        }
    }
    proof {
        assert(v@.take(v@.len() as int) =~= v@);
    }
    out
}

fn has_cidr(v: &Vec<Ipv4Cidr>, c: Ipv4Cidr) -> (r: bool)
    ensures
        r == v@.contains(c),
{
    let mut i: usize = 0;
    while i < v.len()
        invariant
            0 <= i <= v@.len(),
            forall|j: int| 0 <= j < i ==> v@[j] != c,
        decreases v@.len() - i,
    {
        if v[i] == c {
            return true;
        }
        i = i + 1;
    }
    false
}

fn mac_of(m: &Option<String>) -> (r: Option<MacAddr>)
    ensures
        r == spec_mac_of(*m),
{
    match m {
        Some(t) => match MacAddr::parse(t.as_str()) {
            Some(a) => {
                proof {
                    assert(a.0 == crate::addr::spec_mac_array(a.0@));
                }
                Some(a)
            },
            None => None,
        },
        None => None,
    }
}

/// An entry after a record of its interface (see [`absorb_record`]).
fn absorb_into(e: Interface, r: &RawInterface) -> (out: Interface)
    ensures
        model_of(out) == absorb_record(model_of(e), *r),
{
    let mut e = e;
    if e.mac.is_none() {
        e.mac = mac_of(&r.mac);
    }
    let ghost m1 = model_of(e);
    let mut k: usize = 0;
    while k < r.v4.len()
        invariant
            0 <= k <= r.v4@.len(),
            model_of(e) == absorb_addrs(m1, r.v4@.take(k as int)),
        decreases r.v4@.len() - k,
    {
        let (ip, nm) = r.v4[k];
        proof {
            assert(r.v4@.take(k + 1).drop_last() =~= r.v4@.take(k as int));
            assert(r.v4@.take(k + 1).last() == (ip, nm));
        }
        if ip / 16777216 == 127 {
            e.is_loopback = true;
        }
        let prefix: u8 = match nm {
            Some(m) => netmask_to_prefix(m),
            None => 32,
        };
        let c = Ipv4Cidr { addr: ip, prefix };
        if !has_cidr(&e.ipv4, c) {
            e.ipv4.push(c);
        }
        k = k + 1;
    }
    proof {
        assert(r.v4@.take(r.v4@.len() as int) =~= r.v4@);
    }
    e.has_address = e.ipv4.len() > 0;
    e
}

/// Merges the operating system's records into one entry per interface,
/// ordered by name (see [`spec_interfaces`]).
pub fn interfaces_from(raws: &Vec<RawInterface>) -> (r: Vec<Interface>)
    ensures
        models(r@) == spec_interfaces(raws@),
{
    let mut out: Vec<Interface> = Vec::new();
    let mut i: usize = 0;
    proof {
        assert(models(out@) =~= Seq::<InterfaceModel>::empty());
    }
    while i < raws.len()
        invariant
            0 <= i <= raws@.len(),
            models(out@) == spec_interfaces(raws@.take(i as int)),
        decreases raws@.len() - i,
    {
        let r = &raws[i];
        let ghost list = models(out@);
        proof {
            assert(raws@.take(i + 1).drop_last() =~= raws@.take(i as int));
            assert(raws@.take(i + 1).last() == *r);
        }
        let rn = chars_of(r.name.as_str());
        let mut j: usize = 0;
        while j < out.len() && !(out[j].name == r.name)
            invariant
                0 <= j <= out@.len(),
                list == models(out@),
                forall|q: int| 0 <= q < j ==> #[trigger] list[q].name != r.name@,
            decreases out@.len() - j,
        {
            j = j + 1;
        }
        proof {
            lemma_name_index(list, r.name@, j as int);
        }
        if j < out.len() {
            let e = Interface {
                name: out[j].name.clone(),
                index: out[j].index,
                mac: out[j].mac,
                ipv4: copy_cidrs(&out[j].ipv4),
                is_loopback: out[j].is_loopback,
                has_address: out[j].has_address,
            };
            let e2 = absorb_into(e, r);
            out.set(j, e2);
            proof {
                assert(models(out@) =~= list.update(j as int, absorb_record(list[j as int], *r)));
            }
        } else {
            let mut p: usize = 0;
            while p < out.len() && text_lt(chars_of(out[p].name.as_str()).as_slice(), rn.as_slice())
                invariant
                    0 <= p <= out@.len(),
                    list == models(out@),
                    rn@ == r.name@,
                    forall|q: int| 0 <= q < p ==> lex_lt(#[trigger] list[q].name, r.name@),
                decreases out@.len() - p,
            {
                p = p + 1;
            }
            proof {
                lemma_sorted_position(list, r.name@, p as int);
            }
            let fresh = Interface {
                name: r.name.clone(),
                index: Some(r.index),
                mac: mac_of(&r.mac),
                ipv4: Vec::new(),
                is_loopback: false,
                has_address: false,
            };
            proof {
                assert(model_of(fresh).ipv4 =~= Seq::<Ipv4Cidr>::empty());
            }
            let e2 = absorb_into(fresh, r);
            out.insert(p, e2);
            proof {
                assert(models(out@) =~= list.insert(p as int, model_of(e2)));
            }
        }
        i = i + 1;
    }
    proof {
        assert(raws@.take(raws@.len() as int) =~= raws@);
    }
    out
}

proof fn lemma_sorted_position(list: Seq<InterfaceModel>, name: Seq<char>, p: int)
    requires
        0 <= p <= list.len(),
        forall|q: int| 0 <= q < p ==> lex_lt(#[trigger] list[q].name, name),
        p == list.len() || !lex_lt(list[p].name, name),
    ensures
        sorted_position(list, name) == p,
{
    if p < list.len() {
        let c = choose|i: int|
            0 <= i < list.len() && !lex_lt(list[i].name, name) && forall|j: int|
                0 <= j < i ==> lex_lt(#[trigger] list[j].name, name);
        assert(0 <= p < list.len() && !lex_lt(list[p].name, name) && forall|j: int|
            0 <= j < p ==> lex_lt(#[trigger] list[j].name, name));
        if c < p {
            assert(lex_lt(list[c].name, name));
        }
        if p < c {
            assert(lex_lt(list[p].name, name));
        }
    } else {
        if exists|i: int| 0 <= i < list.len() && !lex_lt(#[trigger] list[i].name, name) {
            let w = choose|i: int| 0 <= i < list.len() && !lex_lt(#[trigger] list[i].name, name);
            assert(lex_lt(list[w].name, name));
        }
    }
}

impl Clone for Interface {
    fn clone(&self) -> (r: Self)
        ensures
            model_of(r) == model_of(*self),
    {
        Interface {
            name: self.name.clone(),
            index: self.index,
            mac: self.mac,
            ipv4: copy_cidrs(&self.ipv4),
            is_loopback: self.is_loopback,
            has_address: self.has_address,
        }
    }
}

/// The interface named `name`.
pub fn interface(ifs: &Vec<Interface>, name: &str) -> (r: Result<Interface, NetError>)
    ensures
        match r {
            Ok(i) => exists|k: int|
                0 <= k < ifs@.len() && model_of(i) == model_of(ifs@[k]) && ifs@[k].name@ == name@
                    && forall|q: int| 0 <= q < k ==> (#[trigger] ifs@[q]).name@ != name@,
            Err(e) => e == NetError::NoSuchInterface(e->NoSuchInterface_0) && e->NoSuchInterface_0@
                == name@ && forall|q: int| 0 <= q < ifs@.len() ==> (#[trigger] ifs@[q]).name@ != name@,
        },
{
    let wanted = name.to_owned();
    let mut k: usize = 0;
    while k < ifs.len()
        invariant
            0 <= k <= ifs@.len(),
            wanted@ == name@,
            forall|q: int| 0 <= q < k ==> (#[trigger] ifs@[q]).name@ != name@,
        decreases ifs@.len() - k,
    {
        if ifs[k].name == wanted {
            return Ok(ifs[k].clone());
        }
        k = k + 1;
    }
    Err(NetError::NoSuchInterface(wanted))
}

/// The first interface that holds `addr`: with only a `server_ip` in the
/// configuration, this finds the interface's name.
pub fn interface_with_address(ifs: &Vec<Interface>, addr: u32) -> (r: Option<Interface>)
    ensures
        match r {
            Some(i) => exists|k: int|
                0 <= k < ifs@.len() && model_of(i) == model_of(ifs@[k]) && (exists|c: int|
                    0 <= c < ifs@[k].ipv4@.len() && ifs@[k].ipv4@[c].addr == addr) && forall|q: int|
                    0 <= q < k ==> forall|c: int|
                        0 <= c < (#[trigger] ifs@[q]).ipv4@.len() ==> ifs@[q].ipv4@[c].addr != addr,
            None => forall|q: int|
                0 <= q < ifs@.len() ==> forall|c: int|
                    0 <= c < (#[trigger] ifs@[q]).ipv4@.len() ==> ifs@[q].ipv4@[c].addr != addr,
        },
{
    let mut k: usize = 0;
    while k < ifs.len()
        invariant
            0 <= k <= ifs@.len(),
            forall|q: int|
                0 <= q < k ==> forall|c: int|
                    0 <= c < (#[trigger] ifs@[q]).ipv4@.len() ==> ifs@[q].ipv4@[c].addr != addr,
        decreases ifs@.len() - k,
    {
        let v = &ifs[k].ipv4;
        let mut c: usize = 0;
        while c < v.len()
            invariant
                0 <= c <= v@.len(),
                0 <= k < ifs@.len(),
                *v == ifs@[k as int].ipv4,
                forall|d: int| 0 <= d < c ==> v@[d].addr != addr,
                forall|q: int|
                    0 <= q < k ==> forall|c: int|
                        0 <= c < (#[trigger] ifs@[q]).ipv4@.len() ==> ifs@[q].ipv4@[c].addr != addr,
            decreases v@.len() - c,
        {
            if v[c].addr == addr {
                return Some(ifs[k].clone());
            }
            c = c + 1;
        }
        k = k + 1;
    }
    None
}

/// How a step's failure counts.
#[derive(Clone, Copy, PartialEq, Eq, Debug, Structural)]
pub enum StepKind {
    /// Its failure is the plan's failure.
    Required,
    /// Its failure is ignored.
    BestEffort,
    /// One of several ways to the same end: its success ends the plan,
    /// its failure moves on to the next.
    Alternative,
}

/// A command to run.
#[derive(Debug)]
pub struct Step {
    pub program: String,
    pub args: Vec<String>,
    pub kind: StepKind,
}

pub struct StepView {
    pub program: Seq<char>,
    pub args: Seq<Seq<char>>,
    pub kind: StepKind,
}

impl View for Step {
    type V = StepView;

    open spec fn view(&self) -> StepView {
        StepView {
            program: self.program@,
            args: crate::config::texts(self.args@),
            kind: self.kind,
        }
    }
}

pub open spec fn steps_view(v: Seq<Step>) -> Seq<StepView> {
    v.map_values(|s: Step| s@)
}

/// What a plan comes to after a step: `Some` when it ends there (with its
/// result), `None` when it goes on. A plan that runs out ends well.
pub open spec fn spec_after_step(kind: StepKind, ok: bool) -> Option<bool> {
    match kind {
        StepKind::Required => if ok {
            None
        } else {
            Some(false)
        },
        StepKind::BestEffort => None,
        StepKind::Alternative => if ok {
            Some(true)
        } else {
            None
        },
    }
}

/// What a plan comes to after a step that gave `result`.
pub fn after_step(kind: StepKind, result: Result<(), NetError>) -> (r: Option<Result<(), NetError>>)
    ensures
        match spec_after_step(kind, result is Ok) {
            None => r is None,
            Some(true) => r == Some(Ok::<(), NetError>(())),
            Some(false) => r == Some(result),
        },
{
    match kind {
        StepKind::Required => match result {
            Ok(()) => None,
            Err(e) => Some(Err(e)),
        },
        StepKind::BestEffort => None,
        StepKind::Alternative => match result {
            Ok(()) => Some(Ok(())),
            Err(_) => None,
        },
    }
}

fn arg(s: &str) -> (r: String)
    ensures
        r@ == s@,
{
    s.to_owned()
}

fn arg_cat(a: &str, b: &[char]) -> (r: String)
    ensures
        r@ == a@ + b@,
{
    let mut out: Vec<char> = Vec::new();
    push_str(&mut out, a);
    let ghost mid = out@;
    let mut i: usize = 0;
    while i < b.len()
        invariant
            0 <= i <= b@.len(),
            out@ == mid + b@.take(i as int),
        decreases b@.len() - i,
    {
        out.push(b[i]);
        i = i + 1;
        proof {
            assert(out@ =~= mid + b@.take(i as int));
        }
    }
    proof {
        assert(b@.take(b@.len() as int) =~= b@);
    }
    string_from_chars(out.as_slice())
}

fn ipv4_string(ip: u32) -> (r: String)
    ensures
        r@ == spec_ipv4_text(ip),
{
    let mut out: Vec<char> = Vec::new();
    push_ipv4(&mut out, ip);
    string_from_chars(out.as_slice())
}

pub open spec fn step(program: Seq<char>, args: Seq<Seq<char>>, kind: StepKind) -> StepView {
    StepView { program, args, kind }
}

/// The plan that gives `iface` the static address `addr/prefix`.
///
/// * Windows: `netsh` (much faster than PowerShell and untouched by its
///   execution policy, and setting the same address twice is harmless).
/// * Linux: flush the addresses first (best effort), or the new one is
///   added beside them and the source address of DHCP replies becomes
///   uncertain; then add it and bring the link up.
/// * macOS: `ifconfig`.
/// * Elsewhere: not supported.
pub open spec fn spec_set_static(p: Platform, iface: Seq<char>, addr: u32, prefix: u8) -> Option<Seq<StepView>> {
    let mask = spec_ipv4_text(spec_netmask(prefix));
    match p {
        Platform::Windows => Some(
            seq![
                step(
                    "netsh"@,
                    seq![
                        "interface"@,
                        "ipv4"@,
                        "set"@,
                        "address"@,
                        "name="@ + iface,
                        "source=static"@,
                        "address="@ + spec_ipv4_text(addr),
                        "mask="@ + mask,
                    ],
                    StepKind::Required,
                ),
            ],
        ),
        Platform::Linux => Some(
            seq![
                step("ip"@, seq!["addr"@, "flush"@, "dev"@, iface], StepKind::BestEffort),
                step(
                    "ip"@,
                    seq!["addr"@, "add"@, spec_ipv4_text(addr) + "/"@ + spec_dec(prefix as nat), "dev"@, iface],
                    StepKind::Required,
                ),
                step("ip"@, seq!["link"@, "set"@, iface, "up"@], StepKind::Required),
            ],
        ),
        Platform::MacOs => Some(
            seq![
                step(
                    "ifconfig"@,
                    seq![iface, "inet"@, spec_ipv4_text(addr), "netmask"@, mask],
                    StepKind::Required,
                ),
            ],
        ),
        Platform::Other => None,
    }
}

/// The plan that gives `iface` back to automatic configuration.
///
/// * Windows: `netsh` back to DHCP, and the DNS servers too (best effort),
///   or the last static ones stay.
/// * Linux: flush the addresses (best effort); then who configures the
///   interface decides, so NetworkManager, systemd-networkd and dhclient
///   are tried in turn until one takes it. A rescue system may have none of
///   them, and then the flush alone is the result.
/// * macOS: `ipconfig set .. DHCP` (`networksetup` does not know addresses
///   set by `ifconfig`).
/// * Elsewhere: not supported.
pub open spec fn spec_restore_dhcp(p: Platform, iface: Seq<char>) -> Option<Seq<StepView>> {
    match p {
        Platform::Windows => Some(
            seq![
                step(
                    "netsh"@,
                    seq!["interface"@, "ipv4"@, "set"@, "address"@, "name="@ + iface, "source=dhcp"@],
                    StepKind::Required,
                ),
                step(
                    "netsh"@,
                    seq!["interface"@, "ipv4"@, "set"@, "dnsservers"@, "name="@ + iface, "source=dhcp"@],
                    StepKind::BestEffort,
                ),
            ],
        ),
        Platform::Linux => Some(
            seq![
                step("ip"@, seq!["addr"@, "flush"@, "dev"@, iface], StepKind::BestEffort),
                step("nmcli"@, seq!["device"@, "reapply"@, iface], StepKind::Alternative),
                step("networkctl"@, seq!["reconfigure"@, iface], StepKind::Alternative),
                step("dhclient"@, seq!["-1"@, iface], StepKind::Alternative),
            ],
        ),
        Platform::MacOs => Some(
            seq![step("ipconfig"@, seq!["set"@, iface, "DHCP"@], StepKind::Required)],
        ),
        Platform::Other => None,
    }
}

fn mk_step(program: &str, args: Vec<String>, kind: StepKind) -> (r: Step)
    ensures
        r@ == step(program@, crate::config::texts(args@), kind),
{
    Step { program: program.to_owned(), args, kind }
}

pub(crate) fn new_args() -> (r: Vec<String>)
    ensures
        crate::config::texts(r@) == Seq::<Seq<char>>::empty(),
{
    let r: Vec<String> = Vec::new();
    proof {
        assert(crate::config::texts(r@) =~= Seq::<Seq<char>>::empty());
    }
    r
}

fn new_steps() -> (r: Vec<Step>)
    ensures
        steps_view(r@) == Seq::<StepView>::empty(),
{
    let r: Vec<Step> = Vec::new();
    proof {
        assert(steps_view(r@) =~= Seq::<StepView>::empty());
    }
    r
}

pub(crate) fn add_str(v: &mut Vec<String>, a: &str)
    ensures
        crate::config::texts(final(v)@) == crate::config::texts(old(v)@).push(a@),
{
    add_arg(v, a.to_owned());
}

pub(crate) fn add_arg(v: &mut Vec<String>, a: String)
    ensures
        crate::config::texts(final(v)@) == crate::config::texts(old(v)@).push(a@),
{
    let ghost before = crate::config::texts(v@);
    v.push(a);
    proof {
        assert(crate::config::texts(v@) =~= before.push(a@));
    }
}

pub(crate) fn add_step(v: &mut Vec<Step>, st: Step)
    ensures
        steps_view(final(v)@) == steps_view(old(v)@).push(st@),
{
    let ghost before = steps_view(v@);
    let ghost sv = st@;
    v.push(st);
    proof {
        assert(steps_view(v@) =~= before.push(sv));
    }
}

/// The plan to set a static address (see [`spec_set_static`]).
pub fn set_static(p: Platform, iface: &str, addr: u32, prefix: u8) -> (r: Result<Vec<Step>, NetError>)
    ensures
        match r {
            Ok(v) => spec_set_static(p, iface@, addr, prefix) == Some(steps_view(v@)),
            Err(e) => spec_set_static(p, iface@, addr, prefix) is None && e == NetError::Unsupported,
        },
{
    let ic = chars_of(iface);
    let a = ipv4_string(addr);
    let mut steps: Vec<Step> = new_steps();
    match p {
        Platform::Windows => {
            let mask = ipv4_string(netmask_of(prefix));
            let mut v: Vec<String> = new_args();
            add_str(&mut v, "interface");
            add_str(&mut v, "ipv4");
            add_str(&mut v, "set");
            add_str(&mut v, "address");
            add_arg(&mut v, arg_cat("name=", ic.as_slice()));
            add_str(&mut v, "source=static");
            add_arg(&mut v, arg_cat("address=", chars_of(a.as_str()).as_slice()));
            add_arg(&mut v, arg_cat("mask=", chars_of(mask.as_str()).as_slice()));
            assert(crate::config::texts(v@) == seq!["interface"@, "ipv4"@, "set"@, "address"@, "name="@ + iface@, "source=static"@, "address="@ + spec_ipv4_text(addr), "mask="@ + spec_ipv4_text(spec_netmask(prefix))]);
            add_step(&mut steps, mk_step("netsh", v, StepKind::Required));
        },
        Platform::Linux => {
            let mut v1: Vec<String> = new_args();
            add_str(&mut v1, "addr");
            add_str(&mut v1, "flush");
            add_str(&mut v1, "dev");
            add_str(&mut v1, iface);
            assert(crate::config::texts(v1@) == seq!["addr"@, "flush"@, "dev"@, iface@]);
            add_step(&mut steps, mk_step("ip", v1, StepKind::BestEffort));
            let mut cidr: Vec<char> = chars_of(a.as_str());
            push_str(&mut cidr, "/");
            push_dec(&mut cidr, prefix as u64);
            let mut v2: Vec<String> = new_args();
            add_str(&mut v2, "addr");
            add_str(&mut v2, "add");
            add_arg(&mut v2, string_from_chars(cidr.as_slice()));
            add_str(&mut v2, "dev");
            add_str(&mut v2, iface);
            assert(crate::config::texts(v2@) == seq!["addr"@, "add"@, spec_ipv4_text(addr) + "/"@ + spec_dec(prefix as nat), "dev"@, iface@]);
            add_step(&mut steps, mk_step("ip", v2, StepKind::Required));
            let mut v3: Vec<String> = new_args();
            add_str(&mut v3, "link");
            add_str(&mut v3, "set");
            add_str(&mut v3, iface);
            add_str(&mut v3, "up");
            assert(crate::config::texts(v3@) == seq!["link"@, "set"@, iface@, "up"@]);
            add_step(&mut steps, mk_step("ip", v3, StepKind::Required));
        },
        Platform::MacOs => {
            let mask = ipv4_string(netmask_of(prefix));
            let mut v: Vec<String> = new_args();
            add_str(&mut v, iface);
            add_str(&mut v, "inet");
            add_arg(&mut v, a);
            add_str(&mut v, "netmask");
            add_arg(&mut v, mask);
            assert(crate::config::texts(v@) == seq![iface@, "inet"@, spec_ipv4_text(addr), "netmask"@, spec_ipv4_text(spec_netmask(prefix))]);
            add_step(&mut steps, mk_step("ifconfig", v, StepKind::Required));
        },
        Platform::Other => {
            return Err(NetError::Unsupported);
        },
    }
    Ok(steps)
}

/// The plan to go back to DHCP (see [`spec_restore_dhcp`]).
pub fn restore_dhcp(p: Platform, iface: &str) -> (r: Result<Vec<Step>, NetError>)
    ensures
        match r {
            Ok(v) => spec_restore_dhcp(p, iface@) == Some(steps_view(v@)),
            Err(e) => spec_restore_dhcp(p, iface@) is None && e == NetError::Unsupported,
        },
{
    let ic = chars_of(iface);
    let mut steps: Vec<Step> = new_steps();
    match p {
        Platform::Windows => {
            let mut v1: Vec<String> = new_args();
            add_str(&mut v1, "interface");
            add_str(&mut v1, "ipv4");
            add_str(&mut v1, "set");
            add_str(&mut v1, "address");
            add_arg(&mut v1, arg_cat("name=", ic.as_slice()));
            add_str(&mut v1, "source=dhcp");
            assert(crate::config::texts(v1@) == seq!["interface"@, "ipv4"@, "set"@, "address"@, "name="@ + iface@, "source=dhcp"@]);
            add_step(&mut steps, mk_step("netsh", v1, StepKind::Required));
            let mut v2: Vec<String> = new_args();
            add_str(&mut v2, "interface");
            add_str(&mut v2, "ipv4");
            add_str(&mut v2, "set");
            add_str(&mut v2, "dnsservers");
            add_arg(&mut v2, arg_cat("name=", ic.as_slice()));
            add_str(&mut v2, "source=dhcp");
            assert(crate::config::texts(v2@) == seq!["interface"@, "ipv4"@, "set"@, "dnsservers"@, "name="@ + iface@, "source=dhcp"@]);
            add_step(&mut steps, mk_step("netsh", v2, StepKind::BestEffort));
        },
        Platform::Linux => {
            let mut v1: Vec<String> = new_args();
            add_str(&mut v1, "addr");
            add_str(&mut v1, "flush");
            add_str(&mut v1, "dev");
            add_str(&mut v1, iface);
            assert(crate::config::texts(v1@) == seq!["addr"@, "flush"@, "dev"@, iface@]);
            add_step(&mut steps, mk_step("ip", v1, StepKind::BestEffort));
            assert(steps_view(steps@) == seq![step("ip"@, seq!["addr"@, "flush"@, "dev"@, iface@], StepKind::BestEffort)]);
            let mut v2: Vec<String> = new_args();
            add_str(&mut v2, "device");
            add_str(&mut v2, "reapply");
            add_str(&mut v2, iface);
            assert(crate::config::texts(v2@) == seq!["device"@, "reapply"@, iface@]);
            add_step(&mut steps, mk_step("nmcli", v2, StepKind::Alternative));
            let mut v3: Vec<String> = new_args();
            add_str(&mut v3, "reconfigure");
            add_str(&mut v3, iface);
            assert(crate::config::texts(v3@) == seq!["reconfigure"@, iface@]);
            add_step(&mut steps, mk_step("networkctl", v3, StepKind::Alternative));
            let mut v4: Vec<String> = new_args();
            add_str(&mut v4, "-1");
            add_str(&mut v4, iface);
            assert(crate::config::texts(v4@) == seq!["-1"@, iface@]);
            add_step(&mut steps, mk_step("dhclient", v4, StepKind::Alternative));
        },
        Platform::MacOs => {
            let mut v: Vec<String> = new_args();
            add_str(&mut v, "set");
            add_str(&mut v, iface);
            add_str(&mut v, "DHCP");
            assert(crate::config::texts(v@) == seq!["set"@, iface@, "DHCP"@]);
            add_step(&mut steps, mk_step("ipconfig", v, StepKind::Required));
        },
        Platform::Other => {
            return Err(NetError::Unsupported);
        },
    }
    Ok(steps)
}

} // verus!
