//! What the management interface decides: who may write, and how the
//! interface's requests turn into scopes, changes, reservations and scans.
//! HTTP itself is the caller's part.

use vstd::prelude::*;

use crate::addr::{ClientId, ClientKey, MacAddr, Range, spec_mac_array, spec_parse_mac};
use crate::capture::{from_hex, spec_from_hex};
use crate::discovery::Options;
use crate::net::Ipv4Cidr;
use crate::parse::{spec_find, find_char};
use crate::scope::{netmask_of, spec_netmask, Scope, ScopeId, ScopeValue};
use crate::text::{chars_of, string_from_chars};

verus! {

/// Whether a write may go ahead: always when no token is configured (the
/// interface then listens on this host only), otherwise only with the same
/// token presented.
pub open spec fn spec_authorize(token: Option<Seq<u8>>, presented: Option<Seq<u8>>) -> bool {
    match token {
        None => true,
        Some(t) => presented == Some(t),
    }
}

/// Whether a write may go ahead (see [`spec_authorize`]). Tokens of equal
/// length are compared in full, without stopping at the first difference,
/// so that the time taken says nothing of where they differ.
pub fn authorize(token: Option<&str>, presented: Option<&str>) -> (r: bool)
    ensures
        r == spec_authorize(
            match token {
                Some(t) => Some(vstd::utf8::encode_utf8(t@)),
                None => None,
            },
            match presented {
                Some(p) => Some(vstd::utf8::encode_utf8(p@)),
                None => None,
            },
        ),
{
    let t = match token {
        None => return true,
        Some(t) => t.as_bytes(),
    };
    let p = match presented {
        None => return false,
        Some(p) => p.as_bytes(),
    };
    if p.len() != t.len() {
        proof {
            assert(p@ != t@);
        }
        return false;
    }
    let mut acc: u8 = 0;
    let mut i: usize = 0;
    while i < p.len()
        invariant
            0 <= i <= p@.len(),
            p@.len() == t@.len(),
            (acc == 0) == (forall|j: int| 0 <= j < i ==> p@[j] == t@[j]),
        decreases p@.len() - i,
    {
        let a = p[i];
        let b = t[i];
        let next = acc | (a ^ b);
        assert((next == 0) == (acc == 0 && a == b)) by (bit_vector)
            requires
                next == acc | (a ^ b),
        ;
        acc = next;
        i = i + 1;
    }
    proof {
        if acc == 0 {
            assert(p@ =~= t@);
        }
    }
    acc == 0
}

/// The host name in a `Host` header: the part before the last `:` (the
/// port), with IPv6 brackets taken off.
pub open spec fn spec_host_name(host: Seq<char>) -> Seq<char> {
    let h = match spec_last(host, ':') {
        Some(i) => host.take(i),
        None => host,
    };
    strip_end(strip_start(h, '['), ']')
}

/// The last position of `c` in `cs`.
pub open spec fn spec_last(cs: Seq<char>, c: char) -> Option<int> {
    if exists|i: int| 0 <= i < cs.len() && cs[i] == c {
        Some(choose|i: int| 0 <= i < cs.len() && cs[i] == c && forall|j: int| i < j < cs.len() ==> #[trigger] cs[j] != c)
    } else {
        None
    }
}

/// `cs` without leading `c`s.
pub open spec fn strip_start(cs: Seq<char>, c: char) -> Seq<char>
    decreases cs.len(),
{
    if cs.len() > 0 && cs[0] == c {
        strip_start(cs.drop_first(), c)
    } else {
        cs
    }
}

/// `cs` without trailing `c`s.
pub open spec fn strip_end(cs: Seq<char>, c: char) -> Seq<char>
    decreases cs.len(),
{
    if cs.len() > 0 && cs.last() == c {
        strip_end(cs.drop_last(), c)
    } else {
        cs
    }
}

/// The host name a `Host` header names (see [`spec_host_name`]). A write
/// is refused unless it is empty or an IP literal: a browser lured into
/// resolving a hostile name to 127.0.0.1 would otherwise reach the
/// interface, and the interface never needs a name.
pub fn host_name(host: &str) -> (r: String)
    ensures
        r@ == spec_host_name(host@),
{
    let cs = chars_of(host);
    let mut end: usize = cs.len();
    let mut i: usize = cs.len();
    while i > 0 && cs[i - 1] != ':'
        invariant
            0 <= i <= cs@.len(),
            cs@ == host@,
            forall|j: int| i <= j < cs@.len() ==> #[trigger] cs@[j] != ':',
        decreases i,
    {
        i = i - 1;
    }
    if i > 0 {
        end = i - 1;
        proof {
            let l = choose|x: int| 0 <= x < cs@.len() && cs@[x] == ':' && forall|j: int| x < j < cs@.len() ==> #[trigger] cs@[j] != ':';
            assert(cs@[i - 1] == ':');
            assert(l == i - 1) by {
                if l < i - 1 {
                    assert(cs@[i - 1] != ':');
                }
                if l > i - 1 {
                    assert(cs@[l] != ':');
                }
            }
        }
    } else {
        proof {
            assert(!exists|x: int| 0 <= x < cs@.len() && cs@[x] == ':');
        }
    }
    let h = crate::parse::copy_range(cs.as_slice(), 0, end);
    proof {
        assert(h@ =~= match spec_last(host@, ':') {
            Some(x) => host@.take(x),
            None => host@,
        });
    }
    proof {
        assert(h@.skip(0) =~= h@);
    }
    let mut a: usize = 0;
    while a < h.len() && h[a] == '['
        invariant
            0 <= a <= h@.len(),
            strip_start(h@, '[') == strip_start(h@.skip(a as int), '['),
        decreases h@.len() - a,
    {
        proof {
            assert(h@.skip(a as int).drop_first() =~= h@.skip(a + 1));
        }
        a = a + 1;
    }
    let mut b: usize = h.len();
    proof {
        assert(strip_start(h@, '[') == h@.skip(a as int)) by {
            if a < h@.len() {
                assert(h@.skip(a as int)[0] != '[');
            }
        }
        assert(h@.skip(a as int).take(h@.len() - a) =~= h@.skip(a as int));
    }
    while b > a && h[b - 1] == ']'
        invariant
            a <= b <= h@.len(),
            strip_end(h@.skip(a as int), ']') == strip_end(h@.subrange(a as int, b as int), ']'),
        decreases b,
    {
        proof {
            assert(h@.subrange(a as int, b as int).drop_last() =~= h@.subrange(a as int, b - 1));
        }
        b = b - 1;
    }
    proof {
        assert(h@.subrange(a as int, h@.len() as int) =~= h@.skip(a as int));
    }
    let out = crate::parse::copy_range(h.as_slice(), a, b);
    string_from_chars(out.as_slice())
}

/// A scope as the interface asks for it: the network follows from this
/// host's address and the prefix, so that the scope and its listener always
/// agree. The prefix must be 1 to 32, the pool in order; an unnamed scope
/// is called "新建"; a lease time also caps the offer time at 30 seconds.
pub open spec fn spec_new_scope(name: Option<Seq<char>>, server_ip: u32, prefix: u8, pool: (u32, u32), router: Option<u32>, dns: Seq<u32>, lease_secs: Option<u32>) -> Result<ScopeValue, Seq<char>> {
    if prefix == 0 || prefix > 32 {
        Err("前缀长度要在 1-32 之间"@)
    } else if pool.0 > pool.1 {
        Err("地址池起止顺序不对"@)
    } else {
        Ok(ScopeValue {
            id: ScopeId(0),
            name: match name { Some(n) => n, None => "新建"@ },
            enabled: true,
            subnet: server_ip & spec_netmask(prefix),
            prefix,
            pools: seq![Range { start: pool.0, end: pool.1 }],
            exclusions: Seq::empty(),
            reservations: Seq::empty(),
            router,
            dns,
            domain: None,
            lease_secs: match lease_secs { Some(t) => t, None => 3600 },
            offer_secs: match lease_secs { Some(t) => if t < 30 { t } else { 30 }, None => 30 },
            decline_quarantine_secs: 3600,
            boot: None,
            extra_options: Seq::empty(),
            via_relay: false,
        })
    }
}

pub fn new_scope(
    name: Option<String>,
    server_ip: u32,
    prefix: u8,
    pool_start: u32,
    pool_end: u32,
    router: Option<u32>,
    dns: Vec<u32>,
    lease_secs: Option<u32>,
) -> (r: Result<Scope, &'static str>)
    ensures
        match r {
            Ok(s) => spec_new_scope(crate::lease::opt_text(name), server_ip, prefix, (pool_start, pool_end), router, dns@, lease_secs) == Ok::<ScopeValue, Seq<char>>(s@),
            Err(e) => spec_new_scope(crate::lease::opt_text(name), server_ip, prefix, (pool_start, pool_end), router, dns@, lease_secs) == Err::<ScopeValue, Seq<char>>(e@),
        },
{
    if prefix == 0 || prefix > 32 {
        return Err("前缀长度要在 1-32 之间");
    }
    let pool = match Range::new(pool_start, pool_end) {
        Some(r) => r,
        None => return Err("地址池起止顺序不对"),
    };
    let subnet = server_ip & netmask_of(prefix);
    let mut s = match &name {
        Some(n) => Scope::new(0, n.as_str(), subnet, prefix),
        None => Scope::new(0, "新建", subnet, prefix),
    };
    let mut pools: Vec<Range> = Vec::new();
    pools.push(pool);
    s.pools = pools;
    s.router = router;
    s.dns = dns;
    match lease_secs {
        Some(secs) => {
            s.lease_secs = secs;
            s.offer_secs = if secs < 30 { secs } else { 30 };
        },
        None => {},
    }
    proof {
        assert(s.pools@ =~= seq![Range { start: pool_start, end: pool_end }]);
        assert(crate::scope::reservation_values(s.reservations@) =~= Seq::<crate::scope::ReservationValue>::empty());
        assert(crate::scope::option_values(s.extra_options@) =~= Seq::<(u8, Seq<u8>)>::empty());
        assert(s.exclusions@ =~= Seq::<Range>::empty());
        assert(s@ =~= spec_new_scope(crate::lease::opt_text(name), server_ip, prefix, (pool_start, pool_end), router, dns@, lease_secs)->Ok_0);
    }
    Ok(s)
}

/// A pool in a change must come with both ends or neither.
pub fn patch_pool(start: Option<u32>, end: Option<u32>) -> (r: Result<Option<(u32, u32)>, &'static str>)
    ensures
        match (start, end) {
            (Some(a), Some(b)) => r == Ok::<Option<(u32, u32)>, &'static str>(Some((a, b))),
            (None, None) => r == Ok::<Option<(u32, u32)>, &'static str>(None),
            _ => r matches Err(e) && e@ == "地址池要同时给起止两端"@,
        },
{
    match (start, end) {
        (Some(a), Some(b)) => Ok(Some((a, b))),
        (None, None) => Ok(None),
        _ => Err("地址池要同时给起止两端"),
    }
}

/// `cs` starts with `p`.
pub open spec fn has_prefix(cs: Seq<char>, p: Seq<char>) -> bool {
    p.len() <= cs.len() && cs.take(p.len() as int) == p
}

/// A client identity as the interface writes it: `opt61:` and the option's
/// bytes in hexadecimal (for clients that send a DUID), or a MAC (the usual
/// case). `None` for anything else, and for an empty option 61.
pub open spec fn spec_parse_client(s: Seq<char>) -> Option<ClientKey> {
    if has_prefix(s, "opt61:"@) {
        match spec_from_hex(s.skip(6)) {
            Some(b) => if b.len() > 0 { Some(ClientKey::Opt61(b)) } else { None },
            None => None,
        }
    } else {
        match spec_parse_mac(s) {
            Some(m) => Some(ClientKey::Mac(MacAddr(spec_mac_array(m)))),
            None => None,
        }
    }
}

fn starts_with_opt61(cs: &Vec<char>) -> (r: bool)
    ensures
        r == has_prefix(cs@, "opt61:"@),
{
    proof {
        reveal_strlit("opt61:");
    }
    let r = cs.len() >= 6 && cs[0] == 'o' && cs[1] == 'p' && cs[2] == 't' && cs[3] == '6' && cs[4] == '1' && cs[5] == ':';
    proof {
        if cs@.len() >= 6 {
            if r {
                assert(cs@.take(6) =~= "opt61:"@);
            } else {
                assert(cs@.take(6) != "opt61:"@) by {
                    if cs@.take(6) == "opt61:"@ {
                        assert(cs@.take(6)[0] == 'o' && cs@.take(6)[1] == 'p' && cs@.take(6)[2] == 't');
                        assert(cs@.take(6)[3] == '6' && cs@.take(6)[4] == '1' && cs@.take(6)[5] == ':');
                    }
                }
            }
        }
    }
    r
}

/// Reads a client identity from the interface (see [`spec_parse_client`]).
pub fn parse_client(s: &str) -> (r: Option<ClientId>)
    ensures
        match r {
            Some(c) => spec_parse_client(s@) == Some(c@),
            None => spec_parse_client(s@) is None,
        },
{
    let cs = chars_of(s);
    proof {
        reveal_strlit("opt61:");
    }
    if starts_with_opt61(&cs) {
        let rest = crate::parse::copy_range(cs.as_slice(), 6, cs.len());
        let text = string_from_chars(rest.as_slice());
        proof {
            assert(rest@ =~= s@.skip(6));
        }
        return match from_hex(text.as_str()) {
            Some(b) => if b.len() > 0 {
                Some(ClientId::Opt61(b))
            } else {
                None
            },
            None => None,
        };
    }
    match MacAddr::parse_chars(cs.as_slice()) {
        Some(m) => {
            proof {
                assert(m.0@ =~= spec_mac_array(m.0@)@);
                assert(m.0 == spec_mac_array(m.0@));
            }
            Some(ClientId::Mac(m))
        },
        None => None,
    }
}

/// Default for a scan's `sweep` field: on.
pub fn yes() -> (r: bool)
    ensures
        r,
{
    true
}

/// Default for a scan's `waitMs` field: one and a half seconds.
pub fn default_wait_ms() -> (r: u64)
    ensures
        r == 1500,
{
    1500
}

/// A scan as the interface asks for it: the prefix must be 0 to 32, and the
/// wait is held between 200 ms and 10 s, so that a huge value cannot hang
/// the request.
pub fn discover_options(addr: u32, prefix: u8, sweep: bool, wait_ms: u64) -> (r: Result<Options, &'static str>)
    ensures
        match r {
            Ok(o) => prefix <= 32 && o == (Options {
                on: Ipv4Cidr { addr, prefix },
                wait_ms: if wait_ms < 200 { 200 } else if wait_ms > 10000 { 10000 } else { wait_ms },
                sweep,
                sweep_limit: 1024,
            }),
            Err(e) => prefix > 32 && e@ == "前缀长度必须在 0-32 之间"@,
        },
{
    if prefix > 32 {
        return Err("前缀长度必须在 0-32 之间");
    }
    let mut o = Options::new(Ipv4Cidr { addr, prefix });
    o.sweep = sweep;
    o.wait_ms = if wait_ms < 200 { 200 } else if wait_ms > 10000 { 10000 } else { wait_ms };
    Ok(o)
}

} // verus!
