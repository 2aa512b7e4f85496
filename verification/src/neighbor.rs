//! Reading the system's neighbour table (ARP).
//!
//! A device with a static address never asks for one, but once it has
//! spoken on the network the operating system records it in its neighbour
//! table. Reading that needs neither a capture driver nor privilege.
//!
//! The reading depends on no language: no header and no column name is
//! recognised; each line is searched for something shaped like an IPv4
//! address and something shaped like a MAC. Windows' `arp -a` prints
//! localised text, and splitting it into columns would fail on a Chinese
//! system.

use vstd::prelude::*;

use crate::addr::{MacAddr, spec_mac_array, spec_parse_mac};
use crate::parse::{char_seqs, is_whitespace, is_ws, parse_ipv4, spec_parse_ipv4, spec_split, split_chars};
use crate::text::{chars_of, is_hex_digit, hex_value};

verus! {

/// A neighbour: an address and the hardware address behind it.
#[derive(Clone, Copy, Debug, PartialEq, Eq)]
pub struct Neighbor {
    pub ip: u32,
    pub mac: MacAddr,
}

/// The whitespace-separated words of `cs` from position `i` on, `cur` being
/// the word under way (std's `split_whitespace`).
pub open spec fn words_from(cs: Seq<char>, i: int, cur: Seq<char>) -> Seq<Seq<char>>
    decreases cs.len() - i,
{
    if i < 0 || i >= cs.len() {
        if cur.len() > 0 { seq![cur] } else { Seq::empty() }
    } else if is_ws(cs[i]) {
        (if cur.len() > 0 { seq![cur] } else { Seq::empty() }) + words_from(cs, i + 1, Seq::empty())
    } else {
        words_from(cs, i + 1, cur.push(cs[i]))
    }
}

/// The whitespace-separated words of `cs`.
pub open spec fn words(cs: Seq<char>) -> Seq<Seq<char>> {
    words_from(cs, 0, Seq::empty())
}

fn split_words(cs: &[char]) -> (r: Vec<Vec<char>>)
    ensures
        char_seqs(r@) == words(cs@),
{
    let mut out: Vec<Vec<char>> = Vec::new();
    let mut cur: Vec<char> = Vec::new();
    let mut i: usize = 0;
    while i < cs.len()
        invariant
            0 <= i <= cs@.len(),
            words(cs@) == char_seqs(out@) + words_from(cs@, i as int, cur@),
        decreases cs@.len() - i,
    {
        let c = cs[i];
        if is_whitespace(c) {
            if cur.len() > 0 {
                let ghost before = char_seqs(out@);
                let w = cur;
                out.push(w);
                cur = Vec::new();
                proof {
                    assert(char_seqs(out@) =~= before.push(w@));
                    assert(before + (seq![w@] + words_from(cs@, i + 1, Seq::empty())) =~= before.push(
                        w@,
                    ) + words_from(cs@, i + 1, Seq::empty()));
                    assert(cur@ =~= Seq::<char>::empty());
                }
            } else {
                proof {
                    assert(Seq::<Seq<char>>::empty() + words_from(cs@, i + 1, Seq::empty())
                        =~= words_from(cs@, i + 1, Seq::empty()));
                    assert(cur@ =~= Seq::<char>::empty());
                }
            }
        } else {
            cur.push(c);
        }
        i = i + 1;
    }
    if cur.len() > 0 {
        let ghost before = char_seqs(out@);
        out.push(cur);
        proof {
            assert(char_seqs(out@) =~= before.push(cur@));
        }
    } else {
        proof {
            assert(char_seqs(out@) + Seq::<Seq<char>>::empty() =~= char_seqs(out@));
        }
    }
    out
}

/// The characters `arp`'s output wraps addresses in: `(`, `)`, `,`.
pub open spec fn is_wrapping(c: char) -> bool {
    c == '(' || c == ')' || c == ','
}

/// `cs` without wrapping characters at either end (std's `trim_matches`).
pub open spec fn strip_wrapping(cs: Seq<char>) -> Seq<char> {
    cs.subrange(lead(cs), tail_end(cs))
}

/// Where the leading run of wrapping characters ends.
pub open spec fn lead(cs: Seq<char>) -> int {
    if forall|i: int| 0 <= i < cs.len() ==> is_wrapping(#[trigger] cs[i]) {
        cs.len() as int
    } else {
        choose|i: int| 0 <= i < cs.len() && !is_wrapping(cs[i]) && forall|j: int| 0 <= j < i ==> is_wrapping(#[trigger] cs[j])
    }
}

/// Where the text ends once the trailing run of wrapping characters is cut
/// (never before [`lead`]).
pub open spec fn tail_end(cs: Seq<char>) -> int {
    if forall|i: int| 0 <= i < cs.len() ==> is_wrapping(#[trigger] cs[i]) {
        cs.len() as int
    } else {
        (choose|i: int| 0 <= i < cs.len() && !is_wrapping(cs[i]) && forall|j: int| i < j < cs.len() ==> is_wrapping(#[trigger] cs[j])) + 1
    }
}

fn strip(cs: &[char]) -> (r: Vec<char>)
    ensures
        r@ == strip_wrapping(cs@),
{
    let mut a: usize = 0;
    while a < cs.len() && (cs[a] == '(' || cs[a] == ')' || cs[a] == ',')
        invariant
            0 <= a <= cs@.len(),
            forall|j: int| 0 <= j < a ==> is_wrapping(#[trigger] cs@[j]),
        decreases cs@.len() - a,
    {
        a = a + 1;
    }
    if a == cs.len() {
        return Vec::new();
    }
    proof {
        assert(!is_wrapping(cs@[a as int]));
        let l = choose|i: int| 0 <= i < cs@.len() && !is_wrapping(cs@[i]) && forall|j: int| 0 <= j < i ==> is_wrapping(#[trigger] cs@[j]);
        assert(l == a) by {
            if l < a {
                assert(is_wrapping(cs@[l]));
            }
            if l > a {
                assert(is_wrapping(cs@[a as int]));
            }
        }
        assert(lead(cs@) == a);
    }
    let mut b: usize = cs.len();
    while b > a && (cs[b - 1] == '(' || cs[b - 1] == ')' || cs[b - 1] == ',')
        invariant
            a < cs@.len(),
            !is_wrapping(cs@[a as int]),
            a < b <= cs@.len() || (b == a + 1),
            a + 1 <= b <= cs@.len(),
            forall|j: int| b <= j < cs@.len() ==> is_wrapping(#[trigger] cs@[j]),
        decreases b,
    {
        b = b - 1;
    }
    proof {
        assert(!is_wrapping(cs@[b - 1]));
        let t = choose|i: int| 0 <= i < cs@.len() && !is_wrapping(cs@[i]) && forall|j: int| i < j < cs@.len() ==> is_wrapping(#[trigger] cs@[j]);
        assert(t == b - 1) by {
            if t < b - 1 {
                assert(is_wrapping(cs@[b - 1]));
            }
            if t > b - 1 {
                assert(is_wrapping(cs@[t]));
            }
        }
        assert(tail_end(cs@) == b);
    }
    crate::parse::copy_range(cs, a, b)
}

/// The number of hexadecimal digits in `cs`.
pub open spec fn hex_count(cs: Seq<char>) -> nat
    decreases cs.len(),
{
    if cs.len() == 0 {
        0
    } else {
        hex_count(cs.drop_last()) + if is_hex_digit(cs.last()) { 1nat } else { 0nat }
    }
}

/// The number of MAC separators (`:` `-` `.`) in `cs`.
pub open spec fn sep_count(cs: Seq<char>) -> nat
    decreases cs.len(),
{
    if cs.len() == 0 {
        0
    } else {
        sep_count(cs.drop_last()) + if is_mac_sep(cs.last()) { 1nat } else { 0nat }
    }
}

pub open spec fn is_mac_sep(c: char) -> bool {
    c == ':' || c == '-' || c == '.'
}

/// The shape of a MAC: exactly twelve hexadecimal digits, at least one
/// separator, and nothing else. Whether the lenient MAC reader would accept
/// a text is not enough: an interface index made of digits could pass it.
pub open spec fn spec_looks_like_mac(cs: Seq<char>) -> bool {
    &&& hex_count(cs) == 12
    &&& sep_count(cs) > 0
    &&& forall|i: int| 0 <= i < cs.len() ==> is_hex_digit(#[trigger] cs[i]) || is_mac_sep(cs[i])
}

fn looks_like_mac_chars(cs: &[char]) -> (r: bool)
    ensures
        r == spec_looks_like_mac(cs@),
{
    let mut hex: usize = 0;
    let mut seps: usize = 0;
    let mut all_ok = true;
    let mut i: usize = 0;
    while i < cs.len()
        invariant
            0 <= i <= cs@.len(),
            hex == hex_count(cs@.take(i as int)),
            seps == sep_count(cs@.take(i as int)),
            hex <= i,
            seps <= i,
            all_ok == (forall|j: int| 0 <= j < i ==> is_hex_digit(#[trigger] cs@[j]) || is_mac_sep(cs@[j])),
        decreases cs@.len() - i,
    {
        let c = cs[i];
        proof {
            assert(cs@.take(i + 1).drop_last() =~= cs@.take(i as int));
        }
        let h = hex_value(c).is_some();
        let s = c == ':' || c == '-' || c == '.';
        if h {
            hex = hex + 1;
        }
        if s {
            seps = seps + 1;
        }
        if !h && !s {
            all_ok = false;
        }
        i = i + 1;
    }
    proof {
        assert(cs@.take(cs@.len() as int) =~= cs@);
    }
    hex == 12 && seps > 0 && all_ok
}

/// Whether `s` has the shape of a MAC (see [`spec_looks_like_mac`]).
pub fn looks_like_mac(s: &str) -> (r: bool)
    ensures
        r == spec_looks_like_mac(s@),
{
    let cs = chars_of(s);
    looks_like_mac_chars(cs.as_slice())
}

/// What a line has shown so far: the first address, and the first usable
/// hardware address.
#[verifier::opaque]
pub open spec fn take_word(st: (Option<u32>, Option<Seq<u8>>), w: Seq<char>) -> (Option<u32>, Option<Seq<u8>>) {
    let t = strip_wrapping(w);
    if st.0 is None && spec_parse_ipv4(t) is Some {
        (spec_parse_ipv4(t), st.1)
    } else if st.1 is None && spec_looks_like_mac(t) && spec_parse_mac(t) is Some && !is_placeholder_mac(
        spec_parse_mac(t)->0,
    ) {
        (st.0, spec_parse_mac(t))
    } else {
        st
    }
}

/// All zeros or all ones: a placeholder, not a real neighbour.
pub open spec fn is_placeholder_mac(b: Seq<u8>) -> bool {
    (forall|i: int| 0 <= i < 6 ==> b[i] == 0u8) || (forall|i: int| 0 <= i < 6 ==> b[i] == 0xffu8)
}

pub open spec fn line_state(ws: Seq<Seq<char>>) -> (Option<u32>, Option<Seq<u8>>)
    decreases ws.len(),
{
    if ws.len() == 0 {
        (None, None)
    } else {
        take_word(line_state(ws.drop_last()), ws.last())
    }
}

/// The neighbour on a line: its words are looked at in order, each with
/// wrapping characters cut off; the first that reads as an IPv4 address is
/// the address, the first other one shaped like a MAC (and not a
/// placeholder) the hardware address. Both must be there.
#[verifier::opaque]
pub open spec fn spec_parse_line(line: Seq<char>) -> Option<Neighbor> {
    match line_state(words(line)) {
        (Some(ip), Some(m)) => Some(Neighbor { ip, mac: MacAddr(spec_mac_array(m)) }),
        _ => None,
    }
}

#[verifier::rlimit(50)]
#[verifier::spinoff_prover]
fn parse_line_chars(line: &[char]) -> (r: Option<Neighbor>)
    ensures
        r == spec_parse_line(line@),
{
    let ws = split_words(line);
    let mut ip: Option<u32> = None;
    let mut mac: Option<MacAddr> = None;
    let mut k: usize = 0;
    while k < ws.len()
        invariant
            0 <= k <= ws@.len(),
            char_seqs(ws@) == words(line@),
            line_state(words(line@).take(k as int)).0 == ip,
            line_state(words(line@).take(k as int)).1 == match mac {
                Some(m) => Some(m.0@),
                None => None::<Seq<u8>>,
            },
        decreases ws@.len() - k,
    {
        proof {
            assert(words(line@).take(k + 1).drop_last() =~= words(line@).take(k as int));
            assert(words(line@).take(k + 1).last() == ws@[k as int]@);
        }
        let ghost st = (ip, match mac {
            Some(m) => Some(m.0@),
            None => None::<Seq<u8>>,
        });
        let t = strip(ws[k].as_slice());
        let mut taken = false;
        if ip.is_none() {
            match parse_ipv4(t.as_slice()) {
                Some(v) => {
                    ip = Some(v);
                    taken = true;
                },
                None => {},
            }
        }
        if !taken && mac.is_none() && looks_like_mac_chars(t.as_slice()) {
            match MacAddr::parse_chars(t.as_slice()) {
                Some(m) => {
                    if !m.is_zero() && !m.is_broadcast() {
                        mac = Some(m);
                    } else {
                        proof {
                            assert(is_placeholder_mac(m.0@));
                        }
                    }
                },
                None => {},
            }
        }
        proof {
            assert(take_word(st, ws@[k as int]@) == (ip, match mac {
                Some(m) => Some(m.0@),
                None => None::<Seq<u8>>,
            })) by {
                reveal(take_word);
            }
        }
        k = k + 1;
    }
    proof {
        assert(words(line@).take(ws@.len() as int) =~= words(line@));
        reveal(spec_parse_line);
    }
    match (ip, mac) {
        (Some(i), Some(m)) => {
            proof {
                assert(m.0@ =~= spec_mac_array(m.0@)@);
                assert(m.0 == spec_mac_array(m.0@));
            }
            Some(Neighbor { ip: i, mac: m })
        },
        _ => None,
    }
}

/// Finds an IPv4 address and a MAC on one line; both must be there.
pub fn parse_line(line: &str) -> (r: Option<Neighbor>)
    ensures
        r == spec_parse_line(line@),
{
    let cs = chars_of(line);
    parse_line_chars(cs.as_slice())
}

/// Whether some neighbour in `v` has the address `ip`.
pub open spec fn has_ip(v: Seq<Neighbor>, ip: u32) -> bool {
    exists|k: int| 0 <= k < v.len() && #[trigger] v[k].ip == ip
}

/// The neighbours of the lines, in order, each address once (its first
/// line wins).
pub open spec fn table_of(lines: Seq<Seq<char>>) -> Seq<Neighbor>
    decreases lines.len(),
{
    if lines.len() == 0 {
        Seq::empty()
    } else {
        let out = table_of(lines.drop_last());
        match spec_parse_line(lines.last()) {
            Some(n) => if has_ip(out, n.ip) { out } else { out.push(n) },
            None => out,
        }
    }
}

/// The neighbour table in a text: its lines are read one by one.
pub open spec fn spec_parse_table(text: Seq<char>) -> Seq<Neighbor> {
    table_of(spec_split(text, '\n'))
}

/// Reads a neighbour table.
pub fn parse_table(text: &str) -> (r: Vec<Neighbor>)
    ensures
        r@ == spec_parse_table(text@),
        forall|i: int, j: int| 0 <= i < j < r@.len() ==> r@[i].ip != r@[j].ip,
{
    let cs = chars_of(text);
    let lines = split_chars(cs.as_slice(), '\n');
    let mut out: Vec<Neighbor> = Vec::new();
    let mut k: usize = 0;
    while k < lines.len()
        invariant
            0 <= k <= lines@.len(),
            char_seqs(lines@) == spec_split(text@, '\n'),
            out@ == table_of(spec_split(text@, '\n').take(k as int)),
            forall|i: int, j: int| 0 <= i < j < out@.len() ==> out@[i].ip != out@[j].ip,
        decreases lines@.len() - k,
    {
        proof {
            assert(spec_split(text@, '\n').take(k + 1).drop_last() =~= spec_split(text@, '\n').take(k as int));
            assert(spec_split(text@, '\n').take(k + 1).last() == lines@[k as int]@);
        }
        match parse_line_chars(lines[k].as_slice()) {
            Some(n) => {
                let mut seen = false;
                let mut j: usize = 0;
                while j < out.len()
                    invariant
                        0 <= j <= out@.len(),
                        seen == (exists|x: int| 0 <= x < j && #[trigger] out@[x].ip == n.ip),
                    decreases out@.len() - j,
                {
                    if out[j].ip == n.ip {
                        seen = true;
                    }
                    j = j + 1;
                }
                if !seen {
                    out.push(n);
                }
            },
            None => {},
        }
        k = k + 1;
    }
    proof {
        assert(spec_split(text@, '\n').take(lines@.len() as int) =~= spec_split(text@, '\n'));
    }
    out
}

} // verus!
