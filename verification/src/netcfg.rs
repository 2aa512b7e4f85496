//! The address-configuration tool's own logic: reading `address/prefix`
//! from the command line, and the table it prints of the interfaces.

use vstd::prelude::*;

use crate::net::{Interface, Ipv4Cidr, NetError};
use crate::parse::{
    all_digits, is_digit, law_ipv4_text_roundtrip, lemma_dec_reads_back, parse_ipv4, parse_u8, push_dec, push_ipv4,
    push_str, spec_dec, spec_find, spec_ipv4_text, spec_parse_ipv4, spec_parse_u8, spec_split_once, spec_trim,
    spec_trim_end, spec_trim_start, split_once, trim,
};
use crate::text::{chars_of, string_from_chars};

verus! {

/// Whether a character takes two columns in a terminal: the CJK ranges
/// (Hangul jamo, CJK ideographs and kana, Hangul syllables, compatibility
/// ideographs, vertical punctuation, full-width forms).
pub open spec fn is_wide(c: char) -> bool {
    let n = c as u32;
    ||| 0x1100 <= n <= 0x115F
    ||| 0x2E80 <= n <= 0xA4CF
    ||| 0xAC00 <= n <= 0xD7A3
    ||| 0xF900 <= n <= 0xFAFF
    ||| 0xFE30 <= n <= 0xFE6F
    ||| 0xFF00 <= n <= 0xFF60
    ||| 0xFFE0 <= n <= 0xFFE6
}

pub open spec fn char_width(c: char) -> nat {
    if is_wide(c) { 2 } else { 1 }
}

/// The width of a text in terminal columns.
pub open spec fn spec_display_width(s: Seq<char>) -> nat
    decreases s.len(),
{
    if s.len() == 0 {
        0
    } else {
        spec_display_width(s.drop_last()) + char_width(s.last())
    }
}

pub proof fn lemma_width_bounds(s: Seq<char>)
    ensures
        s.len() <= spec_display_width(s) <= 2 * s.len(),
    decreases s.len(),
{
    if s.len() > 0 {
        lemma_width_bounds(s.drop_last());
    }
}

/// The width of a text in terminal columns. CJK characters take two
/// columns; aligning by character count would skew the table, and
/// interface names are often Chinese ("以太网 2").
pub fn display_width(s: &str) -> (r: usize)
    requires
        s@.len() <= usize::MAX / 2,
    ensures
        r == spec_display_width(s@),
{
    let cs = chars_of(s);
    let mut w: usize = 0;
    let mut i: usize = 0;
    while i < cs.len()
        invariant
            cs@ == s@,
            s@.len() <= usize::MAX / 2,
            0 <= i <= cs@.len(),
            w == spec_display_width(cs@.take(i as int)),
        decreases cs@.len() - i,
    {
        proof {
            assert(cs@.take(i + 1).drop_last() =~= cs@.take(i as int));
            lemma_width_bounds(cs@.take(i as int));
        }
        let c = cs[i];
        let n = c as u32;
        let wide = (0x1100 <= n && n <= 0x115F) || (0x2E80 <= n && n <= 0xA4CF)
            || (0xAC00 <= n && n <= 0xD7A3) || (0xF900 <= n && n <= 0xFAFF)
            || (0xFE30 <= n && n <= 0xFE6F) || (0xFF00 <= n && n <= 0xFF60)
            || (0xFFE0 <= n && n <= 0xFFE6);
        if wide {
            w = w + 2;
        } else {
            w = w + 1;
        }
        i = i + 1;
    }
    proof {
        assert(cs@.take(cs@.len() as int) =~= s@);
    }
    w
}

/// The message for an address that does not read as `address/prefix`.
pub open spec fn spec_bad_cidr_detail(s: Seq<char>) -> Seq<char> {
    "地址应写成 192.168.88.1/24 的形式，收到 "@ + s
}

/// `address/prefix`, each side trimmed, the prefix at most 32.
pub open spec fn spec_parse_cidr(s: Seq<char>) -> Option<(u32, u8)> {
    match spec_split_once(s, '/') {
        Some((a, p)) => match (spec_parse_ipv4(spec_trim(a)), spec_parse_u8(spec_trim(p))) {
            (Some(addr), Some(prefix)) => if prefix <= 32 {
                Some((addr, prefix))
            } else {
                None
            },
            _ => None,
        },
        None => None,
    }
}

fn bad_cidr(s: &str) -> (r: NetError)
    ensures
        r matches NetError::Configure { iface, detail } && iface@ == Seq::<char>::empty()
            && detail@ == spec_bad_cidr_detail(s@),
{
    let mut out: Vec<char> = Vec::new();
    push_str(&mut out, "地址应写成 192.168.88.1/24 的形式，收到 ");
    push_str(&mut out, s);
    let empty: Vec<char> = Vec::new();
    NetError::Configure { iface: string_from_chars(empty.as_slice()), detail: string_from_chars(out.as_slice()) }
}

/// Reads `192.168.88.1/24` from the command line.
pub fn parse_cidr(s: &str) -> (r: Result<(u32, u8), NetError>)
    ensures
        match r {
            Ok(v) => spec_parse_cidr(s@) == Some(v),
            Err(e) => spec_parse_cidr(s@) is None && (e matches NetError::Configure { iface, detail }
                && iface@ == Seq::<char>::empty() && detail@ == spec_bad_cidr_detail(s@)),
        },
{
    let cs = chars_of(s);
    let (a, p) = match split_once(cs.as_slice(), '/') {
        Some(pair) => pair,
        None => return Err(bad_cidr(s)),
    };
    let at = trim(a.as_slice());
    let pt = trim(p.as_slice());
    let addr = match parse_ipv4(at.as_slice()) {
        Some(x) => x,
        None => return Err(bad_cidr(s)),
    };
    let prefix = match parse_u8(pt.as_slice()) {
        Some(x) => x,
        None => return Err(bad_cidr(s)),
    };
    if prefix > 32 {
        return Err(bad_cidr(s));
    }
    Ok((addr, prefix))
}

/// `n` spaces.
pub open spec fn spaces(n: nat) -> Seq<char> {
    Seq::new(n, |i: int| ' ')
}

/// `192.168.88.1/24`.
pub open spec fn spec_cidr_text(c: Ipv4Cidr) -> Seq<char> {
    spec_ipv4_text(c.addr) + seq!['/'] + spec_dec(c.prefix as nat)
}

/// The addresses of one row, two spaces apart.
pub open spec fn spec_joined_cidrs(v: Seq<Ipv4Cidr>) -> Seq<char>
    decreases v.len(),
{
    if v.len() <= 1 {
        if v.len() == 0 { Seq::empty() } else { spec_cidr_text(v[0]) }
    } else {
        spec_joined_cidrs(v.drop_last()) + "  "@ + spec_cidr_text(v.last())
    }
}

/// The address column: the addresses, or a dash for none.
pub open spec fn spec_addrs_text(v: Seq<Ipv4Cidr>) -> Seq<char> {
    if v.len() == 0 { "—"@ } else { spec_joined_cidrs(v) }
}

/// The state column: loopback, usable, or without an address.
pub open spec fn spec_mark(i: Interface) -> Seq<char> {
    if i.is_loopback {
        "环回"@
    } else if !i.is_loopback && i.has_address {
        "可用"@
    } else {
        "无地址"@
    }
}

/// A column padded with spaces to six characters.
pub open spec fn pad6(s: Seq<char>) -> Seq<char> {
    if s.len() < 6 { s + spaces((6 - s.len()) as nat) } else { s }
}

/// The width of the name column: the widest name, or 4 for no interfaces.
pub open spec fn spec_name_width(ifs: Seq<Interface>) -> nat
    decreases ifs.len(),
{
    if ifs.len() == 0 {
        4
    } else if ifs.len() == 1 {
        spec_display_width(ifs[0].name@)
    } else {
        let rest = spec_name_width(ifs.drop_last());
        let w = spec_display_width(ifs.last().name@);
        if w > rest { w } else { rest }
    }
}

/// One row of the table: the name padded to `width` columns, the state,
/// the addresses.
pub open spec fn spec_list_line(i: Interface, width: nat) -> Seq<char> {
    let w = spec_display_width(i.name@);
    let pad: nat = if width > w { (width - w) as nat } else { 0 };
    "  "@ + i.name@ + spaces(pad) + "  "@ + pad6(spec_mark(i)) + "  "@ + spec_addrs_text(i.ipv4@)
}

pub open spec fn names_fit(ifs: Seq<Interface>) -> bool {
    forall|k: int| 0 <= k < ifs.len() ==> #[trigger] ifs[k].name@.len() <= usize::MAX / 4
}

fn push_spaces(out: &mut Vec<char>, n: usize)
    ensures
        final(out)@ == old(out)@ + spaces(n as nat),
{
    let ghost start = out@;
    let mut k: usize = 0;
    while k < n
        invariant
            0 <= k <= n,
            out@ == start + spaces(k as nat),
        decreases n - k,
    {
        out.push(' ');
        k = k + 1;
        proof {
            assert(out@ =~= start + spaces(k as nat));
        }
    }
}

fn push_cidr(out: &mut Vec<char>, c: Ipv4Cidr)
    ensures
        final(out)@ == old(out)@ + spec_cidr_text(c),
{
    let ghost start = out@;
    push_ipv4(out, c.addr);
    out.push('/');
    push_dec(out, c.prefix as u64);
    proof {
        assert(out@ =~= start + spec_cidr_text(c));
    }
}

fn push_addrs(out: &mut Vec<char>, v: &Vec<Ipv4Cidr>)
    ensures
        final(out)@ == old(out)@ + spec_addrs_text(v@),
{
    if v.len() == 0 {
        push_str(out, "—");
        return;
    }
    let ghost start = out@;
    push_cidr(out, v[0]);
    proof {
        assert(v@.take(1).len() == 1);
        assert(out@ =~= start + spec_joined_cidrs(v@.take(1)));
    }
    let mut k: usize = 1;
    while k < v.len()
        invariant
            1 <= k <= v@.len(),
            out@ == start + spec_joined_cidrs(v@.take(k as int)),
        decreases v@.len() - k,
    {
        let ghost prev = out@;
        push_str(out, "  ");
        push_cidr(out, v[k]);
        proof {
            assert(v@.take(k + 1).drop_last() =~= v@.take(k as int));
            assert(out@ =~= start + spec_joined_cidrs(v@.take(k + 1)));
        }
        k = k + 1;
    }
    proof {
        assert(v@.take(v@.len() as int) =~= v@);
    }
}

/// The width of the name column.
fn name_width(ifs: &Vec<Interface>) -> (r: usize)
    requires
        names_fit(ifs@),
    ensures
        r == spec_name_width(ifs@),
        r <= usize::MAX / 2,
{
    if ifs.len() == 0 {
        return 4;
    }
    proof {
        lemma_width_bounds(ifs@[0].name@);
    }
    let mut best: usize = display_width(ifs[0].name.as_str());
    proof {
        assert(ifs@.take(1).len() == 1);
        assert(ifs@.take(1)[0] == ifs@[0]);
    }
    let mut k: usize = 1;
    while k < ifs.len()
        invariant
            names_fit(ifs@),
            1 <= k <= ifs@.len(),
            best == spec_name_width(ifs@.take(k as int)),
            best <= usize::MAX / 2,
        decreases ifs@.len() - k,
    {
        proof {
            assert(ifs@[k as int].name@.len() <= usize::MAX / 4);
            lemma_width_bounds(ifs@[k as int].name@);
            assert(ifs@.take(k + 1).drop_last() =~= ifs@.take(k as int));
            assert(ifs@.take(k + 1).last() == ifs@[k as int]);
        }
        let w = display_width(ifs[k].name.as_str());
        if w > best {
            best = w;
        }
        k = k + 1;
    }
    proof {
        assert(ifs@.take(ifs@.len() as int) =~= ifs@);
    }
    best
}

/// The table of interfaces, one row each, names aligned by their width in
/// terminal columns.
pub fn list_lines(ifs: &Vec<Interface>) -> (r: Vec<String>)
    requires
        names_fit(ifs@),
    ensures
        r@.len() == ifs@.len(),
        forall|k: int| 0 <= k < ifs@.len() ==>
            #[trigger] r@[k]@ == spec_list_line(ifs@[k], spec_name_width(ifs@)),
{
    let width = name_width(ifs);
    let mut lines: Vec<String> = Vec::new();
    let mut k: usize = 0;
    while k < ifs.len()
        invariant
            names_fit(ifs@),
            width == spec_name_width(ifs@),
            0 <= k <= ifs@.len(),
            lines@.len() == k,
            forall|j: int| 0 <= j < k ==>
                #[trigger] lines@[j]@ == spec_list_line(ifs@[j], width as nat),
        decreases ifs@.len() - k,
    {
        let i = &ifs[k];
        proof {
            assert(ifs@[k as int].name@.len() <= usize::MAX / 4);
        }
        let w = display_width(i.name.as_str());
        let pad: usize = if width > w { width - w } else { 0 };
        let mut out: Vec<char> = Vec::new();
        push_str(&mut out, "  ");
        push_str(&mut out, i.name.as_str());
        push_spaces(&mut out, pad);
        push_str(&mut out, "  ");
        let ghost before_mark = out@;
        if i.is_loopback {
            push_str(&mut out, "环回");
            push_spaces(&mut out, 4);
        } else if i.has_address {
            push_str(&mut out, "可用");
            push_spaces(&mut out, 4);
        } else {
            push_str(&mut out, "无地址");
            push_spaces(&mut out, 3);
        }
        proof {
            reveal_strlit("环回");
            reveal_strlit("可用");
            reveal_strlit("无地址");
            assert(out@ =~= before_mark + pad6(spec_mark(*i)));
        }
        push_str(&mut out, "  ");
        push_addrs(&mut out, &i.ipv4);
        proof {
            assert(out@ =~= spec_list_line(*i, width as nat));
        }
        lines.push(string_from_chars(out.as_slice()));
        k = k + 1;
    }
    lines
}

/// Only digits and dots.
pub open spec fn digits_and_dots(s: Seq<char>) -> bool {
    forall|i: int| 0 <= i < s.len() ==> is_digit(#[trigger] s[i]) || s[i] == '.'
}

proof fn lemma_concat_digits_and_dots(a: Seq<char>, b: Seq<char>)
    requires
        digits_and_dots(a),
        digits_and_dots(b),
    ensures
        digits_and_dots(a + b),
{
    assert forall|i: int| 0 <= i < (a + b).len() implies is_digit(#[trigger] (a + b)[i]) || (a + b)[i] == '.' by {
        if i < a.len() {
            assert((a + b)[i] == a[i]);
        } else {
            assert((a + b)[i] == b[i - a.len()]);
        }
    }
}

proof fn lemma_digits_are_digits_and_dots(s: Seq<char>)
    requires
        all_digits(s),
    ensures
        digits_and_dots(s),
{
    assert forall|i: int| 0 <= i < s.len() implies is_digit(#[trigger] s[i]) || s[i] == '.' by {
        assert(is_digit(s[i]));
    }
}

/// A dotted quad is made of digits and dots, and starts and ends with a
/// digit.
proof fn lemma_ipv4_text_shape(ip: u32)
    ensures
        digits_and_dots(spec_ipv4_text(ip)),
        spec_ipv4_text(ip).len() > 0,
        is_digit(spec_ipv4_text(ip)[0]),
        is_digit(spec_ipv4_text(ip).last()),
{
    let a = spec_dec((ip / 16777216) as nat);
    let b = spec_dec(((ip / 65536) % 256) as nat);
    let c = spec_dec(((ip / 256) % 256) as nat);
    let d = spec_dec((ip % 256) as nat);
    lemma_dec_reads_back((ip / 16777216) as nat);
    lemma_dec_reads_back(((ip / 65536) % 256) as nat);
    lemma_dec_reads_back(((ip / 256) % 256) as nat);
    lemma_dec_reads_back((ip % 256) as nat);
    lemma_digits_are_digits_and_dots(a);
    lemma_digits_are_digits_and_dots(b);
    lemma_digits_are_digits_and_dots(c);
    lemma_digits_are_digits_and_dots(d);
    let dot = seq!['.'];
    assert(digits_and_dots(dot));
    lemma_concat_digits_and_dots(a, dot);
    lemma_concat_digits_and_dots(a + dot, b);
    lemma_concat_digits_and_dots(a + dot + b, dot);
    lemma_concat_digits_and_dots(a + dot + b + dot, c);
    lemma_concat_digits_and_dots(a + dot + b + dot + c, dot);
    lemma_concat_digits_and_dots(a + dot + b + dot + c + dot, d);
    let t = spec_ipv4_text(ip);
    assert(t == a + dot + b + dot + c + dot + d);
    assert(t[0] == a[0]);
    assert(t.last() == d.last());
    assert(is_digit(a[0]));
    assert(is_digit(d[d.len() - 1]));
}

/// Text that starts and ends with a digit has nothing to trim.
proof fn lemma_trim_digit_ends(s: Seq<char>)
    requires
        s.len() > 0,
        is_digit(s[0]),
        is_digit(s.last()),
    ensures
        spec_trim(s) == s,
{
    assert(spec_trim_start(s) == s);
    assert(spec_trim_end(s) == s);
}

/// An address and prefix as the interface table prints them read back as
/// the same address and prefix.
pub proof fn law_cidr_text_roundtrip(c: Ipv4Cidr)
    requires
        c.prefix <= 32,
    ensures
        spec_parse_cidr(spec_cidr_text(c)) == Some((c.addr, c.prefix)),
{
    let ipt = spec_ipv4_text(c.addr);
    let dp = spec_dec(c.prefix as nat);
    let t = spec_cidr_text(c);
    lemma_ipv4_text_shape(c.addr);
    lemma_dec_reads_back(c.prefix as nat);
    law_ipv4_text_roundtrip(c.addr);
    let n = ipt.len() as int;
    assert(t[n] == '/');
    assert forall|j: int| 0 <= j < n implies t[j] != '/' by {
        assert(t[j] == ipt[j]);
        assert(is_digit(ipt[j]) || ipt[j] == '.');
    }
    assert(spec_find(t, '/') == Some(n)) by {
        assert(exists|i: int| 0 <= i < t.len() && t[i] == '/') by {
            assert(0 <= n < t.len() && t[n] == '/');
        }
        let i = choose|i: int| 0 <= i < t.len() && t[i] == '/' && forall|j: int| 0 <= j < i ==> t[j] != '/';
        assert(0 <= n < t.len() && t[n] == '/' && forall|j: int| 0 <= j < n ==> t[j] != '/');
        if i < n {
            assert(t[i] != '/');
        }
        if i > n {
            assert(t[n] != '/');
        }
    }
    assert(t.take(n) =~= ipt);
    assert(t.skip(n + 1) =~= dp);
    lemma_trim_digit_ends(ipt);
    assert(is_digit(dp[0]));
    assert(is_digit(dp.last()));
    lemma_trim_digit_ends(dp);
    assert(dp[0] != '+');
    assert(spec_parse_u8(dp) == Some(c.prefix));
}

} // verus!
