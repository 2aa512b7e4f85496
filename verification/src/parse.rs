//! Text to values and values to text: the small grammars the configuration
//! and the tools read (decimal numbers, dotted quads, `key=value`), and the
//! forms they print.
//!
//! Each reader states exactly which inputs it takes; they follow the rules
//! of std's parsers for the same values, so a value written by hand reads
//! the same here as anywhere else.

use vstd::prelude::*;

use crate::text::{spec_hex_char, hex_char};

verus! {

/// Unicode's White_Space characters, which is what Rust calls whitespace.
pub open spec fn is_ws(c: char) -> bool {
    let n = c as u32;
    (0x09 <= n && n <= 0x0d) || n == 0x20 || n == 0x85 || n == 0xa0 || n == 0x1680 || (0x2000 <= n
        && n <= 0x200a) || n == 0x2028 || n == 0x2029 || n == 0x202f || n == 0x205f || n == 0x3000
}

pub fn is_whitespace(c: char) -> (r: bool)
    ensures
        r == is_ws(c),
{
    let n = c as u32;
    (0x09 <= n && n <= 0x0d) || n == 0x20 || n == 0x85 || n == 0xa0 || n == 0x1680 || (0x2000 <= n
        && n <= 0x200a) || n == 0x2028 || n == 0x2029 || n == 0x202f || n == 0x205f || n == 0x3000
}

pub open spec fn spec_trim_start(cs: Seq<char>) -> Seq<char>
    decreases cs.len(),
{
    if cs.len() > 0 && is_ws(cs[0]) {
        spec_trim_start(cs.drop_first())
    } else {
        cs
    }
}

pub open spec fn spec_trim_end(cs: Seq<char>) -> Seq<char>
    decreases cs.len(),
{
    if cs.len() > 0 && is_ws(cs.last()) {
        spec_trim_end(cs.drop_last())
    } else {
        cs
    }
}

/// `cs` without leading and trailing whitespace.
pub open spec fn spec_trim(cs: Seq<char>) -> Seq<char> {
    spec_trim_end(spec_trim_start(cs))
}

/// A copy of `cs[from..to]`.
pub fn copy_range(cs: &[char], from: usize, to: usize) -> (r: Vec<char>)
    requires
        from <= to <= cs@.len(),
    ensures
        r@ == cs@.subrange(from as int, to as int),
{
    let mut out: Vec<char> = Vec::new();
    let mut i: usize = from;
    while i < to
        invariant
            from <= i <= to <= cs@.len(),
            out@ == cs@.subrange(from as int, i as int),
        decreases to - i,
    {
        out.push(cs[i]);
        i = i + 1;
        proof {
            assert(out@ =~= cs@.subrange(from as int, i as int));
        }
    }
    out
}

/// `cs` without leading and trailing whitespace.
pub fn trim(cs: &[char]) -> (r: Vec<char>)
    ensures
        r@ == spec_trim(cs@),
{
    let n = cs.len();
    let mut i: usize = 0;
    proof {
        assert(cs@.subrange(0, n as int) =~= cs@);
    }
    while i < n && is_whitespace(cs[i])
        invariant
            0 <= i <= n == cs@.len(),
            spec_trim_start(cs@) == spec_trim_start(cs@.subrange(i as int, n as int)),
        decreases n - i,
    {
        proof {
            assert(cs@.subrange(i as int, n as int).drop_first() =~= cs@.subrange(i + 1, n as int));
        }
        i = i + 1;
    }
    let ghost front = cs@.subrange(i as int, n as int);
    let mut j: usize = n;
    proof {
        assert(front.subrange(0, front.len() as int) =~= front);
        assert(cs@.subrange(i as int, j as int) =~= front);
    }
    while j > i && is_whitespace(cs[j - 1])
        invariant
            i <= j <= n == cs@.len(),
            front == cs@.subrange(i as int, n as int),
            spec_trim_start(cs@) == front,
            spec_trim_end(front) == spec_trim_end(cs@.subrange(i as int, j as int)),
        decreases j - i,
    {
        proof {
            assert(cs@.subrange(i as int, j as int).drop_last() =~= cs@.subrange(i as int, j - 1));
        }
        j = j - 1;
    }
    copy_range(cs, i, j)
}

/// The pieces of `cs` between occurrences of `sep`, as std's `split` gives
/// them: empty pieces included, and one piece when `sep` does not occur.
pub open spec fn spec_split(cs: Seq<char>, sep: char) -> Seq<Seq<char>>
    decreases cs.len(),
{
    if cs.len() == 0 {
        seq![Seq::<char>::empty()]
    } else {
        let p = spec_split(cs.drop_last(), sep);
        if cs.last() == sep {
            p.push(Seq::<char>::empty())
        } else {
            p.update(p.len() - 1, p.last().push(cs.last()))
        }
    }
}

pub proof fn lemma_split_nonempty(cs: Seq<char>, sep: char)
    ensures
        spec_split(cs, sep).len() >= 1,
    decreases cs.len(),
{
    if cs.len() > 0 {
        lemma_split_nonempty(cs.drop_last(), sep);
    }
}

/// The views of a vector of character vectors.
pub open spec fn char_seqs(v: Seq<Vec<char>>) -> Seq<Seq<char>> {
    v.map_values(|x: Vec<char>| x@)
}

/// The pieces of `cs` between occurrences of `sep` (see [`spec_split`]).
pub fn split_chars(cs: &[char], sep: char) -> (r: Vec<Vec<char>>)
    ensures
        char_seqs(r@) == spec_split(cs@, sep),
{
    let mut done: Vec<Vec<char>> = Vec::new();
    let mut cur: Vec<char> = Vec::new();
    let mut i: usize = 0;
    while i < cs.len()
        invariant
            0 <= i <= cs@.len(),
            char_seqs(done@).push(cur@) == spec_split(cs@.take(i as int), sep),
        decreases cs@.len() - i,
    {
        let c = cs[i];
        proof {
            assert(cs@.take(i + 1).drop_last() =~= cs@.take(i as int));
            assert(cs@.take(i + 1).last() == c);
            lemma_split_nonempty(cs@.take(i as int), sep);
        }
        if c == sep {
            let ghost before = char_seqs(done@);
            let piece = cur;
            done.push(piece);
            cur = Vec::new();
            proof {
                assert(char_seqs(done@) =~= before.push(piece@));
                assert(char_seqs(done@).push(cur@) =~= spec_split(cs@.take(i + 1), sep));
            }
        } else {
            cur.push(c);
            proof {
                let p = spec_split(cs@.take(i as int), sep);
                assert(char_seqs(done@).push(cur@) =~= p.update(p.len() - 1, p.last().push(c)));
            }
        }
        i = i + 1;
    }
    let ghost before = char_seqs(done@);
    done.push(cur);
    proof {
        assert(char_seqs(done@) =~= before.push(cur@));
        assert(cs@.take(cs@.len() as int) =~= cs@);
    }
    done
}

/// The first position of `c` in `cs`.
pub open spec fn spec_find(cs: Seq<char>, c: char) -> Option<int> {
    if exists|i: int| 0 <= i < cs.len() && cs[i] == c {
        Some(choose|i: int| 0 <= i < cs.len() && cs[i] == c && forall|j: int| 0 <= j < i ==> cs[j] != c)
    } else {
        None
    }
}

/// `cs` split at the first `sep`, as std's `split_once` does.
pub open spec fn spec_split_once(cs: Seq<char>, sep: char) -> Option<(Seq<char>, Seq<char>)> {
    match spec_find(cs, sep) {
        Some(i) => Some((cs.take(i), cs.skip(i + 1))),
        None => None,
    }
}

/// The first position of `c` in `cs`.
pub fn find_char(cs: &[char], c: char) -> (r: Option<usize>)
    ensures
        r matches Some(i) ==> i < cs@.len(),
        match r {
            Some(i) => spec_find(cs@, c) == Some(i as int),
            None => spec_find(cs@, c) is None,
        },
{
    let mut i: usize = 0;
    while i < cs.len()
        invariant
            0 <= i <= cs@.len(),
            forall|j: int| 0 <= j < i ==> cs@[j] != c,
        decreases cs@.len() - i,
    {
        if cs[i] == c {
            proof {
                let k = choose|k: int|
                    0 <= k < cs@.len() && cs@[k] == c && forall|j: int| 0 <= j < k ==> cs@[j] != c;
                assert(0 <= i < cs@.len() && cs@[i as int] == c && forall|j: int|
                    0 <= j < i ==> cs@[j] != c);
                if k < i {
                    assert(cs@[k] != c);
                }
                if i < k {
                    assert(cs@[i as int] != c);
                }
            }
            return Some(i);
        }
        i = i + 1;
    }
    None
}

/// `cs` split at the first `sep` (see [`spec_split_once`]).
pub fn split_once(cs: &[char], sep: char) -> (r: Option<(Vec<char>, Vec<char>)>)
    ensures
        match r {
            Some((a, b)) => spec_split_once(cs@, sep) == Some((a@, b@)),
            None => spec_split_once(cs@, sep) is None,
        },
{
    let n = cs.len();
    match find_char(cs, sep) {
        Some(i) => {
            let a = copy_range(cs, 0, i);
            let b = copy_range(cs, i + 1, n);
            proof {
                assert(a@ =~= cs@.take(i as int));
                assert(b@ =~= cs@.skip(i + 1));
            }
            Some((a, b))
        },
        None => None,
    }
}

pub open spec fn is_digit(c: char) -> bool {
    '0' <= c && c <= '9'
}

pub open spec fn digit_value(c: char) -> nat {
    (c as nat - 48) as nat
}

/// The value of a string of decimal digits.
pub open spec fn dec_value(ds: Seq<char>) -> nat
    decreases ds.len(),
{
    if ds.len() == 0 {
        0
    } else {
        dec_value(ds.drop_last()) * 10 + digit_value(ds.last())
    }
}

pub open spec fn all_digits(ds: Seq<char>) -> bool {
    forall|i: int| 0 <= i < ds.len() ==> is_digit(#[trigger] ds[i])
}

/// What std's `u8::from_str` accepts: an optional `+`, then one or more
/// decimal digits (leading zeros allowed) worth at most 255.
pub open spec fn spec_parse_u8(cs: Seq<char>) -> Option<u8> {
    let ds = if cs.len() > 0 && cs[0] == '+' {
        cs.drop_first()
    } else {
        cs
    };
    if ds.len() > 0 && all_digits(ds) && dec_value(ds) <= 255 {
        Some(dec_value(ds) as u8)
    } else {
        None
    }
}

/// The value of the decimal digits `cs[from..]`, or 256 for any value
/// above 255; `None` if a character there is not a digit.
fn capped_dec(cs: &[char], from: usize) -> (r: Option<u32>)
    requires
        from <= cs@.len(),
    ensures
        match r {
            Some(v) => all_digits(cs@.skip(from as int)) && v == if dec_value(cs@.skip(from as int))
                > 255 {
                256
            } else {
                dec_value(cs@.skip(from as int))
            },
            None => !all_digits(cs@.skip(from as int)),
        },
{
    let ghost ds = cs@.skip(from as int);
    let mut v: u32 = 0;
    let mut i: usize = from;
    while i < cs.len()
        invariant
            from <= i <= cs@.len(),
            ds == cs@.skip(from as int),
            all_digits(ds.take(i - from)),
            v == if dec_value(ds.take(i - from)) > 255 {
                256
            } else {
                dec_value(ds.take(i - from))
            },
        decreases cs@.len() - i,
    {
        let c = cs[i];
        proof {
            assert(ds.take(i - from + 1).drop_last() =~= ds.take(i - from));
            assert(ds.take(i - from + 1).last() == c);
        }
        if !('0' <= c && c <= '9') {
            proof {
                assert(!is_digit(ds[i - from]));
            }
            return None;
        }
        let d = (c as u32) - 48;
        if v > 255 {
            v = 256;
        } else {
            v = v * 10 + d;
            if v > 255 {
                v = 256;
            }
        }
        i = i + 1;
        proof {
            assert forall|k: int| 0 <= k < ds.take(i - from).len() implies is_digit(
                #[trigger] ds.take(i - from)[k],
            ) by {
                if k < i - from - 1 {
                    assert(ds.take(i - from)[k] == ds.take(i - from - 1)[k]);
                }
            }
        }
    }
    proof {
        assert(ds.take(cs@.len() - from) =~= ds);
    }
    Some(v)
}

/// Parses a `u8` as std does (see [`spec_parse_u8`]).
pub fn parse_u8(cs: &[char]) -> (r: Option<u8>)
    ensures
        r == spec_parse_u8(cs@),
{
    let from: usize = if cs.len() > 0 && cs[0] == '+' {
        1
    } else {
        0
    };
    proof {
        if from == 1 {
            assert(cs@.skip(1) =~= cs@.drop_first());
        } else {
            assert(cs@.skip(0) =~= cs@);
        }
    }
    if from >= cs.len() {
        return None;
    }
    match capped_dec(cs, from) {
        Some(v) => if v <= 255 {
            Some(v as u8)
        } else {
            None
        },
        None => None,
    }
}

/// One part of a dotted quad as std's `Ipv4Addr` parser takes it: one to
/// three digits, no leading zero unless the part is `0`, at most 255.
pub open spec fn octet_ok(p: Seq<char>) -> bool {
    &&& 1 <= p.len() <= 3
    &&& all_digits(p)
    &&& (p.len() == 1 || p[0] != '0')
    &&& dec_value(p) <= 255
}

/// What std's `Ipv4Addr::from_str` accepts: four parts separated by dots,
/// each as [`octet_ok`] says, and nothing else.
pub open spec fn spec_parse_ipv4(cs: Seq<char>) -> Option<u32> {
    let ps = spec_split(cs, '.');
    if ps.len() == 4 && octet_ok(ps[0]) && octet_ok(ps[1]) && octet_ok(ps[2]) && octet_ok(ps[3]) {
        Some(
            (dec_value(ps[0]) * 16777216 + dec_value(ps[1]) * 65536 + dec_value(ps[2]) * 256
                + dec_value(ps[3])) as u32,
        )
    } else {
        None
    }
}

fn parse_octet(p: &[char]) -> (r: Option<u32>)
    ensures
        match r {
            Some(v) => octet_ok(p@) && v == dec_value(p@),
            None => !octet_ok(p@),
        },
{
    if p.len() < 1 || p.len() > 3 {
        return None;
    }
    if p.len() > 1 && p[0] == '0' {
        return None;
    }
    proof {
        assert(p@.skip(0) =~= p@);
    }
    match capped_dec(p, 0) {
        Some(v) => if v <= 255 {
            Some(v)
        } else {
            None
        },
        None => None,
    }
}

/// Parses a dotted quad as std does (see [`spec_parse_ipv4`]).
pub fn parse_ipv4(cs: &[char]) -> (r: Option<u32>)
    ensures
        r == spec_parse_ipv4(cs@),
{
    let ps = split_chars(cs, '.');
    proof {
        if ps@.len() == 4 {
            assert(char_seqs(ps@)[0] == ps@[0]@);
            assert(char_seqs(ps@)[1] == ps@[1]@);
            assert(char_seqs(ps@)[2] == ps@[2]@);
            assert(char_seqs(ps@)[3] == ps@[3]@);
        }
    }
    if ps.len() != 4 {
        return None;
    }
    let a = match parse_octet(ps[0].as_slice()) {
        Some(v) => v,
        None => return None,
    };
    let b = match parse_octet(ps[1].as_slice()) {
        Some(v) => v,
        None => return None,
    };
    let c = match parse_octet(ps[2].as_slice()) {
        Some(v) => v,
        None => return None,
    };
    let d = match parse_octet(ps[3].as_slice()) {
        Some(v) => v,
        None => return None,
    };
    Some(a * 16777216 + b * 65536 + c * 256 + d)
}

/// The decimal digit for `n` (below 10).
pub open spec fn spec_dec_char(n: int) -> char {
    (n + 48) as char
}

/// The decimal form of `n`, without leading zeros.
pub open spec fn spec_dec(n: nat) -> Seq<char>
    decreases n,
{
    if n < 10 {
        seq![spec_dec_char(n as int)]
    } else {
        spec_dec(n / 10).push(spec_dec_char((n % 10) as int))
    }
}

/// Appends the decimal form of `n`.
pub fn push_dec(out: &mut Vec<char>, n: u64)
    ensures
        final(out)@ == old(out)@ + spec_dec(n as nat),
    decreases n,
{
    if n >= 10 {
        push_dec(out, n / 10);
    }
    let d = (n % 10) as u8;
    out.push((d + 48) as char);
    proof {
        assert(final(out)@ =~= old(out)@ + spec_dec(n as nat));
    }
}

/// The dotted-quad form of an address, as std prints it.
pub open spec fn spec_ipv4_text(ip: u32) -> Seq<char> {
    spec_dec((ip / 16777216) as nat) + seq!['.'] + spec_dec(((ip / 65536) % 256) as nat) + seq!['.']
        + spec_dec(((ip / 256) % 256) as nat) + seq!['.'] + spec_dec((ip % 256) as nat)
}

/// Appends the dotted-quad form of `ip`.
pub fn push_ipv4(out: &mut Vec<char>, ip: u32)
    ensures
        final(out)@ == old(out)@ + spec_ipv4_text(ip),
{
    let ghost start = out@;
    push_dec(out, (ip / 16777216) as u64);
    out.push('.');
    push_dec(out, ((ip / 65536) % 256) as u64);
    out.push('.');
    push_dec(out, ((ip / 256) % 256) as u64);
    out.push('.');
    push_dec(out, (ip % 256) as u64);
    proof {
        assert(out@ =~= start + spec_ipv4_text(ip));
    }
}

/// What reading a decimal form back needs: only digits, the value itself,
/// no leading zero, and at most as many digits as the value's size allows.
pub proof fn lemma_dec_reads_back(n: nat)
    ensures
        all_digits(spec_dec(n)),
        dec_value(spec_dec(n)) == n,
        spec_dec(n).len() >= 1,
        n >= 1 ==> spec_dec(n)[0] != '0',
        n < 10 ==> spec_dec(n).len() == 1,
        n < 100 ==> spec_dec(n).len() <= 2,
        n < 1000 ==> spec_dec(n).len() <= 3,
    decreases n,
{
    if n >= 10 {
        lemma_dec_reads_back(n / 10);
        let s = spec_dec(n / 10);
        let t = spec_dec(n);
        let c = spec_dec_char((n % 10) as int);
        assert(t == s.push(c));
        assert(t.drop_last() =~= s);
        assert(digit_value(c) == n % 10);
        assert forall|i: int| 0 <= i < t.len() implies is_digit(#[trigger] t[i]) by {
            if i < s.len() {
                assert(t[i] == s[i]);
            }
        }
        assert(t[0] == s[0]);
        assert(t.last() == c);
        assert(dec_value(t) == dec_value(s) * 10 + digit_value(c));
        assert((n / 10) * 10 + n % 10 == n);
    } else {
        let t = spec_dec(n);
        assert(t.drop_last() =~= Seq::<char>::empty());
        assert(t.last() == spec_dec_char(n as int));
        assert(digit_value(spec_dec_char(n as int)) == n);
        assert(dec_value(t) == dec_value(t.drop_last()) * 10 + digit_value(t.last()));
    }
}

/// Splitting where the appended part holds no separator: it extends the
/// last piece.
proof fn lemma_split_extends_last(x: Seq<char>, y: Seq<char>, sep: char)
    requires
        forall|i: int| 0 <= i < y.len() ==> y[i] != sep,
    ensures
        spec_split(x + y, sep) == spec_split(x, sep).update(
            spec_split(x, sep).len() - 1,
            spec_split(x, sep).last() + y,
        ),
    decreases y.len(),
{
    lemma_split_nonempty(x, sep);
    let p = spec_split(x, sep);
    if y.len() == 0 {
        assert(x + y =~= x);
        assert(p.last() + y =~= p.last());
        assert(p.update(p.len() - 1, p.last() + y) =~= p);
    } else {
        let y0 = y.drop_last();
        lemma_split_extends_last(x, y0, sep);
        assert((x + y).drop_last() =~= x + y0);
        assert((x + y).last() == y.last());
        lemma_split_nonempty(x + y0, sep);
        let q = spec_split(x + y0, sep);
        assert(q =~= p.update(p.len() - 1, p.last() + y0));
        assert(q.last() == p.last() + y0);
        assert(q.last().push(y.last()) =~= p.last() + y);
        assert(spec_split(x + y, sep) =~= q.update(q.len() - 1, q.last().push(y.last())));
        assert(q.update(q.len() - 1, q.last().push(y.last())) =~= p.update(p.len() - 1, p.last() + y));
    }
}

/// Splitting after a separator: a new last piece.
proof fn lemma_split_after_dot(x: Seq<char>, y: Seq<char>)
    requires
        forall|i: int| 0 <= i < y.len() ==> y[i] != '.',
    ensures
        spec_split(x + seq!['.'] + y, '.') == spec_split(x, '.').push(y),
{
    let xd = x + seq!['.'];
    assert(xd.drop_last() =~= x);
    assert(xd.last() == '.');
    assert(spec_split(xd, '.') == spec_split(x, '.').push(Seq::<char>::empty()));
    lemma_split_extends_last(xd, y, '.');
    let p = spec_split(x, '.').push(Seq::<char>::empty());
    assert(Seq::<char>::empty() + y =~= y);
    assert(p.update(p.len() - 1, p.last() + y) =~= spec_split(x, '.').push(y));
}

proof fn lemma_digits_no_dot(s: Seq<char>)
    requires
        all_digits(s),
    ensures
        forall|i: int| 0 <= i < s.len() ==> s[i] != '.',
{
    assert forall|i: int| 0 <= i < s.len() implies s[i] != '.' by {
        assert(is_digit(s[i]));
    }
}

/// An address printed as a dotted quad reads back as the same address.
pub proof fn law_ipv4_text_roundtrip(ip: u32)
    ensures
        spec_parse_ipv4(spec_ipv4_text(ip)) == Some(ip),
{
    let a = (ip / 16777216) as nat;
    let b = ((ip / 65536) % 256) as nat;
    let c = ((ip / 256) % 256) as nat;
    let d = (ip % 256) as nat;
    assert(a < 256);
    lemma_dec_reads_back(a);
    lemma_dec_reads_back(b);
    lemma_dec_reads_back(c);
    lemma_dec_reads_back(d);
    let (da, db, dc, dd) = (spec_dec(a), spec_dec(b), spec_dec(c), spec_dec(d));
    lemma_digits_no_dot(da);
    lemma_digits_no_dot(db);
    lemma_digits_no_dot(dc);
    lemma_digits_no_dot(dd);
    lemma_split_extends_last(Seq::<char>::empty(), da, '.');
    assert(Seq::<char>::empty() + da =~= da);
    assert(spec_split(Seq::<char>::empty(), '.') == seq![Seq::<char>::empty()]);
    assert(spec_split(da, '.') =~= seq![da]);
    lemma_split_after_dot(da, db);
    let t2 = da + seq!['.'] + db;
    lemma_split_after_dot(t2, dc);
    let t3 = t2 + seq!['.'] + dc;
    lemma_split_after_dot(t3, dd);
    let t4 = t3 + seq!['.'] + dd;
    assert(t4 == spec_ipv4_text(ip));
    let ps = spec_split(t4, '.');
    assert(ps =~= seq![da, db, dc, dd]);
    assert(octet_ok(da) && octet_ok(db) && octet_ok(dc) && octet_ok(dd));
    assert(a * 16777216 + b * 65536 + c * 256 + d == ip) by (nonlinear_arith)
        requires
            a == ip / 16777216,
            b == (ip / 65536) % 256,
            c == (ip / 256) % 256,
            d == ip % 256,
    ;
}

/// Appends the characters of `s`.
pub fn push_str(out: &mut Vec<char>, s: &str)
    ensures
        final(out)@ == old(out)@ + s@,
{
    let cs = crate::text::chars_of(s);
    let ghost start = out@;
    let mut i: usize = 0;
    while i < cs.len()
        invariant
            0 <= i <= cs@.len(),
            cs@ == s@,
            out@ == start + cs@.take(i as int),
        decreases cs@.len() - i,
    {
        out.push(cs[i]);
        i = i + 1;
        proof {
            assert(out@ =~= start + cs@.take(i as int));
        }
    }
    proof {
        assert(cs@.take(cs@.len() as int) =~= cs@);
    }
}

/// The lower-case hexadecimal form of `n`, without leading zeros.
pub open spec fn spec_hex_num(n: nat) -> Seq<char>
    decreases n,
{
    if n < 16 {
        seq![spec_hex_char(n as int)]
    } else {
        spec_hex_num(n / 16).push(spec_hex_char((n % 16) as int))
    }
}

/// Appends the hexadecimal form of `n`.
pub fn push_hex_num(out: &mut Vec<char>, n: u64)
    ensures
        final(out)@ == old(out)@ + spec_hex_num(n as nat),
    decreases n,
{
    if n >= 16 {
        push_hex_num(out, n / 16);
    }
    out.push(hex_char((n % 16) as u8));
    proof {
        assert(final(out)@ =~= old(out)@ + spec_hex_num(n as nat));
    }
}

/// Whether `needle` occurs in `text`.
pub open spec fn has_substr(text: Seq<char>, needle: Seq<char>) -> bool {
    exists|i: int|
        0 <= i && i + needle.len() <= text.len() && #[trigger] text.subrange(i, i + needle.len())
            == needle
}

/// Whether `needle` occurs in `text` at position `at`.
fn occurs_at(text: &[char], needle: &[char], at: usize) -> (r: bool)
    requires
        at + needle@.len() <= text@.len(),
    ensures
        r == (text@.subrange(at as int, at + needle@.len()) == needle@),
{
    let mut k: usize = 0;
    let tl = text.len();
    while k < needle.len()
        invariant
            0 <= k <= needle@.len(),
            tl == text@.len(),
            at + needle@.len() <= text@.len(),
            text@.subrange(at as int, at + k) == needle@.take(k as int),
        decreases needle@.len() - k,
    {
        if text[at + k] != needle[k] {
            proof {
                assert(text@.subrange(at as int, at + needle@.len())[k as int] != needle@[k as int]);
            }
            return false;
        }
        k = k + 1;
        proof {
            assert(text@.subrange(at as int, at + k) =~= needle@.take(k as int));
        }
    }
    proof {
        assert(needle@.take(needle@.len() as int) =~= needle@);
    }
    true
}

/// Whether `needle` occurs in `text`.
pub fn contains_chars(text: &[char], needle: &[char]) -> (r: bool)
    ensures
        r == has_substr(text@, needle@),
{
    if needle.len() > text.len() {
        return false;
    }
    if needle.len() == 0 {
        proof {
            assert(text@.subrange(0int, 0int + needle@.len()) =~= needle@);
        }
        return true;
    }
    let tl = text.len();
    let last = tl - needle.len();
    let mut i: usize = 0;
    while i <= last
        invariant
            0 <= i <= last + 1,
            last < tl,
            tl == text@.len(),
            last + needle@.len() == text@.len(),
            forall|j: int| 0 <= j < i ==> #[trigger] text@.subrange(j, j + needle@.len()) != needle@,
        decreases last + 1 - i,
    {
        if occurs_at(text, needle, i) {
            return true;
        }
        i = i + 1;
    }
    false
}

} // verus!
