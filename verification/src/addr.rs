//! Client identity (MAC, option 61) and IPv4 address ranges.
//!
//! IPv4 addresses are carried as host-order `u32` values throughout the
//! library: `a.b.c.d` is `a << 24 | b << 16 | c << 8 | d`.

use vstd::prelude::*;

use crate::text::{
    chars_of, hex_value, push_hex_byte, spec_hex, spec_hex_byte, spec_hex_value, string_from_chars,
};

verus! {

broadcast use vstd::array::group_array_axioms;

/// The `u32` value of the dotted quad `a.b.c.d`.
pub open spec fn spec_ipv4(a: u8, b: u8, c: u8, d: u8) -> u32 {
    (a as int * 0x100_0000 + b as int * 0x1_0000 + c as int * 0x100 + d as int) as u32
}

/// Builds the address `a.b.c.d`.
pub fn ipv4(a: u8, b: u8, c: u8, d: u8) -> (r: u32)
    ensures
        r == spec_ipv4(a, b, c, d),
        r as int == a as int * 0x100_0000 + b as int * 0x1_0000 + c as int * 0x100 + d as int,
{
    (a as u32) * 0x100_0000 + (b as u32) * 0x1_0000 + (c as u32) * 0x100 + (d as u32)
}

/// An Ethernet MAC address.
#[derive(Clone, Copy, PartialEq, Eq, Hash, PartialOrd, Ord, Debug)]
pub struct MacAddr(pub [u8; 6]);

impl MacAddr {
    /// The first six bytes of `bytes`, if there are that many.
    pub fn from_slice(bytes: &[u8]) -> (r: Option<MacAddr>)
        ensures
            bytes@.len() >= 6 <==> r is Some,
            r matches Some(m) ==> m.0@ == bytes@.take(6),
    {
        if bytes.len() < 6 {
            return None;
        }
        let arr: [u8; 6] = [bytes[0], bytes[1], bytes[2], bytes[3], bytes[4], bytes[5]];
        proof {
            assert(arr@ =~= bytes@.take(6));
        }
        Some(MacAddr(arr))
    }

    /// The vendor OUI: the first three bytes.
    pub fn oui(&self) -> (r: [u8; 3])
        ensures
            r@ == self.0@.take(3),
    {
        let r = [self.0[0], self.0[1], self.0[2]];
        proof {
            assert(r@ =~= self.0@.take(3));
        }
        r
    }

    /// Whether the locally-administered bit (bit 1 of the first byte) is set.
    pub fn is_locally_administered(&self) -> (r: bool)
        ensures
            r == (self.0@[0] & 2u8 != 0),
    {
        self.0[0] & 0b0000_0010 != 0
    }

    /// The all-zero address, used where a packet carries no hardware address.
    pub fn zero() -> (r: MacAddr)
        ensures
            r.0@ == seq![0u8, 0u8, 0u8, 0u8, 0u8, 0u8],
    {
        let r = MacAddr([0u8; 6]);
        proof {
            assert(r.0@ =~= seq![0u8, 0u8, 0u8, 0u8, 0u8, 0u8]);
        }
        r
    }

    /// Whether every byte is zero.
    pub fn is_zero(&self) -> (r: bool)
        ensures
            r == (forall|i: int| 0 <= i < 6 ==> self.0@[i] == 0u8),
    {
        let b = self.0;
        let r = b[0] == 0 && b[1] == 0 && b[2] == 0 && b[3] == 0 && b[4] == 0 && b[5] == 0;
        proof {
            if !r {
                if b[0] != 0 { assert(self.0@[0] != 0u8); }
                else if b[1] != 0 { assert(self.0@[1] != 0u8); }
                else if b[2] != 0 { assert(self.0@[2] != 0u8); }
                else if b[3] != 0 { assert(self.0@[3] != 0u8); }
                else if b[4] != 0 { assert(self.0@[4] != 0u8); }
                else { assert(self.0@[5] != 0u8); }
            }
        }
        r
    }

    /// Whether every byte is `0xff` (the broadcast address).
    pub fn is_broadcast(&self) -> (r: bool)
        ensures
            r == (forall|i: int| 0 <= i < 6 ==> self.0@[i] == 0xffu8),
    {
        let b = self.0;
        let r = b[0] == 0xff && b[1] == 0xff && b[2] == 0xff && b[3] == 0xff && b[4] == 0xff
            && b[5] == 0xff;
        proof {
            if !r {
                if b[0] != 0xff { assert(self.0@[0] != 0xffu8); }
                else if b[1] != 0xff { assert(self.0@[1] != 0xffu8); }
                else if b[2] != 0xff { assert(self.0@[2] != 0xffu8); }
                else if b[3] != 0xff { assert(self.0@[3] != 0xffu8); }
                else if b[4] != 0xff { assert(self.0@[4] != 0xffu8); }
                else { assert(self.0@[5] != 0xffu8); }
            }
        }
        r
    }

    /// The conventional text form, `ac:1f:6b:8e:00:01`.
    pub fn to_text(&self) -> (r: String)
        ensures
            r@ == spec_mac_text(self.0@),
    {
        let v = self.text_chars();
        string_from_chars(v.as_slice())
    }

    /// The characters of [`MacAddr::to_text`].
    pub fn text_chars(&self) -> (r: Vec<char>)
        ensures
            r@ == spec_mac_text(self.0@),
    {
        let mut out: Vec<char> = Vec::new();
        let mut i: usize = 0;
        while i < 6
            invariant
                0 <= i <= 6,
                out@ == spec_mac_text_upto(self.0@, i as int),
            decreases 6 - i,
        {
            if i > 0 {
                out.push(':');
            }
            push_hex_byte(&mut out, self.0[i]);
            i = i + 1;
            proof {
                assert(out@ =~= spec_mac_text_upto(self.0@, i as int));
            }
        }
        out
    }

    /// Parses a MAC address leniently: the separators `:` `-` `.` are
    /// ignored wherever they stand, and what remains must be exactly twelve
    /// hexadecimal digits of either case.
    pub fn parse(s: &str) -> (r: Option<MacAddr>)
        ensures
            r is Some <==> spec_parse_mac(s@) is Some,
            r matches Some(m) ==> spec_parse_mac(s@) == Some(m.0@),
    {
        let cs = chars_of(s);
        MacAddr::parse_chars(cs.as_slice())
    }

    /// [`MacAddr::parse`] on characters.
    pub fn parse_chars(cs: &[char]) -> (r: Option<MacAddr>)
        ensures
            r is Some <==> spec_parse_mac(cs@) is Some,
            r matches Some(m) ==> spec_parse_mac(cs@) == Some(m.0@),
    {
        let mut digits: Vec<u8> = Vec::new();
        let mut i: usize = 0;
        while i < cs.len()
            invariant
                0 <= i <= cs@.len(),
                spec_mac_digits(cs@.take(i as int)) matches Some(d) ==> digits@ == d,
                spec_mac_digits(cs@.take(i as int)) is Some,
                digits@.len() <= 12,
                forall|j: int| 0 <= j < digits@.len() ==> digits@[j] < 16,
            decreases cs@.len() - i,
        {
            let c = cs[i];
            proof {
                assert(cs@.take(i + 1).drop_last() =~= cs@.take(i as int));
            }
            if c == ':' || c == '-' || c == '.' {
            } else {
                match hex_value(c) {
                    Some(v) => {
                        if digits.len() == 12 {
                            proof {
                                lemma_mac_digits_too_many(cs@, i as int);
                            }
                            return None;
                        }
                        digits.push(v);
                    },
                    None => {
                        proof {
                            lemma_mac_digits_bad(cs@, i as int);
                        }
                        return None;
                    },
                }
            }
            i = i + 1;
        }
        proof {
            assert(cs@.take(cs@.len() as int) =~= cs@);
        }
        if digits.len() != 12 {
            return None;
        }
        let mut arr = [0u8; 6];
        let mut k: usize = 0;
        while k < 6
            invariant
                0 <= k <= 6,
                digits@.len() == 12,
                forall|j: int| 0 <= j < 12 ==> digits@[j] < 16,
                forall|j: int| 0 <= j < k ==> arr@[j] == (digits@[2 * j] * 16 + digits@[2 * j + 1]) as u8,
            decreases 6 - k,
        {
            arr[k] = digits[2 * k] * 16 + digits[2 * k + 1];
            k = k + 1;
        }
        proof {
            assert(arr@ =~= spec_mac_bytes(digits@));
        }
        Some(MacAddr(arr))
    }
}

/// The text form of the first `n` bytes of a MAC: `n` hex pairs joined by `:`.
pub open spec fn spec_mac_text_upto(b: Seq<u8>, n: int) -> Seq<char>
    decreases n,
{
    if n <= 0 {
        Seq::empty()
    } else if n == 1 {
        spec_hex_byte(b[0])
    } else {
        spec_mac_text_upto(b, n - 1) + seq![':'] + spec_hex_byte(b[n - 1])
    }
}

/// `ac:1f:6b:8e:00:01`.
pub open spec fn spec_mac_text(b: Seq<u8>) -> Seq<char> {
    spec_mac_text_upto(b, 6)
}

pub open spec fn is_mac_separator(c: char) -> bool {
    c == ':' || c == '-' || c == '.'
}

/// The hexadecimal digit values of `cs` with the separators dropped, or
/// `None` if some other character occurs or there are more than twelve.
pub open spec fn spec_mac_digits(cs: Seq<char>) -> Option<Seq<u8>>
    decreases cs.len(),
{
    if cs.len() == 0 {
        Some(Seq::empty())
    } else {
        match spec_mac_digits(cs.drop_last()) {
            None => None,
            Some(d) => {
                let c = cs.last();
                if is_mac_separator(c) {
                    Some(d)
                } else {
                    match spec_hex_value(c) {
                        None => None,
                        Some(v) => if d.len() >= 12 { None } else { Some(d.push(v)) },
                    }
                }
            },
        }
    }
}

/// Six bytes from twelve digit values, high nibble first.
pub open spec fn spec_mac_bytes(d: Seq<u8>) -> Seq<u8> {
    Seq::new(6, |j: int| (d[2 * j] * 16 + d[2 * j + 1]) as u8)
}

/// The six bytes that [`MacAddr::parse`] reads from `cs`, if it accepts it.
pub open spec fn spec_parse_mac(cs: Seq<char>) -> Option<Seq<u8>> {
    match spec_mac_digits(cs) {
        Some(d) => if d.len() == 12 { Some(spec_mac_bytes(d)) } else { None },
        None => None,
    }
}

proof fn lemma_mac_digits_prefix_none(cs: Seq<char>, i: int)
    requires
        0 <= i <= cs.len(),
        spec_mac_digits(cs.take(i)) is None,
    ensures
        spec_mac_digits(cs) is None,
    decreases cs.len() - i,
{
    if i < cs.len() {
        assert(cs.take(i + 1).drop_last() =~= cs.take(i));
        lemma_mac_digits_prefix_none(cs, i + 1);
    } else {
        assert(cs.take(i) =~= cs);
    }
}

proof fn lemma_mac_digits_too_many(cs: Seq<char>, i: int)
    requires
        0 <= i < cs.len(),
        spec_mac_digits(cs.take(i)) matches Some(d) && d.len() == 12,
        spec_hex_value(cs[i]) is Some,
        !is_mac_separator(cs[i]),
    ensures
        spec_mac_digits(cs) is None,
{
    assert(cs.take(i + 1).drop_last() =~= cs.take(i));
    lemma_mac_digits_prefix_none(cs, i + 1);
}

proof fn lemma_mac_digits_bad(cs: Seq<char>, i: int)
    requires
        0 <= i < cs.len(),
        spec_mac_digits(cs.take(i)) is Some,
        spec_hex_value(cs[i]) is None,
        !is_mac_separator(cs[i]),
    ensures
        spec_mac_digits(cs) is None,
{
    assert(cs.take(i + 1).drop_last() =~= cs.take(i));
    lemma_mac_digits_prefix_none(cs, i + 1);
}

} // verus!

verus! {

/// How a client is identified.
///
/// RFC 2131: when a client sends option 61 (client identifier) the server
/// must index its lease by that, not by `chaddr` - otherwise the same machine
/// gets a different lease after swapping NICs, and PXE firmware and the
/// installed OS often use different identities.
#[derive(Debug, PartialEq, Eq, Hash)]
pub enum ClientId {
    /// The raw bytes of option 61.
    Opt61(Vec<u8>),
    /// The hardware address, used when there is no option 61.
    Mac(MacAddr),
}

/// The mathematical value of a [`ClientId`].
pub enum ClientKey {
    Opt61(Seq<u8>),
    Mac(MacAddr),
}

impl View for ClientId {
    type V = ClientKey;

    open spec fn view(&self) -> ClientKey {
        match self {
            ClientId::Opt61(raw) => ClientKey::Opt61(raw@),
            ClientId::Mac(m) => ClientKey::Mac(*m),
        }
    }
}

/// Option 61 in the common `01 + MAC` form (hardware type 1 followed by six
/// bytes of Ethernet address) names the same device as that bare MAC.
pub open spec fn is_ethernet_opt61(raw: Seq<u8>) -> bool {
    raw.len() == 7 && raw[0] == 1u8
}

/// The identity that [`ClientId::from_parts`] builds.
pub open spec fn spec_client_from_parts(opt61: Option<Seq<u8>>, mac: MacAddr) -> ClientKey {
    match opt61 {
        Some(raw) => if is_ethernet_opt61(raw) {
            ClientKey::Mac(MacAddr(spec_mac_array(raw.subrange(1, 7))))
        } else {
            ClientKey::Opt61(raw)
        },
        None => ClientKey::Mac(mac),
    }
}

/// The six-byte array whose view is `b` (which has six elements).
pub open spec fn spec_mac_array(b: Seq<u8>) -> [u8; 6] {
    choose|a: [u8; 6]| a@ == b
}

/// The text form of a client identity: a MAC as `ac:1f:6b:8e:00:01`, an
/// option 61 as `opt61:` followed by its bytes in lower-case hexadecimal.
pub open spec fn spec_client_text(c: ClientKey) -> Seq<char> {
    match c {
        ClientKey::Mac(m) => spec_mac_text(m.0@),
        ClientKey::Opt61(raw) => seq!['o', 'p', 't', '6', '1', ':'] + spec_hex(raw),
    }
}

/// A copy of `v`, element for element.
pub fn copy_bytes(v: &[u8]) -> (r: Vec<u8>)
    ensures
        r@ == v@,
{
    let mut out: Vec<u8> = Vec::new();
    let mut i: usize = 0;
    while i < v.len()
        invariant
            0 <= i <= v@.len(),
            out@ == v@.take(i as int),
        decreases v@.len() - i,
    {
        out.push(v[i]);
        i = i + 1;
        proof {
            assert(out@ =~= v@.take(i as int));
        }
    }
    proof {
        assert(v@.take(v@.len() as int) =~= v@);
    }
    out
}

/// Whether two byte slices hold the same bytes.
pub fn bytes_equal(a: &[u8], b: &[u8]) -> (r: bool)
    ensures
        r == (a@ == b@),
{
    if a.len() != b.len() {
        return false;
    }
    let mut i: usize = 0;
    while i < a.len()
        invariant
            0 <= i <= a@.len(),
            a@.len() == b@.len(),
            a@.take(i as int) == b@.take(i as int),
        decreases a@.len() - i,
    {
        if a[i] != b[i] {
            return false;
        }
        proof {
            assert(a@.take(i + 1) =~= a@.take(i as int).push(a@[i as int]));
            assert(b@.take(i + 1) =~= b@.take(i as int).push(b@[i as int]));
        }
        i = i + 1;
    }
    proof {
        assert(a@.take(a@.len() as int) =~= a@);
        assert(b@.take(b@.len() as int) =~= b@);
    }
    true
}

impl Clone for ClientId {
    fn clone(&self) -> (r: Self)
        ensures
            r@ == self@,
    {
        match self {
            ClientId::Opt61(raw) => ClientId::Opt61(copy_bytes(raw.as_slice())),
            ClientId::Mac(m) => ClientId::Mac(*m),
        }
    }
}

impl ClientId {
    /// The identity of a client that sent `opt61` (the non-empty raw bytes of
    /// option 61, if present) with hardware address `mac`.
    ///
    /// Option 61 wins over the MAC. Its `01 + MAC` form is folded back to that
    /// MAC: udhcpc, dhclient and most BMC firmware send it, and without the
    /// fold a reservation made by MAC would never match them.
    pub fn from_parts(opt61: Option<&[u8]>, mac: MacAddr) -> (r: ClientId)
        ensures
            r@ == spec_client_from_parts(
                match opt61 {
                    Some(raw) => Some(raw@),
                    None => None,
                },
                mac,
            ),
    {
        match opt61 {
            Some(raw) => {
                if raw.len() == 7 && raw[0] == 1 {
                    let arr: [u8; 6] = [raw[1], raw[2], raw[3], raw[4], raw[5], raw[6]];
                    proof {
                        assert(arr@ =~= raw@.subrange(1, 7));
                        assert(arr == spec_mac_array(raw@.subrange(1, 7)));
                    }
                    ClientId::Mac(MacAddr(arr))
                } else {
                    ClientId::Opt61(copy_bytes(raw))
                }
            },
            None => ClientId::Mac(mac),
        }
    }

    /// Whether `self` and `other` are the same identity.
    pub fn same_as(&self, other: &ClientId) -> (r: bool)
        ensures
            r == (self@ == other@),
    {
        match (self, other) {
            (ClientId::Opt61(a), ClientId::Opt61(b)) => {
                let r = bytes_equal(a.as_slice(), b.as_slice());
                assert(r == (self@ == other@));
                r
            },
            (ClientId::Mac(a), ClientId::Mac(b)) => {
                let r = a.0[0] == b.0[0] && a.0[1] == b.0[1] && a.0[2] == b.0[2] && a.0[3] == b.0[3]
                    && a.0[4] == b.0[4] && a.0[5] == b.0[5];
                proof {
                    if r {
                        assert(a.0@ =~= b.0@);
                        assert(a.0 == b.0);
                        assert(*a == *b);
                        assert(self@ == ClientKey::Mac(*a));
                        assert(other@ == ClientKey::Mac(*b));
                    } else {
                        assert(exists|k: int| 0 <= k < 6 && a.0@[k] != b.0@[k]) by {
                            if a.0[0] != b.0[0] { assert(a.0@[0] != b.0@[0]); }
                            else if a.0[1] != b.0[1] { assert(a.0@[1] != b.0@[1]); }
                            else if a.0[2] != b.0[2] { assert(a.0@[2] != b.0@[2]); }
                            else if a.0[3] != b.0[3] { assert(a.0@[3] != b.0@[3]); }
                            else if a.0[4] != b.0[4] { assert(a.0@[4] != b.0@[4]); }
                            else { assert(a.0@[5] != b.0@[5]); }
                        }
                        assert(a.0@ != b.0@);
                    }
                }
                assert(r == (self@ == other@));
                r
            },
            _ => false,
        }
    }

    /// The text form: see [`spec_client_text`].
    pub fn to_text(&self) -> (r: String)
        ensures
            r@ == spec_client_text(self@),
    {
        match self {
            ClientId::Mac(m) => m.to_text(),
            ClientId::Opt61(raw) => {
                let mut out: Vec<char> = Vec::new();
                out.push('o');
                out.push('p');
                out.push('t');
                out.push('6');
                out.push('1');
                out.push(':');
                crate::text::push_hex(&mut out, raw.as_slice());
                proof {
                    assert(out@ =~= spec_client_text(self@));
                }
                string_from_chars(out.as_slice())
            },
        }
    }
}

/// A closed range of IPv4 addresses. Built through [`Range::new`], which
/// keeps `start <= end`.
#[derive(Clone, Copy, PartialEq, Eq, Debug, Structural)]
pub struct Range {
    pub start: u32,
    pub end: u32,
}

impl Range {
    pub open spec fn wf(self) -> bool {
        self.start <= self.end
    }

    pub open spec fn spec_contains(self, ip: u32) -> bool {
        self.start <= ip && ip <= self.end
    }

    pub open spec fn spec_overlaps(self, other: Range) -> bool {
        self.start <= other.end && other.start <= self.end
    }

    /// The addresses of the range in ascending order.
    pub open spec fn addrs(self) -> Seq<u32> {
        if self.start <= self.end {
            Seq::new((self.end - self.start + 1) as nat, |i: int| (self.start + i) as u32)
        } else {
            Seq::empty()
        }
    }

    /// `None` when `start > end`.
    pub fn new(start: u32, end: u32) -> (r: Option<Range>)
        ensures
            r is Some <==> start <= end,
            r matches Some(rg) ==> rg.start == start && rg.end == end,
    {
        if start <= end {
            Some(Range { start, end })
        } else {
            None
        }
    }

    pub fn contains(&self, ip: u32) -> (r: bool)
        ensures
            r == self.spec_contains(ip),
    {
        ip >= self.start && ip <= self.end
    }

    /// The number of addresses in the range.
    pub fn len(&self) -> (r: u64)
        requires
            self.wf(),
        ensures
            r == self.end - self.start + 1,
    {
        (self.end - self.start) as u64 + 1
    }

    /// Always `false`: a closed range holds at least one address.
    pub fn is_empty(&self) -> (r: bool)
        ensures
            r == false,
    {
        false
    }

    /// Whether the two ranges share an address.
    pub fn overlaps(&self, other: &Range) -> (r: bool)
        ensures
            r == self.spec_overlaps(*other),
    {
        self.start <= other.end && other.start <= self.end
    }

    /// The addresses of the range in ascending order.
    pub fn iter(&self) -> (r: Vec<u32>)
        ensures
            r@ == self.addrs(),
    {
        let mut out: Vec<u32> = Vec::new();
        if self.start > self.end {
            return out;
        }
        let mut ip: u64 = self.start as u64;
        while ip <= self.end as u64
            invariant
                self.start <= ip <= self.end as u64 + 1,
                out@ == self.addrs().take(ip - self.start),
            decreases self.end as u64 + 1 - ip,
        {
            out.push(ip as u32);
            ip = ip + 1;
            proof {
                assert(out@ =~= self.addrs().take(ip - self.start));
            }
        }
        proof {
            assert(out@ =~= self.addrs());
        }
        out
    }
}

} // verus!

verus! {

proof fn lemma_hex_char_value(n: int)
    requires
        0 <= n < 16,
    ensures
        spec_hex_value(crate::text::spec_hex_char(n)) == Some(n as u8),
        !is_mac_separator(crate::text::spec_hex_char(n)),
{
}

/// The twelve digit values of a MAC's bytes, high nibble first, for the
/// first `n` bytes.
pub open spec fn nibbles(b: Seq<u8>, n: int) -> Seq<u8> {
    Seq::new((2 * n) as nat, |i: int| if i % 2 == 0 { (b[i / 2] / 16) as u8 } else { (b[i / 2] % 16) as u8 })
}

proof fn lemma_digits_of_text(b: Seq<u8>, n: int)
    requires
        b.len() == 6,
        1 <= n <= 6,
    ensures
        spec_mac_digits(spec_mac_text_upto(b, n)) == Some(nibbles(b, n)),
    decreases n,
{
    let x = b[n - 1];
    lemma_hex_char_value(x as int / 16);
    lemma_hex_char_value(x as int % 16);
    let h1 = crate::text::spec_hex_char(x as int / 16);
    let h2 = crate::text::spec_hex_char(x as int % 16);
    if n == 1 {
        let t = spec_mac_text_upto(b, 1);
        assert(t =~= seq![h1].push(h2));
        assert(seq![h1] =~= Seq::<char>::empty().push(h1));
        assert(Seq::<char>::empty().push(h1).drop_last() =~= Seq::<char>::empty());
        assert(spec_mac_digits(Seq::<char>::empty()) == Some(Seq::<u8>::empty()));
        assert(spec_mac_digits(seq![h1]) == Some(Seq::<u8>::empty().push((x / 16) as u8)));
        assert(seq![h1].push(h2).drop_last() =~= seq![h1]);
        assert(spec_mac_digits(t) == Some(Seq::<u8>::empty().push((x / 16) as u8).push((x % 16) as u8)));
        assert(nibbles(b, 1) =~= Seq::<u8>::empty().push((x / 16) as u8).push((x % 16) as u8));
    } else {
        lemma_digits_of_text(b, n - 1);
        let p = spec_mac_text_upto(b, n - 1);
        let t = spec_mac_text_upto(b, n);
        let q = p.push(':');
        let r = q.push(h1);
        assert(q.drop_last() =~= p);
        assert(spec_mac_digits(q) == Some(nibbles(b, n - 1)));
        assert(nibbles(b, n - 1).len() == 2 * (n - 1));
        assert(r.drop_last() =~= q);
        assert(spec_mac_digits(r) == Some(nibbles(b, n - 1).push((x / 16) as u8)));
        assert(t =~= r.push(h2));
        assert(r.push(h2).drop_last() =~= r);
        assert(spec_mac_digits(t) == Some(nibbles(b, n - 1).push((x / 16) as u8).push((x % 16) as u8)));
        assert(nibbles(b, n) =~= nibbles(b, n - 1).push((x / 16) as u8).push((x % 16) as u8));
    }
}

/// Reading back a MAC's text form gives the MAC.
pub proof fn law_mac_text_roundtrip(m: MacAddr)
    ensures
        spec_parse_mac(spec_mac_text(m.0@)) == Some(m.0@),
        spec_mac_array(m.0@) == m.0,
{
    lemma_digits_of_text(m.0@, 6);
    let d = nibbles(m.0@, 6);
    assert(spec_mac_bytes(d) =~= m.0@);
    assert(spec_mac_array(m.0@)@ == m.0@);
}

} // verus!
