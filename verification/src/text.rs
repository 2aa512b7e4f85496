//! Character-level helpers for the library's text handling.

use vstd::prelude::*;

verus! {

/// The characters of `s`, in order.
pub fn chars_of(s: &str) -> (r: Vec<char>)
    ensures
        r@ == s@,
{
    let mut out: Vec<char> = Vec::new();
    for c in it: s.chars()
        invariant
            it.seq() == s@,
            out@ == it.seq().take(it.index() as int),
    {
        out.push(c);
        proof {
            assert(out@ =~= it.seq().take(it.index() + 1));
        }
    }
    proof {
        assert(out@ =~= s@);
    }
    out
}

/// Collects characters into a `String`.
///
/// Calls std's `FromIterator<char>` for `String`, which builds the string of
/// exactly the characters it is given, in order.
#[verifier::external_body]
pub(crate) fn string_from_chars(v: &[char]) -> (r: String)
    ensures
        r@ == v@,
{
    v.iter().collect()
}

/// What `String::from_utf8_lossy` makes of `bytes`.
pub uninterp spec fn utf8_lossy(bytes: Seq<u8>) -> Seq<char>;

/// Calls std's `String::from_utf8_lossy`, which decodes the bytes as UTF-8
/// and puts U+FFFD for each invalid sequence: on valid UTF-8 it gives the
/// decoded text.
#[verifier::external_body]
pub(crate) fn text_from_bytes_lossy(raw: &[u8]) -> (r: String)
    ensures
        r@ == utf8_lossy(raw@),
        vstd::utf8::valid_utf8(raw@) ==> r@ == vstd::utf8::decode_utf8(raw@),
{
    String::from_utf8_lossy(raw).into_owned()
}

} // verus!

verus! {

/// The lower-case hexadecimal digit for `n` (which is below 16).
pub open spec fn spec_hex_char(n: int) -> char {
    if n < 10 {
        (n + 48) as char
    } else {
        (n + 87) as char
    }
}

/// Two lower-case hexadecimal digits for one byte, high nibble first.
pub open spec fn spec_hex_byte(b: u8) -> Seq<char> {
    seq![spec_hex_char(b as int / 16), spec_hex_char(b as int % 16)]
}

/// Lower-case hexadecimal of a byte sequence, two digits per byte.
pub open spec fn spec_hex(bytes: Seq<u8>) -> Seq<char>
    decreases bytes.len(),
{
    if bytes.len() == 0 {
        Seq::empty()
    } else {
        spec_hex(bytes.drop_last()) + spec_hex_byte(bytes.last())
    }
}

/// The value of a hexadecimal digit of either case, if `c` is one.
pub open spec fn spec_hex_value(c: char) -> Option<u8> {
    if '0' <= c && c <= '9' {
        Some((c as int - 48) as u8)
    } else if 'a' <= c && c <= 'f' {
        Some((c as int - 87) as u8)
    } else if 'A' <= c && c <= 'F' {
        Some((c as int - 55) as u8)
    } else {
        None
    }
}

pub open spec fn is_hex_digit(c: char) -> bool {
    spec_hex_value(c) is Some
}

/// The lower-case hexadecimal digit for `n`.
pub fn hex_char(n: u8) -> (r: char)
    requires
        n < 16,
    ensures
        r == spec_hex_char(n as int),
{
    if n < 10 {
        (n + 48) as char
    } else {
        (n + 87) as char
    }
}

/// The value of `c` as a hexadecimal digit, if it is one.
pub fn hex_value(c: char) -> (r: Option<u8>)
    ensures
        r == spec_hex_value(c),
        r matches Some(v) ==> v < 16,
{
    if '0' <= c && c <= '9' {
        Some((c as u32 - 48) as u8)
    } else if 'a' <= c && c <= 'f' {
        Some((c as u32 - 87) as u8)
    } else if 'A' <= c && c <= 'F' {
        Some((c as u32 - 55) as u8)
    } else {
        None
    }
}

/// Appends the two hexadecimal digits of `b` to `out`.
pub fn push_hex_byte(out: &mut Vec<char>, b: u8)
    ensures
        final(out)@ == old(out)@ + spec_hex_byte(b),
{
    out.push(hex_char(b / 16));
    out.push(hex_char(b % 16));
    proof {
        assert(final(out)@ =~= old(out)@ + spec_hex_byte(b));
    }
}

/// Appends the hexadecimal form of `bytes` to `out`.
pub fn push_hex(out: &mut Vec<char>, bytes: &[u8])
    ensures
        final(out)@ == old(out)@ + spec_hex(bytes@),
{
    let ghost start = out@;
    let mut i: usize = 0;
    while i < bytes.len()
        invariant
            0 <= i <= bytes@.len(),
            out@ == start + spec_hex(bytes@.take(i as int)),
        decreases bytes@.len() - i,
    {
        push_hex_byte(out, bytes[i]);
        proof {
            let t = bytes@.take(i + 1);
            assert(t.drop_last() =~= bytes@.take(i as int));
            assert(t.last() == bytes@[i as int]);
        }
        i = i + 1;
        proof {
            assert(out@ =~= start + spec_hex(bytes@.take(i as int)));
        }
    }
    proof {
        assert(bytes@.take(bytes@.len() as int) =~= bytes@);
    }
}

} // verus!
