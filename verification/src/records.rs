//! The text forms a lease takes in persistent storage: the client identity
//! and the lease state, written and read back.

use vstd::prelude::*;

use crate::addr::{law_mac_text_roundtrip, spec_client_text, spec_mac_array, spec_parse_mac, ClientId, ClientKey, MacAddr};
use crate::api::{has_prefix, parse_client as parse_client_form, spec_parse_client};
use crate::capture::law_hex_roundtrip;
use crate::lease::LeaseState;
use crate::parse::{law_ipv4_text_roundtrip, parse_ipv4, push_ipv4, spec_ipv4_text, spec_parse_ipv4};
use crate::text::{chars_of, spec_hex, string_from_chars};

verus! {

/// A client identity as stored: a MAC as `ac:1f:6b:8e:00:01`, an option 61
/// as `opt61:` and hexadecimal. It reads back as the same identity.
pub fn client_text(c: &ClientId) -> (r: String)
    ensures
        r@ == spec_client_text(c@),
{
    c.to_text()
}

/// A stored client identity read back. What we wrote reads back as it was;
/// text that does not read was changed by someone else, and is kept as an
/// option 61 of its own bytes rather than lost.
pub open spec fn spec_parse_stored_client(s: Seq<char>) -> ClientKey {
    match spec_parse_client(s) {
        Some(c) => c,
        None => ClientKey::Opt61(vstd::utf8::encode_utf8(s)),
    }
}

pub fn parse_client(s: &str) -> (r: ClientId)
    ensures
        r@ == spec_parse_stored_client(s@),
{
    match parse_client_form(s) {
        Some(c) => c,
        None => {
            let b = s.as_bytes();
            ClientId::Opt61(crate::addr::copy_bytes(b))
        },
    }
}

/// A lease state as stored.
pub open spec fn spec_state_text(s: LeaseState) -> Seq<char> {
    match s {
        LeaseState::Offered => "offered"@,
        LeaseState::Bound => "bound"@,
        LeaseState::Free => "free"@,
        LeaseState::Declined => "declined"@,
    }
}

pub fn state_text(s: LeaseState) -> (r: &'static str)
    ensures
        r@ == spec_state_text(s),
{
    match s {
        LeaseState::Offered => "offered",
        LeaseState::Bound => "bound",
        LeaseState::Free => "free",
        LeaseState::Declined => "declined",
    }
}

/// A stored lease state read back; anything unknown is taken as bound,
/// the state that keeps the address from being handed out twice.
pub open spec fn spec_parse_state(s: Seq<char>) -> LeaseState {
    if s == "offered"@ {
        LeaseState::Offered
    } else if s == "free"@ {
        LeaseState::Free
    } else if s == "declined"@ {
        LeaseState::Declined
    } else {
        LeaseState::Bound
    }
}

fn same_text(a: &Vec<char>, b: &str) -> (r: bool)
    ensures
        r == (a@ == b@),
{
    let bc = chars_of(b);
    if a.len() != bc.len() {
        return false;
    }
    let mut i: usize = 0;
    while i < a.len()
        invariant
            0 <= i <= a@.len(),
            a@.len() == bc@.len(),
            bc@ == b@,
            forall|j: int| 0 <= j < i ==> a@[j] == bc@[j],
        decreases a@.len() - i,
    {
        if a[i] != bc[i] {
            return false;
        }
        i = i + 1;
    }
    proof {
        assert(a@ =~= bc@);
    }
    true
}

pub fn parse_state(s: &str) -> (r: LeaseState)
    ensures
        r == spec_parse_state(s@),
{
    let cs = chars_of(s);
    if same_text(&cs, "offered") {
        LeaseState::Offered
    } else if same_text(&cs, "free") {
        LeaseState::Free
    } else if same_text(&cs, "declined") {
        LeaseState::Declined
    } else {
        LeaseState::Bound
    }
}

/// An address as stored: its dotted quad.
pub fn ip_text(ip: u32) -> (r: String)
    ensures
        r@ == spec_ipv4_text(ip),
{
    let mut out: Vec<char> = Vec::new();
    push_ipv4(&mut out, ip);
    string_from_chars(out.as_slice())
}

/// A stored address read back. Text that does not read as an address was
/// changed by someone else, and reads as 0.0.0.0.
pub open spec fn spec_parse_stored_ip(s: Seq<char>) -> u32 {
    match spec_parse_ipv4(s) {
        Some(ip) => ip,
        None => 0,
    }
}

pub fn parse_ip(s: &str) -> (r: u32)
    ensures
        r == spec_parse_stored_ip(s@),
{
    let cs = chars_of(s);
    match parse_ipv4(cs.as_slice()) {
        Some(ip) => ip,
        None => 0,
    }
}

/// A stored address reads back as itself.
pub proof fn law_ip_roundtrip(ip: u32)
    ensures
        spec_parse_stored_ip(spec_ipv4_text(ip)) == ip,
{
    law_ipv4_text_roundtrip(ip);
}

/// A stored state reads back as itself.
pub proof fn law_state_roundtrip(s: LeaseState)
    ensures
        spec_parse_state(spec_state_text(s)) == s,
{
    reveal_strlit("offered");
    reveal_strlit("bound");
    reveal_strlit("free");
    reveal_strlit("declined");
    assert("bound"@ != "offered"@) by {
        assert("bound"@.len() != "offered"@.len());
    }
    assert("bound"@ != "free"@) by {
        assert("bound"@[0] != "free"@[0]);
    }
    assert("bound"@ != "declined"@) by {
        assert("bound"@.len() != "declined"@.len());
    }
    assert("free"@ != "offered"@) by {
        assert("free"@.len() != "offered"@.len());
    }
    assert("declined"@ != "offered"@) by {
        assert("declined"@.len() != "offered"@.len());
    }
    assert("declined"@ != "free"@) by {
        assert("declined"@.len() != "free"@.len());
    }
}

/// A stored client identity reads back as itself; an option 61 must not be
/// empty (an empty one is never used as an identity: the MAC is).
pub proof fn law_client_roundtrip(c: ClientKey)
    requires
        c matches ClientKey::Opt61(raw) ==> raw.len() > 0,
    ensures
        spec_parse_stored_client(spec_client_text(c)) == c,
{
    reveal_strlit("opt61:");
    match c {
        ClientKey::Opt61(raw) => {
            let t = spec_client_text(c);
            assert(t.take(6) =~= "opt61:"@);
            assert(t.skip(6) =~= spec_hex(raw));
            law_hex_roundtrip(raw);
        },
        ClientKey::Mac(m) => {
            law_mac_text_roundtrip(m);
            let t = spec_client_text(c);
            assert(t[0] == crate::addr::spec_mac_text_upto(m.0@, 1)[0]) by {
                assert(crate::addr::spec_mac_text_upto(m.0@, 6) =~= crate::addr::spec_mac_text_upto(m.0@, 5) + seq![':'] + crate::text::spec_hex_byte(m.0@[5]));
                lemma_text_head(m.0@, 6);
            }
            assert(!has_prefix(t, "opt61:"@)) by {
                if has_prefix(t, "opt61:"@) {
                    assert(t.take(6)[0] == 'o');
                    assert(t[0] == 'o');
                }
            }
        },
    }
}

/// The text of a MAC starts with the first digit of its first byte, never
/// with `o`.
proof fn lemma_text_head(b: Seq<u8>, n: int)
    requires
        1 <= n <= 6,
        b.len() == 6,
    ensures
        crate::addr::spec_mac_text_upto(b, n)[0] == crate::addr::spec_mac_text_upto(b, 1)[0],
        crate::addr::spec_mac_text_upto(b, n).len() > 0,
        crate::addr::spec_mac_text_upto(b, 1)[0] != 'o',
    decreases n,
{
    if n > 1 {
        lemma_text_head(b, n - 1);
    }
}

} // verus!
