//! Base64 with the URL-safe alphabet and without padding, as keys and attributes are written.

use base64::engine::general_purpose::URL_SAFE_NO_PAD;
use base64::Engine;
use vstd::prelude::*;

verus! {

/// The six bits that a character stands for, or -1 for a character outside the alphabet.
pub open spec fn sextet(c: char) -> int {
    if 'A' <= c <= 'Z' {
        c as int - 'A' as int
    } else if 'a' <= c <= 'z' {
        c as int - 'a' as int + 26
    } else if '0' <= c <= '9' {
        c as int - '0' as int + 52
    } else if c == '-' {
        62
    } else if c == '_' {
        63
    } else {
        -1
    }
}

/// `s` is the canonical encoding of some bytes: it keeps to the alphabet, no character is left
/// over on its own, and the bits of the last character beyond the last whole byte are zero.
pub open spec fn is_base64url(s: Seq<char>) -> bool {
    &&& forall|i: int| 0 <= i < s.len() ==> sextet(#[trigger] s[i]) >= 0
    &&& s.len() % 4 != 1
    &&& s.len() % 4 == 2 ==> sextet(s.last()) % 16 == 0
    &&& s.len() % 4 == 3 ==> sextet(s.last()) % 4 == 0
}

/// Byte `i` of what `s` encodes: every four characters carry three bytes.
pub open spec fn base64url_byte(s: Seq<char>, i: int) -> u8 {
    let q = 4 * (i / 3);
    if i % 3 == 0 {
        (sextet(s[q]) * 4 + sextet(s[q + 1]) / 16) as u8
    } else if i % 3 == 1 {
        ((sextet(s[q + 1]) % 16) * 16 + sextet(s[q + 2]) / 4) as u8
    } else {
        ((sextet(s[q + 2]) % 4) * 64 + sextet(s[q + 3])) as u8
    }
}

/// The bytes that `s` encodes.
pub open spec fn base64url_bytes(s: Seq<char>) -> Seq<u8> {
    Seq::new((s.len() * 3 / 4) as nat, |i: int| base64url_byte(s, i))
}

/// What `s` decodes to, or nothing where it is no canonical encoding.
pub open spec fn base64url_decoded(s: Seq<char>) -> Option<Seq<u8>> {
    if is_base64url(s) {
        Some(base64url_bytes(s))
    } else {
        None
    }
}

/// Calls `base64::Engine::decode` on `URL_SAFE_NO_PAD`. Believed of it: it accepts exactly the
/// unpadded canonical encodings over the URL-safe alphabet of RFC 4648, rejecting padding, a
/// single left-over character and set trailing bits, and gives the bytes that they encode.
#[verifier::external_body]
pub(crate) fn decode(text: &str) -> (r: Option<Vec<u8>>)
    ensures
        r is Some <==> base64url_decoded(text@) is Some,
        r is Some ==> r->0@ == base64url_decoded(text@)->0,
{
    URL_SAFE_NO_PAD.decode(text).ok()
}

/// Four characters write the same number as the three bytes that they stand for: six bits each, and
/// eight bits each, the most significant first. At the end, two characters write one byte and four
/// zero bits, three write two bytes and two.
pub proof fn law_bits(s: Seq<char>, q: int)
    requires
        is_base64url(s),
        0 <= q,
    ensures
        base64url_bytes(s).len() == s.len() * 3 / 4,
        4 * q + 4 <= s.len() ==> {
            let b = base64url_bytes(s);
            sextet(s[4 * q]) * 262144 + sextet(s[4 * q + 1]) * 4096 + sextet(s[4 * q + 2]) * 64
                + sextet(s[4 * q + 3]) == b[3 * q] * 65536 + b[3 * q + 1] * 256 + b[3 * q + 2]
        },
        4 * q + 2 == s.len() ==> sextet(s[4 * q]) * 64 + sextet(s[4 * q + 1]) == base64url_bytes(
            s,
        )[3 * q] * 16,
        4 * q + 3 == s.len() ==> {
            let b = base64url_bytes(s);
            sextet(s[4 * q]) * 4096 + sextet(s[4 * q + 1]) * 64 + sextet(s[4 * q + 2]) == (b[3 * q]
                * 256 + b[3 * q + 1]) * 4
        },
{
    let b = base64url_bytes(s);
    assert(forall|i: int| 0 <= i < s.len() ==> 0 <= #[trigger] sextet(s[i]) <= 63);
    if 4 * q + 2 <= s.len() {
        assert((3 * q) / 3 == q && (3 * q) % 3 == 0);
        assert(b[3 * q] == base64url_byte(s, 3 * q));
    }
    if 4 * q + 3 <= s.len() {
        assert((3 * q + 1) / 3 == q && (3 * q + 1) % 3 == 1);
        assert(b[3 * q + 1] == base64url_byte(s, 3 * q + 1));
    }
    if 4 * q + 4 <= s.len() {
        assert((3 * q + 2) / 3 == q && (3 * q + 2) % 3 == 2);
        assert(b[3 * q + 2] == base64url_byte(s, 3 * q + 2));
    }
}

/// The 64 characters of the alphabet stand for the numbers below 64, each for another, and no other
/// character stands for one.
pub proof fn law_alphabet(c: char, d: char)
    ensures
        sextet(c) == -1 || 0 <= sextet(c) < 64,
        sextet(c) == sextet(d) && sextet(c) >= 0 ==> c == d,
        sextet(c) >= 0 <==> 'A' <= c <= 'Z' || 'a' <= c <= 'z' || '0' <= c <= '9' || c == '-' || c
            == '_',
{
}

} // verus!
