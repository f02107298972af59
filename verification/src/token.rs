//! Session tokens.
//!
//! A token is the opaque credential that proves an authenticated
//! account owns its current session: a fixed-length string of random
//! ASCII letters and digits.  Randomness promises nothing beyond the
//! alphabet and the length; in particular distinct calls are not
//! guaranteed distinct tokens, and the registry does not guard against
//! cross-account collisions.
use vstd::prelude::*;
use rand::distr::Distribution;
use crate::codec::lemma_ascii_bytes_decode;
use crate::codec::string_from_utf8;
use crate::TOKEN_LEN;

verus! {

/// True of the bytes that may appear in a session token: ASCII letters
/// and digits.
pub open spec fn is_token_byte(b: u8) -> bool {
    (65 <= b <= 90) || (97 <= b <= 122) || (48 <= b <= 57)
}

/// True of the characters that may appear in a session token.
pub open spec fn is_token_char(c: char) -> bool {
    (65 <= c as u32 <= 90) || (97 <= c as u32 <= 122) || (48 <= c as u32 <= 57)
}

/// A well-formed session token: exactly `TOKEN_LEN` alphanumeric
/// characters.
pub open spec fn is_token(s: Seq<char>) -> bool {
    s.len() == TOKEN_LEN && forall|i: int| 0 <= i < s.len() ==> is_token_char(#[trigger] s[i])
}

/// Relies on rand's `Alphanumeric` distribution: a sampled byte is one
/// of the ASCII letters or digits, whichever random values the
/// generator produced.
#[verifier::external_body]
fn sample_alphanumeric() -> (b: u8)
    ensures
        is_token_byte(b),
{
    rand::distr::Alphanumeric.sample(&mut rand::rng())
}

/// Generate a fresh session token: `TOKEN_LEN` random alphanumeric
/// characters.
pub fn create_token() -> (r: String)
    ensures
        is_token(r@),
{
    let mut bytes: Vec<u8> = Vec::new();
    let mut i: usize = 0;
    while i < TOKEN_LEN
        invariant
            i <= TOKEN_LEN,
            bytes@.len() == i,
            forall|k: int| 0 <= k < i ==> is_token_byte(#[trigger] bytes@[k]),
        decreases TOKEN_LEN - i,
    {
        bytes.push(sample_alphanumeric());
        i = i + 1;
    }
    proof {
        lemma_ascii_bytes_decode(bytes@);
    }
    let s = string_from_utf8(bytes).unwrap();
    assert(is_token(s@));
    s
}

} // verus!
