//! Password digests through the external hashing collaborator.
//!
//! Passwords are never stored: registration digests the password and
//! the registry only ever sees digests.  The digest is the encoded
//! argon2 hash of the password under this system's fixed salt, so a
//! login client computes the same digest from the same password and
//! authentication compares digests for equality.
use vstd::prelude::*;

verus! {

/// The encoded hash that the argon2 collaborator computes from a
/// password and a salt.  With a fixed configuration it is a function of
/// the two arguments alone.
pub uninterp spec fn argon2_hash_of(pwd: Seq<char>, salt: Seq<char>) -> Seq<char>;

/// The digest stored and compared for this system's accounts: the
/// argon2 hash of the password under the system's fixed salt.
pub open spec fn spec_digest_of(pwd: Seq<char>) -> Seq<char> {
    argon2_hash_of(pwd, "rust_messaging"@)
}

/// Relies on `argon2::hash_encoded` of the rust-argon2 crate: with the
/// default configuration the result is a deterministic function of the
/// password and salt bytes, and the call returns `Ok` whenever the salt
/// is between 8 and 2^32 - 1 bytes and the password at most
/// 2^32 - 1 bytes.  The bounds below are on character counts: a salt
/// of 8 characters is at least 8 bytes, and a text of fewer than 2^30
/// characters is fewer than 2^32 bytes.
#[verifier::external_body]
fn hash_encoded_with(pwd: &str, salt: &str) -> (r: String)
    requires
        8 <= salt@.len() < 0x4000_0000,
        pwd@.len() < 0x4000_0000,
    ensures
        r@ == argon2_hash_of(pwd@, salt@),
{
    argon2::hash_encoded(pwd.as_bytes(), salt.as_bytes(), &argon2::Config::default()).unwrap()
}

/// Digest a password for storage or for a login request.
///
/// The client computes this over the password it read before sending a
/// login envelope, and the registration handler computes it before
/// storing a new account, so the two sides agree on the digest.
pub fn digest_password(pwd: &str) -> (r: String)
    requires
        pwd@.len() < 0x4000_0000,
    ensures
        r@ == spec_digest_of(pwd@),
{
    let salt = "rust_messaging";
    proof {
        reveal_strlit("rust_messaging");
    }
    hash_encoded_with(pwd, salt)
}

} // verus!
