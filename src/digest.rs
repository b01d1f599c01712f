//! Derivation of the 32-byte seed from a secret and a user name.

use sha2::{Digest, Sha256};
use vstd::prelude::*;
use vstd::utf8::encode_utf8;

verus! {

/// The SHA-256 digest of a byte string.
pub uninterp spec fn sha256_of(data: Seq<u8>) -> Seq<u8>;

/// Relies on `sha2::Sha256::digest`: the 32-byte SHA-256 digest of `data`,
/// which depends on the bytes of `data` alone.
#[verifier::external_body]
fn sha256(data: &[u8]) -> (r: [u8; 32])
    ensures
        r@ == sha256_of(data@),
{
    Sha256::digest(data).into()
}

/// The bytes that are hashed into a seed: the secret first, then the user name.
pub open spec fn seed_bytes(uname: Seq<char>, key: Seq<char>) -> Seq<u8> {
    encode_utf8(key) + encode_utf8(uname)
}

/// The seed of user `uname` under the secret `key`: the SHA-256 digest of the
/// UTF-8 bytes of `key` followed by those of `uname`.
pub fn seed(uname: &str, key: &str) -> (r: [u8; 32])
    ensures
        r@ == sha256_of(seed_bytes(uname@, key@)),
{
    let kb = key.as_bytes();
    let ub = uname.as_bytes();
    let mut data: Vec<u8> = Vec::new();
    let mut i: usize = 0;
    while i < kb.len()
        invariant
            i <= kb@.len(),
            data@ == kb@.subrange(0, i as int),
        decreases kb@.len() - i,
    {
        data.push(kb[i]);
        i = i + 1;
    }
    let mut j: usize = 0;
    while j < ub.len()
        invariant
            j <= ub@.len(),
            data@ == kb@ + ub@.subrange(0, j as int),
        decreases ub@.len() - j,
    {
        data.push(ub[j]);
        j = j + 1;
    }
    assert(kb@.subrange(0, kb@.len() as int) == kb@);
    assert(ub@.subrange(0, ub@.len() as int) == ub@);
    sha256(data.as_slice())
}

} // verus!
