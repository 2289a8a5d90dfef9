//! BLAKE2b digests of 32 bytes.
use blake2::digest::{Update, VariableOutput};
use blake2::Blake2bVar;
use vstd::prelude::*;

use crate::types::BlockHash;

verus! {

/// The unkeyed BLAKE2b digest, 32 bytes long, of a message.
pub uninterp spec fn blake2b_256(message: Seq<u8>) -> Seq<u8>;

/// Calls `Blake2bVar` of the `blake2` crate: a hasher made for 32 bytes of
/// output takes the whole message and fills a buffer of that size.
/// Trusted: the digest is 32 bytes long and depends on the message alone.
#[verifier::external_body]
fn blake2b(message: &Vec<u8>) -> (r: Vec<u8>)
    ensures
        r@ == blake2b_256(message@),
        r@.len() == 32,
{
    let mut out = vec![0u8; 32];
    let mut hasher = Blake2bVar::new(out.len()).expect("32 bytes is a valid digest length");
    hasher.update(message);
    hasher.finalize_variable(&mut out).expect("the buffer has the digest length");
    out
}

/// The block hash whose bytes are the digest of `message`.
pub fn digest_hash(message: &Vec<u8>) -> (r: BlockHash)
    ensures
        r.bytes() == blake2b_256(message@),
        r == BlockHash::of_bytes(blake2b_256(message@)),
{
    let digest = blake2b(message);
    BlockHash::from_bytes(&digest)
}

}
