//! The hash of a world's seed that clients are told.
use sha2::{Digest, Sha256};
use vstd::prelude::*;
use vstd::slice::slice_subrange;

use crate::num;

verus! {

/// The SHA-256 digest of the bytes.
pub uninterp spec fn sha256(bytes: Seq<u8>) -> Seq<u8>;

/// `Digest::digest` of `Sha256`: the digest of the bytes, which has thirty-two bytes.
#[verifier::external_body]
fn sha256_digest(bytes: &[u8]) -> (r: Vec<u8>)
    ensures
        r@ == sha256(bytes@),
        r@.len() == 32,
{
    Sha256::digest(bytes).to_vec()
}

/// The first eight bytes of a digest as a signed number.
pub open spec fn leading_i64(digest: Seq<u8>) -> i64 {
    num::signed64(num::be_value(digest.take(8)) as int)
}

/// The first eight bytes of a digest as a signed number.
pub fn leading_number(digest: &[u8]) -> (r: i64)
    requires
        digest@.len() >= 8,
    ensures
        r == leading_i64(digest@),
{
    let head = slice_subrange(digest, 0, 8);
    proof {
        assert(head@ =~= digest@.take(8));
        num::be_read_write(head@);
        num::lemma_pow256_values();
    }
    num::bits_i64(num::read_be(head) as u64)
}

/// The hash of a seed: the start of the digest of its eight bytes.
pub fn hash_seed(seed: i64) -> (r: i64)
    ensures
        r == leading_i64(sha256(num::be_bytes(num::twos64(seed as int), 8))),
{
    let mut bytes: Vec<u8> = Vec::new();
    num::push_be(&mut bytes, num::i64_bits(seed) as u128, 8);
    assert(bytes@ =~= num::be_bytes(num::twos64(seed as int), 8));
    leading_number(sha256_digest(bytes.as_slice()).as_slice())
}

} // verus!
