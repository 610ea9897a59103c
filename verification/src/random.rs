//! Random numbers.
use rand::Rng;
use vstd::prelude::*;

use crate::num;

verus! {

/// `Rng::next_u64` of the generator that `rand::rng` gives: a random number, of which nothing is
/// known. It panics if the system has no randomness to give.
#[verifier::external_body]
fn next_u64() -> u64 {
    rand::rng().next_u64()
}

/// A random signed number.
pub fn random_i64() -> i64 {
    num::bits_i64(next_u64())
}

} // verus!
