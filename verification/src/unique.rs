//! Tokens and key hashes supplied by outside collaborators: process-unique
//! random values and the 32-bit key digest used to authenticate rooms.

use vstd::prelude::*;

verus! {

/// The 32-bit digest the FNV hasher computes for a string: the bytes of
/// the string decide it alone, on every machine alike.
pub uninterp spec fn fnv32_of(s: Seq<char>) -> u32;

/// Relies on hash32::FnvHasher (fed through the standard `Hash` of `str`):
/// a seedless hash, a function of the string's bytes alone.
#[verifier::external_body]
pub fn hash_from_string(s: &str) -> (r: u32)
    ensures
        r == fnv32_of(s@),
{
    let mut hasher = hash32::FnvHasher::default();
    core::hash::Hash::hash(s, &mut hasher);
    hash32::Hasher::finish32(&hasher)
}

/// Relies on rand::random: a fresh pseudo-random value; nothing can be
/// promised of it.
#[verifier::external_body]
pub fn generate_unique_u32() -> u32 {
    rand::random::<u32>()
}

/// Relies on rand::random, as the unsigned form does.
#[verifier::external_body]
pub fn generate_unique_i32() -> i32 {
    rand::random::<i32>()
}

} // verus!
