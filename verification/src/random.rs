//! The two sources of nondeterminism the server draws on: random numbers
//! for board setup and the AI, and fresh identifiers for users and rooms.

use vstd::prelude::*;

verus! {

/// Relies on rand::random_range: a value drawn from `0..n` lies below `n`.
/// (It panics on an empty range, so `n` must be positive.)
#[verifier::external_body]
pub(crate) fn random_below(n: usize) -> (r: usize)
    requires
        n >= 1,
    ensures
        r < n,
{
    rand::random_range(0..n)
}

/// Relies on uuid::Uuid::new_v4 for a fresh version-4 128-bit identifier.
/// Nothing can be promised of a random identifier.
#[verifier::external_body]
pub(crate) fn fresh_id() -> u128 {
    uuid::Uuid::new_v4().as_u128()
}

} // verus!
