use rand::RngExt;
use rand::rngs::ThreadRng;

use vstd::prelude::*;

verus! {

/// The thread-local random generator of `rand`, carried through opaquely.
#[verifier::external_type_specification]
#[verifier::external_body]
pub struct ExThreadRng(rand::rngs::ThreadRng);

/// A uniformly drawn number in `0..n`.
///
/// Calls `RngExt::random_range` of `rand` on the range `0..n`; `rand` documents
/// that the value lies in the range and that an empty range panics (hence
/// `n > 0`). It also panics if the system generator fails while reseeding, which
/// no precondition can exclude.
#[verifier::external_body]
pub(crate) fn random_below(rng: &mut ThreadRng, n: usize) -> (r: usize)
    requires
        n > 0,
    ensures
        r < n,
{
    rng.random_range(0..n)
}

/// A fair coin.
///
/// Calls `RngExt::random_ratio(1, 2)` of `rand`, which returns `true` with
/// probability 1/2; nothing is stated of the outcome.
#[verifier::external_body]
pub(crate) fn fair_coin(rng: &mut ThreadRng) -> (r: bool) {
    rng.random_ratio(1, 2)
}

} // verus!
