use rand::rngs::StdRng;
use rand::seq::IteratorRandom;
use vstd::prelude::*;

verus! {

#[verifier::external_type_specification]
#[verifier::external_body]
pub struct ExStdRng(StdRng);

/// Relies on rand's `IteratorRandom::choose_multiple` (reservoir sampling):
/// with `amount` no larger than the pool it returns exactly `amount` items,
/// each taken from a distinct position of the pool; where `amount` is the
/// whole pool the reservoir is filled in order and never replaced.
#[verifier::external_body]
pub(crate) fn choose_multiple(pool: Vec<u64>, rng: &mut StdRng, amount: usize) -> (r: Vec<u64>)
    requires
        amount <= pool@.len(),
    ensures
        r@.len() == amount,
        forall|i: int| 0 <= i < r@.len() ==> pool@.contains(#[trigger] r@[i]),
        pool@.no_duplicates() ==> r@.no_duplicates(),
        amount == pool@.len() ==> r@ == pool@,
{
    pool.into_iter().choose_multiple(rng, amount)
}

} // verus!
