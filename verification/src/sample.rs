//! The one randomized step of the engine: drawing the mine positions. The
//! draw itself is delegated to the rand crate that notan re-exports; only
//! what holds of every outcome is stated of it.

use vstd::prelude::*;
use notan::random::rand::seq::IteratorRandom;

verus! {

/// Relies on rand's `IteratorRandom::choose_multiple` (rand is re-exported
/// by notan), seeded from the thread-local generator `rand::rng`: it samples
/// elements of distinct positions of the iterator, returning `amount` of
/// them, or every element when the iterator holds fewer than `amount`.
#[verifier::external_body]
pub(crate) fn choose_distinct(candidates: &Vec<usize>, amount: usize) -> (r: Vec<usize>)
    requires
        forall|i: int, j: int|
            0 <= i < j < candidates@.len() ==> candidates@[i] != candidates@[j],
    ensures
        r@.len() == if amount <= candidates@.len() {
            amount as int
        } else {
            candidates@.len() as int
        },
        forall|k: int| 0 <= k < r@.len() ==> candidates@.contains(#[trigger] r@[k]),
        forall|i: int, j: int| 0 <= i < j < r@.len() ==> r@[i] != r@[j],
{
    let mut rng = notan::random::rand::rng();
    candidates.iter().copied().choose_multiple(&mut rng, amount)
}

} // verus!
