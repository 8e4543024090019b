//! Walking sample buffers in lock step.

use vstd::prelude::*;

verus! {

/// The samples of three buffers, position by position, up to the end of the
/// shortest buffer.
///
/// Calls `itertools::multizip` on the three buffers. Its iterator asks each
/// buffer in turn for its next sample and ends as soon as one of them has
/// none left; until then it yields the three samples of one position. This
/// is what the contract claims, and nothing here proves it.
#[verifier::external_body]
pub(crate) fn zip_samples(first: &Vec<u32>, second: &Vec<u32>, third: &Vec<u32>) -> (triples: Vec<
    (u32, u32, u32),
>)
    ensures
        triples@.len() <= first@.len(),
        triples@.len() <= second@.len(),
        triples@.len() <= third@.len(),
        triples@.len() == first@.len() || triples@.len() == second@.len() || triples@.len()
            == third@.len(),
        forall|p: int|
            0 <= p < triples@.len() ==> #[trigger] triples@[p] == (first@[p], second@[p], third@[p]),
{
    itertools::multizip((first, second, third)).map(|(a, b, c)| (*a, *b, *c)).collect()
}

} // verus!
