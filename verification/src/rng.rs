use vstd::prelude::*;

verus! {

/// The seeded generator of the `rand` crate; opaque to the proofs.
#[verifier::external_type_specification]
#[verifier::external_body]
pub struct ExStdRng(rand::rngs::StdRng);

/// Calls `rand::SeedableRng::seed_from_u64` for `StdRng`.
/// Nothing is claimed of the generator it returns.
#[verifier::external_body]
pub(crate) fn seeded_rng(seed: u64) -> rand::rngs::StdRng {
    <rand::rngs::StdRng as rand::SeedableRng>::seed_from_u64(seed)
}

/// Calls `rand::Rng::gen_range` on the half-open range `0..n`.
/// The crate documents that the value lies in the range and that an empty
/// range panics, so `n` must be positive; the value itself is left free.
#[verifier::external_body]
pub(crate) fn random_below(rng: &mut rand::rngs::StdRng, n: usize) -> (r: usize)
    requires
        n > 0,
    ensures
        r < n,
{
    rand::Rng::gen_range(rng, 0..n)
}

/// Calls `rand::seq::IteratorRandom::choose` on the iterator over `cells`.
/// That iterator knows its exact length, so the crate returns the element at
/// an index it draws below that length, and `None` only for an empty one; the
/// claim is that the cell returned is one of `cells`, which one is left free.
#[verifier::external_body]
pub(crate) fn choose_cell(rng: &mut rand::rngs::StdRng, cells: &Vec<(usize, usize)>) -> (c: (usize, usize))
    requires
        cells@.len() > 0,
    ensures
        cells@.contains(c),
{
    *rand::seq::IteratorRandom::choose(cells.iter(), rng).unwrap()
}

/// Calls `rand::seq::SliceRandom::shuffle` on the vector's slice.
/// The crate permutes the slice in place by swaps: the claim is that the
/// contents stay the same as a multiset; the order that results is left free.
#[verifier::external_body]
pub(crate) fn shuffle_cells(rng: &mut rand::rngs::StdRng, cells: &mut Vec<(usize, usize)>)
    ensures
        final(cells)@.len() == old(cells)@.len(),
        final(cells)@.to_multiset() == old(cells)@.to_multiset(),
{
    rand::seq::SliceRandom::shuffle(cells.as_mut_slice(), rng)
}

} // verus!
