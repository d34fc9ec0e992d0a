use rand::rngs::StdRng;
use rand::seq::{IteratorRandom, SliceRandom};
use rand::Rng;
use vstd::prelude::*;

verus! {

/// The seedable generator that every stochastic operator draws from.
#[verifier::external_type_specification]
#[verifier::external_body]
pub struct ExStdRng(StdRng);

/// Relies on `rand::seq::SliceRandom::shuffle`: it permutes the slice in
/// place (a Fisher-Yates pass of swaps), so the elements stay the same.
#[verifier::external_body]
pub(crate) fn shuffle(v: &mut Vec<usize>, rng: &mut StdRng)
    ensures
        final(v)@.len() == old(v)@.len(),
        final(v)@.to_multiset() == old(v)@.to_multiset(),
{
    v.shuffle(rng);
}

/// Relies on `rand::seq::IteratorRandom::choose`: `None` for an empty
/// iterator, else one of its items.
#[verifier::external_body]
pub(crate) fn choose_one(v: &Vec<usize>, rng: &mut StdRng) -> (r: Option<usize>)
    ensures
        r.is_none() <==> v@.len() == 0,
        r matches Some(x) ==> v@.contains(x),
{
    v.iter().copied().choose(rng)
}

/// Relies on `rand::Rng::gen_ratio`: `true` with probability
/// `numerator / denominator`; never for a zero numerator, always when the
/// two are equal. It panics unless `0 < denominator` and
/// `numerator <= denominator`.
#[verifier::external_body]
pub(crate) fn gen_ratio(rng: &mut StdRng, numerator: u32, denominator: u32) -> (r: bool)
    requires
        0 < denominator,
        numerator <= denominator,
    ensures
        numerator == 0 ==> !r,
        numerator == denominator ==> r,
{
    rng.gen_ratio(numerator, denominator)
}

} // verus!
