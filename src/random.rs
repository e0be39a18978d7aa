use vstd::prelude::*;
use rand::Rng;
use rand::seq::SliceRandom;
use rand::rngs::StdRng;
use crate::point::Point;

verus! {

/// rand's seedable generator, carried through the search as an opaque value.
#[verifier::external_type_specification]
#[verifier::external_body]
pub struct ExStdRng(rand::rngs::StdRng);

/// Relies on rand's `Rng::gen_range` over `lo..hi`: a value in the half-open
/// range (it panics on an empty range, which `requires` excludes).
#[verifier::external_body]
pub(crate) fn random_index(rng: &mut StdRng, lo: usize, hi: usize) -> (r: usize)
    requires
        lo < hi,
    ensures
        lo <= r < hi,
{
    rng.gen_range(lo..hi)
}

/// Relies on rand's `SliceRandom::shuffle`: the points are permuted in place.
#[verifier::external_body]
pub(crate) fn shuffle_points(rng: &mut StdRng, points: &mut Vec<Point>)
    ensures
        final(points)@.to_multiset() == old(points)@.to_multiset(),
{
    points.shuffle(rng)
}

} // verus!
