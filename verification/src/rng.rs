use vstd::prelude::*;

verus! {

#[verifier::external_type_specification]
#[verifier::external_body]
pub struct ExThreadRng(rand::rngs::ThreadRng);

/// A rank-weighted sampling distribution over population indices.  It
/// carries rand's `WeightedIndex`, whose own generic bounds Verus refuses to
/// declare, so the value is held opaquely.
#[verifier::external_body]
pub struct SelectionDist {
    dist: rand::distributions::WeightedIndex<u64>,
}

/// The weights a `SelectionDist` was built from.  rand keeps only private
/// cumulative sums of them, so the sequence can only be named, not
/// computed.
pub uninterp spec fn weights_of(dist: SelectionDist) -> Seq<u64>;

/// The total of a sequence of weights, as `WeightedIndex::new` adds them up.
pub open spec fn sum_weights(s: Seq<u64>) -> int
    decreases s.len(),
{
    if s.len() == 0 {
        0
    } else {
        sum_weights(s.drop_last()) + s.last()
    }
}

/// Relies on rand's `Rng::gen_range` over `0..n`: it panics only on an
/// empty range and otherwise returns a value of the range.
#[verifier::external_body]
pub(crate) fn rand_below(rng: &mut rand::rngs::ThreadRng, n: usize) -> (r: usize)
    requires
        n >= 1,
    ensures
        r < n,
{
    rand::Rng::gen_range(rng, 0..n)
}

/// Relies on rand's `SliceRandom::shuffle`: a Fisher-Yates pass that only
/// swaps elements of the slice in place.
#[verifier::external_body]
pub(crate) fn shuffle(data: &mut Vec<usize>, rng: &mut rand::rngs::ThreadRng)
    ensures
        final(data)@.to_multiset() == old(data)@.to_multiset(),
{
    rand::seq::SliceRandom::shuffle(data.as_mut_slice(), rng)
}

/// Relies on rand's `SliceRandom::choose`: for a non-empty slice it returns
/// `Some` of one of the slice's own elements.
#[verifier::external_body]
pub(crate) fn choose_one(options: &Vec<usize>, rng: &mut rand::rngs::ThreadRng) -> (r: usize)
    requires
        options@.len() >= 1,
    ensures
        options@.contains(r),
{
    *rand::seq::SliceRandom::choose(options.as_slice(), rng).unwrap()
}

/// Relies on rand's `WeightedIndex::new` for `u64` weights: it returns `Ok`
/// whenever at least one weight was given, the total is positive, and the
/// additions do not overflow; an unsigned weight is never negative.
#[verifier::external_body]
pub(crate) fn new_weighted_index(weights: &Vec<u64>) -> (r: SelectionDist)
    requires
        weights@.len() >= 1,
        0 < sum_weights(weights@) <= u64::MAX,
    ensures
        weights_of(r) == weights@,
{
    SelectionDist { dist: rand::distributions::WeightedIndex::new(weights.iter().copied()).unwrap() }
}

/// Relies on rand's `Distribution::sample` for `WeightedIndex`: it returns
/// the index of one of the weights the distribution was built from, and
/// only one whose weight is positive (the binary search over the
/// cumulative sums cannot land on an index they do not increase across).
#[verifier::external_body]
pub(crate) fn sample_index(dist: &SelectionDist, rng: &mut rand::rngs::ThreadRng) -> (r: usize)
    ensures
        r < weights_of(*dist).len(),
        weights_of(*dist)[r as int] > 0,
{
    rand::distributions::Distribution::sample(&dist.dist, rng)
}

} // verus!
