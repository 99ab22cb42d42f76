//! Random choices, made by the `rand` crate with the generator of the
//! calling thread. Nothing is known of which item a choice yields, only
//! which items it can yield.
use vstd::prelude::*;
use rand::distributions::Distribution;
use rand::seq::SliceRandom;
use crate::histogram::Histogram;
use crate::sums::{nats, sum};

verus! {

/// One of `points`, chosen uniformly by `rand::seq::SliceRandom::choose`.
///
/// Trusted: `choose` yields `None` for an empty slice and otherwise a
/// reference to one of the slice's elements.
#[verifier::external_body]
pub(crate) fn choose_point(points: &Vec<Histogram>) -> (r: Option<&Histogram>)
    ensures
        r is Some <==> points@.len() > 0,
        r matches Some(h) ==> points@.contains(*h),
{
    points.choose(&mut rand::thread_rng())
}

/// An index into `weights`, chosen with probability proportional to its
/// weight by `rand::distributions::WeightedIndex` (`new`, then `sample`).
///
/// Trusted: `WeightedIndex::new` fails for no weights and for weights that
/// are all zero, and for nothing else among unsigned weights whose sum fits
/// the weight type; `sample` then yields the index of a weight that is not
/// zero. The sum must fit because `new` adds the weights up in their own
/// type.
#[verifier::external_body]
pub(crate) fn pick_weighted(weights: &Vec<u128>) -> (r: Option<usize>)
    requires
        sum(nats(weights@)) <= u128::MAX,
    ensures
        r is None <==> sum(nats(weights@)) == 0,
        r matches Some(i) ==> i < weights@.len(),
        r matches Some(i) ==> weights@[i as int] > 0,
{
    match rand::distributions::WeightedIndex::new(weights) {
        Ok(d) => Some(d.sample(&mut rand::thread_rng())),
        Err(_) => None,
    }
}

} // verus!
