//! The three data-parallel phases of the clustering, each handed to `rayon`
//! item by item. Every item is worked on by a verified function of this
//! library; what is trusted is that `rayon` calls it once for each item and
//! keeps the items in their order.
use vstd::prelude::*;
use rayon::iter::{
    IndexedParallelIterator, IntoParallelRefIterator, IntoParallelRefMutIterator,
    ParallelIterator,
};
use crate::histogram::Histogram;
use crate::k_means::{
    assign_point, clusterable, is_distance_table, lower_weight, update_center,
};
use crate::lloyd::{all_readable, centroid, ints, lower, nearest, views};
use crate::metric::Metric;

verus! {

/// Runs `assign_point` on every point and its previous center, with
/// `rayon`'s `par_iter`, `zip`, `map` and `unzip`.
///
/// Trusted: the two results hold, at each index, what `assign_point` returns
/// for the point and the previous center at that index.
#[verifier::external_body]
pub(crate) fn par_assign(
    points: &Vec<Histogram>,
    prev: &Vec<usize>,
    centers: &Vec<Histogram>,
    table: &Vec<Vec<u64>>,
    metric: Metric,
) -> (r: (Vec<usize>, Vec<u64>))
    requires
        all_readable(points@),
        all_readable(centers@),
        is_distance_table(metric, views(centers@), table@),
        prev@.len() == points@.len(),
        forall|i: int| 0 <= i < prev@.len() ==> prev@[i] < centers@.len(),
    ensures
        r.0@.len() == points@.len(),
        r.1@.len() == points@.len(),
        forall|i: int|
            0 <= i < points@.len() ==> #[trigger] r.0@[i] == nearest(
                metric,
                points@[i]@,
                views(centers@),
                prev@[i] as int,
            ).center,
        forall|i: int|
            0 <= i < points@.len() ==> #[trigger] r.1@[i] == nearest(
                metric,
                points@[i]@,
                views(centers@),
                prev@[i] as int,
            ).distance,
{
    points.par_iter().zip(prev.par_iter()).map(
        |(h, p)| assign_point(h, *p, centers, table, metric),
    ).unzip()
}

/// Runs `update_center` on every center and its index, with `rayon`'s
/// `par_iter_mut`, `enumerate` and `for_each`.
///
/// Trusted: afterwards each center is what `update_center` makes of the
/// center that stood at its index.
#[verifier::external_body]
pub(crate) fn par_update_centers(
    centers: &mut Vec<Histogram>,
    points: &Vec<Histogram>,
    labels: &Vec<usize>,
)
    requires
        all_readable(old(centers)@),
        labels@.len() == points@.len(),
        clusterable(points@),
    ensures
        final(centers)@.len() == old(centers)@.len(),
        all_readable(final(centers)@),
        forall|p: int|
            0 <= p < old(centers)@.len() ==> (#[trigger] final(centers)@[p])@ == centroid(
                views(points@),
                ints(labels@),
                p,
                old(centers)@[p]@,
            ),
{
    centers.par_iter_mut().enumerate().for_each(|(p, c)| update_center(c, p, points, labels))
}

/// Runs `lower_weight` on every weight and its point, with `rayon`'s
/// `par_iter_mut`, `zip` and `for_each`.
///
/// Trusted: afterwards each weight is what `lower_weight` makes of the
/// weight that stood at its index, for the point at that index.
#[verifier::external_body]
pub(crate) fn par_lower_weights(
    weights: &mut Vec<u128>,
    center: &Histogram,
    points: &Vec<Histogram>,
    metric: Metric,
)
    requires
        old(weights)@.len() == points@.len(),
        center.wf(),
        center@.mass > 0,
        all_readable(points@),
    ensures
        final(weights)@.len() == old(weights)@.len(),
        forall|i: int|
            0 <= i < points@.len() ==> #[trigger] final(weights)@[i] == lower(
                old(weights)@[i] as nat,
                metric.distance(center@, points@[i]@),
            ),
{
    weights.par_iter_mut().zip(points.par_iter()).for_each(
        |(w, q)| lower_weight(w, center, q, metric),
    )
}

} // verus!
