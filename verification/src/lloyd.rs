//! The clustering algorithm as mathematics: what the assignment step, the
//! update step, a restart and the choice among restarts compute, and what
//! holds of them.
use vstd::prelude::*;
use crate::histogram::{
    combine_spec, emd_spec, lemma_distances_symmetric, lemma_emd_triangle, Histogram,
    HistogramView,
};
use crate::metric::Metric;
use crate::sums::sum;

verus! {

/// The most assignment rounds that one restart runs.
pub const MAX_ITERATIONS: usize = 1_000;

/// The distortion recorded before the first round: larger than any that an
/// assignment can have.
pub const UNREACHED: u128 = 340_282_366_920_938_463_463_374_607_431_768_211_455;

/// The weight of every point before the first center is chosen: at least
/// the largest distance.
pub const FAR: u128 = 18_446_744_073_709_551_615;

/// The views of a sequence of histograms.
pub open spec fn views(hs: Seq<Histogram>) -> Seq<HistogramView> {
    hs.map_values(|h: Histogram| h@)
}

/// A sequence of indices as mathematical integers.
pub open spec fn ints(v: Seq<usize>) -> Seq<int> {
    v.map_values(|p: usize| p as int)
}

/// Every histogram is well formed and has mass to normalize by.
pub open spec fn all_readable(hs: Seq<Histogram>) -> bool {
    forall|i: int| 0 <= i < hs.len() ==> (#[trigger] hs[i]).wf() && hs[i]@.mass > 0
}

/// All histograms have `bins` bins.
pub open spec fn all_bins(hs: Seq<HistogramView>, bins: nat) -> bool {
    forall|i: int| 0 <= i < hs.len() ==> (#[trigger] hs[i]).bins.len() == bins
}

/// The state of a nearest-center search: the best center so far and the
/// point's distance to it.
pub struct Nearest {
    pub center: int,
    pub distance: nat,
}

/// The search over the centers from `j` on. A center is measured only if its
/// distance from the best center so far is less than twice the point's
/// distance to that one, and replaces it only if it is strictly nearer.
pub open spec fn scan(
    metric: Metric,
    point: HistogramView,
    centers: Seq<HistogramView>,
    j: int,
    best: Nearest,
) -> Nearest
    decreases centers.len() - j,
{
    if j < 0 || j >= centers.len() {
        best
    } else if j != best.center && metric.distance(centers[best.center], centers[j]) < 2
        * best.distance {
        let d = metric.distance(point, centers[j]);
        if d < best.distance {
            scan(metric, point, centers, j + 1, Nearest { center: j, distance: d })
        } else {
            scan(metric, point, centers, j + 1, best)
        }
    } else {
        scan(metric, point, centers, j + 1, best)
    }
}

/// The center that the pruned search settles on for `point`, starting from
/// the center `prev`, and the point's distance to it.
pub open spec fn nearest(
    metric: Metric,
    point: HistogramView,
    centers: Seq<HistogramView>,
    prev: int,
) -> Nearest {
    scan(
        metric,
        point,
        centers,
        0,
        Nearest { center: prev, distance: metric.distance(point, centers[prev]) },
    )
}

/// The search never leaves the centers, reports the point's distance to the
/// center it settles on, and never settles on a center farther than the one
/// it started from.
pub proof fn lemma_scan_improves(
    metric: Metric,
    point: HistogramView,
    centers: Seq<HistogramView>,
    j: int,
    best: Nearest,
)
    requires
        0 <= best.center < centers.len(),
        best.distance == metric.distance(point, centers[best.center]),
    ensures
        0 <= scan(metric, point, centers, j, best).center < centers.len(),
        scan(metric, point, centers, j, best).distance == metric.distance(
            point,
            centers[scan(metric, point, centers, j, best).center],
        ),
        scan(metric, point, centers, j, best).distance <= best.distance,
    decreases centers.len() - j,
{
    if 0 <= j < centers.len() {
        if j != best.center && metric.distance(centers[best.center], centers[j]) < 2
            * best.distance {
            let d = metric.distance(point, centers[j]);
            if d < best.distance {
                lemma_scan_improves(metric, point, centers, j + 1, Nearest { center: j, distance: d });
            } else {
                lemma_scan_improves(metric, point, centers, j + 1, best);
            }
        } else {
            lemma_scan_improves(metric, point, centers, j + 1, best);
        }
    }
}

/// Under the earth-mover's distance, over histograms of one bin count, the
/// pruning never passes over a nearer center: if the best so far is no
/// farther than any center before `j`, the search ends on a center that is
/// no farther than any center at all.
pub proof fn lemma_scan_finds_nearest(
    point: HistogramView,
    centers: Seq<HistogramView>,
    j: int,
    best: Nearest,
)
    requires
        all_bins(centers, point.bins.len()),
        0 <= j <= centers.len(),
        0 <= best.center < centers.len(),
        best.distance == emd_spec(point, centers[best.center]),
        forall|i: int| 0 <= i < j ==> best.distance <= emd_spec(point, #[trigger] centers[i]),
    ensures
        forall|i: int|
            0 <= i < centers.len() ==> scan(Metric::Emd, point, centers, j, best).distance
                <= emd_spec(point, #[trigger] centers[i]),
    decreases centers.len() - j,
{
    if j < centers.len() {
        let own = centers[best.center];
        let other = centers[j];
        let d = emd_spec(point, other);
        if j != best.center && emd_spec(own, other) < 2 * best.distance {
            if d < best.distance {
                lemma_scan_finds_nearest(point, centers, j + 1, Nearest { center: j, distance: d });
            } else {
                lemma_scan_finds_nearest(point, centers, j + 1, best);
            }
        } else {
            if j != best.center {
                lemma_emd_triangle(own, point, other);
                lemma_distances_symmetric(own, point);
            }
            lemma_scan_finds_nearest(point, centers, j + 1, best);
        }
    }
}

/// Under the earth-mover's distance, over histograms of one bin count, the
/// pruned search finds a nearest center.
pub proof fn lemma_nearest_is_nearest(
    point: HistogramView,
    centers: Seq<HistogramView>,
    prev: int,
)
    requires
        all_bins(centers, point.bins.len()),
        0 <= prev < centers.len(),
    ensures
        forall|i: int|
            0 <= i < centers.len() ==> nearest(Metric::Emd, point, centers, prev).distance
                <= emd_spec(point, #[trigger] centers[i]),
{
    lemma_scan_finds_nearest(
        point,
        centers,
        0,
        Nearest { center: prev, distance: emd_spec(point, centers[prev]) },
    );
}

/// The result of the assignment step: for every point the center that the
/// pruned search settles on, starting from the point's previous center.
pub open spec fn assign(
    metric: Metric,
    points: Seq<HistogramView>,
    centers: Seq<HistogramView>,
    prev: Seq<int>,
) -> Seq<Nearest> {
    Seq::new(points.len(), |i: int| nearest(metric, points[i], centers, prev[i]))
}

/// The center of each assigned point.
pub open spec fn labels_of(a: Seq<Nearest>) -> Seq<int> {
    a.map_values(|r: Nearest| r.center)
}

/// The distance of each assigned point to its center.
pub open spec fn distances_of(a: Seq<Nearest>) -> Seq<nat> {
    a.map_values(|r: Nearest| r.distance)
}

/// The total distortion of an assignment: the sum of the distances of all
/// points to their centers.
pub open spec fn distortion_of(a: Seq<Nearest>) -> nat {
    sum(distances_of(a))
}

/// Those of the first `upto` points that carry the label `p`, in order.
pub open spec fn members(
    points: Seq<HistogramView>,
    labels: Seq<int>,
    p: int,
    upto: int,
) -> Seq<HistogramView>
    decreases upto,
{
    if upto <= 0 {
        Seq::empty()
    } else if labels[upto - 1] == p {
        members(points, labels, p, upto - 1).push(points[upto - 1])
    } else {
        members(points, labels, p, upto - 1)
    }
}

/// The center of cluster `p` after the update step: the centroid of the
/// cluster's members, or the center as it was where the cluster is empty.
pub open spec fn centroid(
    points: Seq<HistogramView>,
    labels: Seq<int>,
    p: int,
    center: HistogramView,
) -> HistogramView {
    let group = members(points, labels, p, points.len() as int);
    if group.len() == 0 {
        center
    } else {
        combine_spec(group)
    }
}

/// All centers after the update step.
pub open spec fn update(
    points: Seq<HistogramView>,
    labels: Seq<int>,
    centers: Seq<HistogramView>,
) -> Seq<HistogramView> {
    Seq::new(centers.len(), |p: int| centroid(points, labels, p, centers[p]))
}

/// The state of one restart: its centers, the label of every point, and the
/// distortion it last recorded.
pub struct RunView {
    pub centers: Seq<HistogramView>,
    pub labels: Seq<int>,
    pub distortion: nat,
}

/// A restart before its first round: the seeds as centers, every point in
/// cluster zero, no distortion recorded.
pub open spec fn start(seeds: Seq<HistogramView>, n: nat) -> RunView {
    RunView { centers: seeds, labels: Seq::new(n, |i: int| 0int), distortion: UNREACHED as nat }
}

/// One round: the points are assigned anew; unless the distortion is the one
/// recorded before, the centers are updated from the new assignment.
pub open spec fn advance(metric: Metric, points: Seq<HistogramView>, s: RunView) -> RunView {
    let a = assign(metric, points, s.centers, s.labels);
    RunView {
        centers: if distortion_of(a) == s.distortion {
            s.centers
        } else {
            update(points, labels_of(a), s.centers)
        },
        labels: labels_of(a),
        distortion: distortion_of(a),
    }
}

/// The state of a restart after `t` rounds.
pub open spec fn state_at(
    metric: Metric,
    points: Seq<HistogramView>,
    seeds: Seq<HistogramView>,
    t: nat,
) -> RunView
    decreases t,
{
    if t == 0 {
        start(seeds, points.len())
    } else {
        advance(metric, points, state_at(metric, points, seeds, (t - 1) as nat))
    }
}

/// Whether round `t` recorded the distortion that the round before it had
/// recorded.
pub open spec fn stable_at(
    metric: Metric,
    points: Seq<HistogramView>,
    seeds: Seq<HistogramView>,
    t: nat,
) -> bool {
    t >= 1 && state_at(metric, points, seeds, t).distortion == state_at(
        metric,
        points,
        seeds,
        (t - 1) as nat,
    ).distortion
}

/// The first stable round from `t` on, or `cap` if there is none before it.
pub open spec fn first_stable(
    metric: Metric,
    points: Seq<HistogramView>,
    seeds: Seq<HistogramView>,
    t: nat,
    cap: nat,
) -> nat
    decreases cap - t,
{
    if t >= cap {
        cap
    } else if stable_at(metric, points, seeds, t) {
        t
    } else {
        first_stable(metric, points, seeds, t + 1, cap)
    }
}

/// The number of rounds that a restart runs: up to its first stable round,
/// and no more than `MAX_ITERATIONS`.
pub open spec fn rounds(
    metric: Metric,
    points: Seq<HistogramView>,
    seeds: Seq<HistogramView>,
) -> nat {
    first_stable(metric, points, seeds, 1, MAX_ITERATIONS as nat)
}

/// The state in which a restart ends.
pub open spec fn run(
    metric: Metric,
    points: Seq<HistogramView>,
    seeds: Seq<HistogramView>,
) -> RunView {
    state_at(metric, points, seeds, rounds(metric, points, seeds))
}

/// The best assignment known and its distortion.
pub struct BestView {
    pub labels: Seq<int>,
    pub distortion: nat,
}

/// The best over the restarts seeded by `seeds`, taken in order: a restart
/// replaces the best so far only if its distortion is strictly lower.
pub open spec fn best_of(
    metric: Metric,
    points: Seq<HistogramView>,
    seeds: Seq<Seq<HistogramView>>,
) -> BestView
    decreases seeds.len(),
{
    if seeds.len() == 0 {
        BestView { labels: Seq::new(points.len(), |i: int| 0int), distortion: UNREACHED as nat }
    } else {
        let before = best_of(metric, points, seeds.drop_last());
        let last = run(metric, points, seeds.last());
        if last.distortion < before.distortion {
            BestView { labels: last.labels, distortion: last.distortion }
        } else {
            before
        }
    }
}

/// The smaller of two numbers.
pub open spec fn lower(a: nat, b: nat) -> nat {
    if a <= b {
        a
    } else {
        b
    }
}

/// The weight of point `i` once `j` centers are chosen: its distance from
/// the nearest of them.
pub open spec fn weight(
    metric: Metric,
    points: Seq<HistogramView>,
    chosen: Seq<int>,
    j: int,
    i: int,
) -> nat
    decreases j,
{
    if j <= 0 {
        FAR as nat
    } else {
        lower(
            weight(metric, points, chosen, j - 1, i),
            metric.distance(points[chosen[j - 1]], points[i]),
        )
    }
}

/// The weights of all points once `j` centers are chosen.
pub open spec fn weights(
    metric: Metric,
    points: Seq<HistogramView>,
    chosen: Seq<int>,
    j: int,
) -> Seq<nat> {
    Seq::new(points.len(), |i: int| weight(metric, points, chosen, j, i))
}

/// Whether `chosen` is a sequence of points that the seeding can choose as
/// `k` centers: each is a point, and each after the first has a positive
/// weight when it is chosen, unless no point has one.
pub open spec fn is_seeding(
    metric: Metric,
    points: Seq<HistogramView>,
    k: nat,
    chosen: Seq<int>,
) -> bool {
    &&& chosen.len() == k
    &&& forall|j: int| 0 <= j < k ==> 0 <= #[trigger] chosen[j] < points.len()
    &&& forall|j: int|
        1 <= j < k ==> {
            ||| weight(metric, points, chosen, j, #[trigger] chosen[j]) > 0
            ||| sum(weights(metric, points, chosen, j)) == 0
        }
}

/// The chosen points, as centers.
pub open spec fn seeds_of(points: Seq<HistogramView>, chosen: Seq<int>) -> Seq<HistogramView> {
    Seq::new(chosen.len(), |j: int| points[chosen[j]])
}

/// Every label of an assignment is a center.
pub proof fn lemma_assign_in_range(
    metric: Metric,
    points: Seq<HistogramView>,
    centers: Seq<HistogramView>,
    prev: Seq<int>,
)
    requires
        prev.len() == points.len(),
        forall|i: int| 0 <= i < prev.len() ==> 0 <= #[trigger] prev[i] < centers.len(),
    ensures
        labels_of(assign(metric, points, centers, prev)).len() == points.len(),
        forall|i: int|
            0 <= i < points.len() ==> 0 <= #[trigger] labels_of(
                assign(metric, points, centers, prev),
            )[i] < centers.len(),
{
    let a = assign(metric, points, centers, prev);
    assert forall|i: int| 0 <= i < points.len() implies 0 <= #[trigger] labels_of(a)[i]
        < centers.len() by {
        lemma_scan_improves(
            metric,
            points[i],
            centers,
            0,
            Nearest { center: prev[i], distance: metric.distance(points[i], centers[prev[i]]) },
        );
    }
}

/// After any number of rounds a restart has as many centers as seeds, and
/// labels every point with one of them.
pub proof fn lemma_state_in_range(
    metric: Metric,
    points: Seq<HistogramView>,
    seeds: Seq<HistogramView>,
    t: nat,
)
    requires
        seeds.len() >= 1,
    ensures
        state_at(metric, points, seeds, t).centers.len() == seeds.len(),
        state_at(metric, points, seeds, t).labels.len() == points.len(),
        forall|i: int|
            0 <= i < points.len() ==> 0 <= #[trigger] state_at(metric, points, seeds, t).labels[i]
                < seeds.len(),
    decreases t,
{
    if t > 0 {
        let before = state_at(metric, points, seeds, (t - 1) as nat);
        lemma_state_in_range(metric, points, seeds, (t - 1) as nat);
        lemma_assign_in_range(metric, points, before.centers, before.labels);
    }
}

/// The best over any restarts, each seeded with `k >= 1` centers, labels
/// every point with a cluster below `k`.
pub proof fn lemma_best_in_range(
    metric: Metric,
    points: Seq<HistogramView>,
    seeds: Seq<Seq<HistogramView>>,
    k: nat,
)
    requires
        k >= 1,
        forall|r: int| 0 <= r < seeds.len() ==> (#[trigger] seeds[r]).len() == k,
    ensures
        best_of(metric, points, seeds).labels.len() == points.len(),
        forall|i: int|
            0 <= i < points.len() ==> 0 <= #[trigger] best_of(metric, points, seeds).labels[i] < k,
    decreases seeds.len(),
{
    if seeds.len() > 0 {
        lemma_best_in_range(metric, points, seeds.drop_last(), k);
        lemma_state_in_range(metric, points, seeds.last(), rounds(metric, points, seeds.last()));
    }
}

/// From round `t` on, no round before the first stable one is stable, and
/// the first stable one is stable unless it is the cap.
pub proof fn lemma_first_stable(
    metric: Metric,
    points: Seq<HistogramView>,
    seeds: Seq<HistogramView>,
    t: nat,
    cap: nat,
)
    requires
        t <= cap,
    ensures
        t <= first_stable(metric, points, seeds, t, cap) <= cap,
        forall|u: nat|
            t <= u < first_stable(metric, points, seeds, t, cap) ==> !stable_at(
                metric,
                points,
                seeds,
                u,
            ),
        first_stable(metric, points, seeds, t, cap) < cap ==> stable_at(
            metric,
            points,
            seeds,
            first_stable(metric, points, seeds, t, cap),
        ),
    decreases cap - t,
{
    if t < cap && !stable_at(metric, points, seeds, t) {
        lemma_first_stable(metric, points, seeds, t + 1, cap);
    }
}

/// Within a restart no round is stable before the one at which the restart
/// stops: until then the recorded distortion differs from each round to the
/// next. Where the restart stops before `MAX_ITERATIONS` rounds, its last
/// round recorded the distortion of the round before, which is the
/// distortion the restart ends with.
pub proof fn lemma_stops_when_stable(
    metric: Metric,
    points: Seq<HistogramView>,
    seeds: Seq<HistogramView>,
)
    ensures
        1 <= rounds(metric, points, seeds) <= MAX_ITERATIONS,
        forall|u: nat|
            1 <= u < rounds(metric, points, seeds) ==> !#[trigger] stable_at(
                metric,
                points,
                seeds,
                u,
            ),
        rounds(metric, points, seeds) < MAX_ITERATIONS ==> run(metric, points, seeds).distortion
            == state_at(
            metric,
            points,
            seeds,
            (rounds(metric, points, seeds) - 1) as nat,
        ).distortion,
{
    lemma_first_stable(metric, points, seeds, 1, MAX_ITERATIONS as nat);
}

/// The distortion of the best over the restarts is no higher than the
/// distortion that any one of the restarts ends with.
pub proof fn lemma_best_of_restarts(
    metric: Metric,
    points: Seq<HistogramView>,
    seeds: Seq<Seq<HistogramView>>,
    r: int,
)
    requires
        0 <= r < seeds.len(),
    ensures
        best_of(metric, points, seeds).distortion <= run(metric, points, seeds[r]).distortion,
    decreases seeds.len(),
{
    if r < seeds.len() - 1 {
        lemma_best_of_restarts(metric, points, seeds.drop_last(), r);
    }
}

/// Where every restart ends below `UNREACHED`, the best over at least one
/// restart is what one of them ended with.
pub proof fn lemma_best_is_a_restart(
    metric: Metric,
    points: Seq<HistogramView>,
    seeds: Seq<Seq<HistogramView>>,
) -> (r: int)
    requires
        seeds.len() >= 1,
        forall|i: int|
            0 <= i < seeds.len() ==> run(metric, points, #[trigger] seeds[i]).distortion
                < UNREACHED,
    ensures
        0 <= r < seeds.len(),
        best_of(metric, points, seeds).labels == run(metric, points, seeds[r]).labels,
        best_of(metric, points, seeds).distortion == run(metric, points, seeds[r]).distortion,
    decreases seeds.len(),
{
    let before = best_of(metric, points, seeds.drop_last());
    let last = run(metric, points, seeds.last());
    if last.distortion < before.distortion {
        seeds.len() - 1
    } else {
        assert(seeds.len() > 1);
        assert forall|i: int| 0 <= i < seeds.drop_last().len() implies run(
            metric,
            points,
            #[trigger] seeds.drop_last()[i],
        ).distortion < UNREACHED by {
            assert(seeds.drop_last()[i] == seeds[i]);
        }
        lemma_best_is_a_restart(metric, points, seeds.drop_last())
    }
}

/// The weight of a point does not depend on what is chosen later.
pub proof fn lemma_weight_ignores_later(
    metric: Metric,
    points: Seq<HistogramView>,
    a: Seq<int>,
    b: Seq<int>,
    j: int,
    i: int,
)
    requires
        forall|l: int| 0 <= l < j ==> a[l] == b[l],
    ensures
        weight(metric, points, a, j, i) == weight(metric, points, b, j, i),
    decreases j,
{
    if j > 0 {
        lemma_weight_ignores_later(metric, points, a, b, j - 1, i);
    }
}

/// No weight exceeds `FAR`.
pub proof fn lemma_weight_bounded(
    metric: Metric,
    points: Seq<HistogramView>,
    chosen: Seq<int>,
    j: int,
    i: int,
)
    ensures
        weight(metric, points, chosen, j, i) <= FAR,
    decreases j,
{
    if j > 0 {
        lemma_weight_bounded(metric, points, chosen, j - 1, i);
    }
}

/// A restart that has run `t >= 1` rounds of which none before the last was
/// stable, and that stops there, has run `rounds` rounds.
pub proof fn lemma_rounds_reached(
    metric: Metric,
    points: Seq<HistogramView>,
    seeds: Seq<HistogramView>,
    from: nat,
    t: nat,
)
    requires
        1 <= from <= t <= MAX_ITERATIONS,
        forall|u: nat| from <= u < t ==> !stable_at(metric, points, seeds, u),
        stable_at(metric, points, seeds, t) || t == MAX_ITERATIONS,
    ensures
        first_stable(metric, points, seeds, from, MAX_ITERATIONS as nat) == t,
    decreases t - from,
{
    if from < t {
        lemma_rounds_reached(metric, points, seeds, from + 1, t);
    }
}

} // verus!
