//! Multi-restart k-means over histograms, with a nearest-center search
//! pruned by the distances between centers.
use vstd::prelude::*;
use crate::error::Error;
use crate::histogram::{
    absorb, accumulate, agg_spec, lemma_distances_self, lemma_distances_symmetric,
    lemma_normalized, lemma_total_prob_le_one, max_distance, view_of, Histogram, HistogramView,
    ONE,
};
use crate::lloyd::{
    advance, all_readable, assign, best_of, centroid, distances_of, ints, is_seeding, labels_of,
    lemma_assign_in_range, lemma_best_in_range, lemma_rounds_reached, lemma_weight_bounded,
    lemma_weight_ignores_later, lower, members, nearest, rounds, run, scan, seeds_of, stable_at,
    start, state_at, update, views, weight, weights, BestView, Nearest, RunView, FAR,
    MAX_ITERATIONS, UNREACHED,
};
use crate::metric::Metric;
use crate::parallel::{par_assign, par_lower_weights, par_update_centers};
use crate::sampling::{choose_point, pick_weighted};
use crate::sums::{
    lemma_prefix_sum_ends, lemma_prefix_sum_step, lemma_sum_bounded, nats, nats64, prefix_sum,
    sum,
};

verus! {

/// Whether `table` holds the distance between every two of the `centers`.
pub open spec fn is_distance_table(
    metric: Metric,
    centers: Seq<HistogramView>,
    table: Seq<Vec<u64>>,
) -> bool {
    &&& table.len() == centers.len()
    &&& forall|i: int| 0 <= i < table.len() ==> (#[trigger] table[i])@.len() == centers.len()
    &&& forall|i: int, j: int|
        0 <= i < centers.len() && 0 <= j < centers.len() ==> #[trigger] table[i]@[j]
            == metric.distance(centers[i], centers[j])
}

/// The distances between every two centers, as a square table.
pub fn calculate_center_distances(centers: &Vec<Histogram>, metric: Metric) -> (table: Vec<
    Vec<u64>,
>)
    requires
        all_readable(centers@),
    ensures
        is_distance_table(metric, views(centers@), table@),
{
    let k = centers.len();
    let ghost cs = views(centers@);
    let mut table: Vec<Vec<u64>> = Vec::new();
    let mut i: usize = 0;
    while i < k
        invariant
            k == centers@.len(),
            cs == views(centers@),
            all_readable(centers@),
            0 <= i <= k,
            table@.len() == i,
            forall|a: int| 0 <= a < i ==> (#[trigger] table@[a])@.len() == k,
            forall|a: int, b: int|
                0 <= a < i && 0 <= b < k ==> #[trigger] table@[a]@[b] == metric.distance(
                    cs[a],
                    cs[b],
                ),
        decreases k - i,
    {
        let mut row: Vec<u64> = Vec::new();
        let mut j: usize = 0;
        while j < k
            invariant
                k == centers@.len(),
                cs == views(centers@),
                all_readable(centers@),
                0 <= i < k,
                0 <= j <= k,
                table@.len() == i,
                forall|a: int| 0 <= a < i ==> (#[trigger] table@[a])@.len() == k,
                forall|a: int, b: int|
                    0 <= a < i && 0 <= b < k ==> #[trigger] table@[a]@[b] == metric.distance(
                        cs[a],
                        cs[b],
                    ),
                row@.len() == j,
                forall|b: int| 0 <= b < j ==> #[trigger] row@[b] == metric.distance(cs[i as int], cs[b]),
            decreases k - j,
        {
            proof {
                lemma_distances_symmetric(cs[i as int], cs[j as int]);
                lemma_distances_self(cs[i as int]);
            }
            let d = if j < i {
                table[j][i]
            } else if j == i {
                0
            } else {
                metric.measure(&centers[i], &centers[j])
            };
            row.push(d);
            j = j + 1;
        }
        table.push(row);
        i = i + 1;
    }
    table
}

/// The center nearest to `point` as the pruned search finds it, starting
/// from the point's previous center `prev`, with the point's distance to it.
pub fn assign_point(
    point: &Histogram,
    prev: usize,
    centers: &Vec<Histogram>,
    table: &Vec<Vec<u64>>,
    metric: Metric,
) -> (r: (usize, u64))
    requires
        point.wf(),
        point@.mass > 0,
        all_readable(centers@),
        is_distance_table(metric, views(centers@), table@),
        prev < centers@.len(),
    ensures
        r.0 < centers@.len(),
        r.0 == nearest(metric, point@, views(centers@), prev as int).center,
        r.1 == nearest(metric, point@, views(centers@), prev as int).distance,
{
    let k = centers.len();
    let ghost cs = views(centers@);
    let mut p: usize = prev;
    let mut d: u64 = metric.measure(point, &centers[p]);
    let mut j: usize = 0;
    while j < k
        invariant
            k == centers@.len(),
            cs == views(centers@),
            point.wf(),
            point@.mass > 0,
            all_readable(centers@),
            is_distance_table(metric, cs, table@),
            0 <= j <= k,
            p < k,
            d <= max_distance(),
            nearest(metric, point@, cs, prev as int) == scan(
                metric,
                point@,
                cs,
                j as int,
                Nearest { center: p as int, distance: d as nat },
            ),
        decreases k - j,
    {
        assert(table@[p as int]@[j as int] == metric.distance(cs[p as int], cs[j as int]));
        assert(table@[p as int]@.len() == k);
        if j != p && (table[p][j] as u128) < 2 * (d as u128) {
            let x = metric.measure(point, &centers[j]);
            if x < d {
                d = x;
                p = j;
            }
        }
        j = j + 1;
    }
    (p, d)
}

/// The number of bins of the first histogram, or zero where there is none.
pub open spec fn bins_of(hs: Seq<Histogram>) -> nat {
    if hs.len() == 0 {
        0
    } else {
        hs[0]@.bins.len()
    }
}

/// Whether the histograms can be clustered: all are well formed, have the
/// same number of bins, and have mass that survives normalization.
pub open spec fn clusterable(hs: Seq<Histogram>) -> bool {
    forall|i: int|
        0 <= i < hs.len() ==> {
            &&& (#[trigger] hs[i]).wf()
            &&& hs[i]@.has_mass()
            &&& hs[i]@.bins.len() == bins_of(hs)
        }
}

/// Replaces the center of cluster `p` by the centroid of the points labelled
/// `p`; a cluster without points keeps its center.
pub fn update_center(center: &mut Histogram, p: usize, points: &Vec<Histogram>, labels: &Vec<usize>)
    requires
        old(center).wf(),
        old(center)@.mass > 0,
        labels@.len() == points@.len(),
        clusterable(points@),
    ensures
        final(center).wf(),
        final(center)@.mass > 0,
        final(center)@ == centroid(views(points@), ints(labels@), p as int, old(center)@),
{
    let n = points.len();
    let ghost bins = bins_of(points@);
    let ghost ps = views(points@);
    let ghost ls = ints(labels@);
    let mut cluster: Option<Histogram> = None;
    let mut i: usize = 0;
    while i < n
        invariant
            n == points@.len(),
            labels@.len() == n,
            ps == views(points@),
            ls == ints(labels@),
            clusterable(points@),
            bins == bins_of(points@),
            0 <= i <= n,
            view_of(cluster) == accumulate(members(ps, ls, p as int, i as int)),
            cluster is Some <==> members(ps, ls, p as int, i as int).len() > 0,
            cluster matches Some(h) ==> {
                &&& h.wf()
                &&& h.n == bins
                &&& 0 < h@.mass <= i * ONE
            },
        decreases n - i,
    {
        if labels[i] == p {
            let ghost group = members(ps, ls, p as int, i as int);
            let ghost before = view_of(cluster);
            let point = &points[i];
            proof {
                assert(points@[i as int].wf());
                assert(group.push(ps[i as int]).drop_last() =~= group);
                lemma_prefix_sum_ends(point@.probs());
                lemma_total_prob_le_one(point@);
                assert(i * ONE <= usize::MAX * ONE) by (nonlinear_arith)
                    requires
                        i <= usize::MAX,
                ;
                assert((i + 1) * ONE == i * ONE + ONE) by (nonlinear_arith);
            }
            let mut h = match cluster {
                Some(h) => h,
                None => Histogram::new(point.n),
            };
            absorb(&mut h, point);
            cluster = Some(h);
            proof {
                assert(view_of(cluster) == Some(agg_spec(before, ps[i as int])));
            }
        } else {
            proof {
                assert((i + 1) * ONE == i * ONE + ONE) by (nonlinear_arith);
            }
        }
        i = i + 1;
    }
    match cluster {
        Some(h) => {
            proof {
                lemma_normalized(h@);
            }
            match h.norm() {
                Ok(c) => {
                    *center = c;
                },
                // Never taken: the members have mass, so their sum has.
                Err(_) => {},
            }
        },
        None => {},
    }
}

/// Lowers the weight of `point` to its distance from `center`, if that is
/// smaller.
pub fn lower_weight(w: &mut u128, center: &Histogram, point: &Histogram, metric: Metric)
    requires
        center.wf(),
        center@.mass > 0,
        point.wf(),
        point@.mass > 0,
    ensures
        *final(w) == lower(*old(w) as nat, metric.distance(center@, point@)),
{
    let d = metric.measure(center, point) as u128;
    if d < *w {
        *w = d;
    }
}

/// Chooses `k` of the points as initial centers. The first is chosen
/// uniformly. Each further one is chosen with probability proportional to
/// its distance from the nearest center chosen before it, or uniformly
/// where every point coincides with a chosen center.
fn generate_centers(k: usize, points: &Vec<Histogram>, metric: Metric) -> (r: (
    Vec<Histogram>,
    Ghost<Seq<int>>,
))
    requires
        k >= 1,
        points@.len() >= 1,
        all_readable(points@),
    ensures
        r.0@.len() == k,
        all_readable(r.0@),
        is_seeding(metric, views(points@), k as nat, r.1@),
        views(r.0@) == seeds_of(views(points@), r.1@),
{
    let n = points.len();
    let ghost ps = views(points@);
    let mut ws: Vec<u128> = Vec::new();
    let mut i: usize = 0;
    while i < n
        invariant
            0 <= i <= n,
            ws@.len() == i,
            forall|a: int| 0 <= a < i ==> ws@[a] == FAR,
        decreases n - i,
    {
        ws.push(FAR);
        i = i + 1;
    }
    let mut centers: Vec<Histogram> = Vec::new();
    let ghost mut chosen: Seq<int> = Seq::empty();
    match choose_point(points) {
        Some(h) => {
            proof {
                let c = choose|c: int| 0 <= c < points@.len() && points@[c] == *h;
                chosen = chosen.push(c);
            }
            centers.push(h.clone());
        },
        // Never taken: there is a point to choose.
        None => {
            proof {
                chosen = chosen.push(0);
            }
            centers.push(points[0].clone());
        },
    }
    let mut j: usize = 1;
    while j < k
        invariant
            n == points@.len(),
            n >= 1,
            ps == views(points@),
            all_readable(points@),
            1 <= j <= k,
            centers@.len() == j,
            chosen.len() == j,
            all_readable(centers@),
            forall|l: int| 0 <= l < j ==> 0 <= #[trigger] chosen[l] < n,
            forall|l: int| 0 <= l < j ==> (#[trigger] centers@[l])@ == ps[chosen[l]],
            ws@.len() == n,
            forall|a: int|
                0 <= a < n ==> #[trigger] ws@[a] == weight(metric, ps, chosen, j - 1, a),
            forall|l: int|
                1 <= l < j ==> {
                    ||| weight(metric, ps, chosen, l, #[trigger] chosen[l]) > 0
                    ||| sum(weights(metric, ps, chosen, l)) == 0
                },
        decreases k - j,
    {
        let ghost before = chosen;
        par_lower_weights(&mut ws, &centers[j - 1], points, metric);
        proof {
            assert(nats(ws@) =~= weights(metric, ps, chosen, j as int)) by {
                assert forall|a: int| 0 <= a < n implies nats(ws@)[a] == weight(
                    metric,
                    ps,
                    chosen,
                    j as int,
                    a,
                ) by {
                    assert(centers@[j - 1]@ == ps[chosen[j - 1]]);
                }
            }
            assert forall|a: int| 0 <= a < n implies nats(ws@)[a] <= FAR as nat by {
                lemma_weight_bounded(metric, ps, chosen, j as int, a);
            }
            lemma_sum_bounded(nats(ws@), FAR as nat);
            assert(n * FAR <= usize::MAX * FAR) by (nonlinear_arith)
                requires
                    n <= usize::MAX,
            ;
        }
        match pick_weighted(&ws) {
            Some(c) => {
                proof {
                    chosen = chosen.push(c as int);
                }
                centers.push(points[c].clone());
            },
            None => {
                match choose_point(points) {
                    Some(h) => {
                        proof {
                            let c = choose|c: int| 0 <= c < points@.len() && points@[c] == *h;
                            chosen = chosen.push(c);
                        }
                        centers.push(h.clone());
                    },
                    // Never taken: there is a point to choose.
                    None => {
                        proof {
                            chosen = chosen.push(0);
                        }
                        centers.push(points[0].clone());
                    },
                }
            },
        }
        proof {
            assert forall|l: int| 1 <= l < j + 1 implies {
                ||| weight(metric, ps, chosen, l, #[trigger] chosen[l]) > 0
                ||| sum(weights(metric, ps, chosen, l)) == 0
            } by {
                assert(weights(metric, ps, chosen, l) =~= weights(metric, ps, before, l)) by {
                    assert forall|a: int| 0 <= a < n implies weight(metric, ps, chosen, l, a)
                        == weight(metric, ps, before, l, a) by {
                        lemma_weight_ignores_later(metric, ps, chosen, before, l, a);
                    }
                }
                lemma_weight_ignores_later(metric, ps, chosen, before, l, chosen[l]);
            }
            assert forall|a: int| 0 <= a < n implies #[trigger] ws@[a] == weight(
                metric,
                ps,
                chosen,
                j as int,
                a,
            ) by {
                lemma_weight_ignores_later(metric, ps, chosen, before, j as int, a);
            }
        }
        j = j + 1;
    }
    proof {
        assert(views(centers@) =~= seeds_of(ps, chosen));
    }
    (centers, Ghost(chosen))
}

/// The sum of the distances of all points to their centers.
pub fn total_distortion(distances: &Vec<u64>) -> (total: u128)
    ensures
        total == sum(nats64(distances@)),
        total < UNREACHED,
{
    let n = distances.len();
    let ghost ds = nats64(distances@);
    let mut total: u128 = 0;
    let mut i: usize = 0;
    proof {
        lemma_prefix_sum_ends(ds);
    }
    while i < n
        invariant
            n == distances@.len(),
            ds == nats64(distances@),
            0 <= i <= n,
            total == prefix_sum(ds, i as int),
            total <= i * u64::MAX,
        decreases n - i,
    {
        proof {
            lemma_prefix_sum_step(ds, i as int);
            assert((i + 1) * u64::MAX == i * u64::MAX + u64::MAX) by (nonlinear_arith);
            assert(i * u64::MAX <= usize::MAX * u64::MAX) by (nonlinear_arith)
                requires
                    i <= usize::MAX,
            ;
        }
        total = total + distances[i] as u128;
        i = i + 1;
    }
    proof {
        lemma_prefix_sum_ends(ds);
        assert(n * u64::MAX <= usize::MAX * u64::MAX) by (nonlinear_arith)
            requires
                n <= usize::MAX,
        ;
    }
    total
}

/// The state of one restart: its centers, the cluster of every point, the
/// distortion last recorded, and the number of rounds run.
#[derive(Debug)]
pub struct ClusterRun {
    pub centers: Vec<Histogram>,
    pub assignment: Vec<usize>,
    pub distortion: u128,
    pub iteration: u32,
}

impl View for ClusterRun {
    type V = RunView;

    open spec fn view(&self) -> RunView {
        RunView {
            centers: views(self.centers@),
            labels: ints(self.assignment@),
            distortion: self.distortion as nat,
        }
    }
}

impl ClusterRun {
    /// The run has a center, every center can be read, and every one of the
    /// `n` points is in a cluster that has a center.
    pub open spec fn wf(&self, n: nat) -> bool {
        &&& self.centers@.len() >= 1
        &&& all_readable(self.centers@)
        &&& self.assignment@.len() == n
        &&& forall|i: int|
            0 <= i < self.assignment@.len() ==> #[trigger] self.assignment@[i]
                < self.centers@.len()
    }

    /// A restart before its first round, over `n` points.
    pub fn seeded(centers: Vec<Histogram>, n: usize) -> (r: ClusterRun)
        requires
            centers@.len() >= 1,
            all_readable(centers@),
        ensures
            r.wf(n as nat),
            r@ == start(views(centers@), n as nat),
            r.iteration == 0,
    {
        let mut assignment: Vec<usize> = Vec::new();
        let mut i: usize = 0;
        while i < n
            invariant
                0 <= i <= n,
                assignment@.len() == i,
                forall|a: int| 0 <= a < i ==> assignment@[a] == 0,
            decreases n - i,
        {
            assignment.push(0);
            i = i + 1;
        }
        let r = ClusterRun { centers, assignment, distortion: UNREACHED, iteration: 0 };
        proof {
            assert(r@.labels =~= start(views(centers@), n as nat).labels);
        }
        r
    }

    /// Runs one round: assigns every point to a center and, unless the
    /// distortion is the one recorded before, updates the centers. Returns
    /// whether the distortion was the one recorded before.
    pub fn step(&mut self, points: &Vec<Histogram>, metric: Metric) -> (stable: bool)
        requires
            old(self).wf(points@.len()),
            clusterable(points@),
            old(self).iteration < u32::MAX,
        ensures
            final(self).wf(points@.len()),
            final(self)@ == advance(metric, views(points@), old(self)@),
            stable == (final(self).distortion == old(self).distortion),
            final(self).iteration == old(self).iteration + 1,
    {
        let ghost ps = views(points@);
        let ghost before = self@;
        let ghost a = assign(metric, ps, before.centers, before.labels);
        let table = calculate_center_distances(&self.centers, metric);
        let (pos, dis) = par_assign(points, &self.assignment, &self.centers, &table, metric);
        let total = total_distortion(&dis);
        proof {
            assert(ints(pos@) =~= labels_of(a));
            assert(nats64(dis@) =~= distances_of(a));
            lemma_assign_in_range(metric, ps, before.centers, before.labels);
            assert forall|i: int| 0 <= i < pos@.len() implies #[trigger] pos@[i]
                < self.centers@.len() by {
                assert(ints(pos@)[i] == labels_of(a)[i]);
            }
        }
        let stable = total == self.distortion;
        if !stable {
            par_update_centers(&mut self.centers, points, &pos);
            proof {
                assert(views(self.centers@) =~= update(ps, labels_of(a), before.centers));
            }
        }
        self.assignment = pos;
        self.distortion = total;
        self.iteration = self.iteration + 1;
        stable
    }
}

/// The best assignment found so far, with its distortion.
#[derive(Debug)]
pub struct BestResult {
    pub assignment: Vec<usize>,
    pub distortion: u128,
}

impl View for BestResult {
    type V = BestView;

    open spec fn view(&self) -> BestView {
        BestView { labels: ints(self.assignment@), distortion: self.distortion as nat }
    }
}

impl BestResult {
    /// The result before any restart: every one of the `n` points in cluster
    /// zero, and a distortion that any restart beats.
    pub fn none(n: usize) -> (r: BestResult)
        ensures
            r@.labels == Seq::new(n as nat, |i: int| 0int),
            r@.distortion == UNREACHED,
    {
        let mut assignment: Vec<usize> = Vec::new();
        let mut i: usize = 0;
        while i < n
            invariant
                0 <= i <= n,
                assignment@.len() == i,
                forall|a: int| 0 <= a < i ==> assignment@[a] == 0,
            decreases n - i,
        {
            assignment.push(0);
            i = i + 1;
        }
        let r = BestResult { assignment, distortion: UNREACHED };
        proof {
            assert(r@.labels =~= Seq::new(n as nat, |i: int| 0int));
        }
        r
    }

    /// Takes over the assignment and the distortion of `run` if that
    /// distortion is strictly lower than the best so far.
    pub fn offer(&mut self, run: ClusterRun)
        ensures
            run.distortion < old(self).distortion ==> final(self)@ == (BestView {
                labels: run@.labels,
                distortion: run@.distortion,
            }),
            run.distortion >= old(self).distortion ==> final(self)@ == old(self)@,
    {
        if run.distortion < self.distortion {
            self.distortion = run.distortion;
            self.assignment = run.assignment;
        }
    }
}

/// How the members of a cluster are combined into its center.
#[derive(Clone, Copy, Debug, PartialEq, Eq, Structural)]
pub enum Combine {
    /// The normalized values of the members are accumulated bin by bin and
    /// the sum is rescaled to unit mass.
    Agg,
}

/// The centers that each of the restarts chosen in `picks` starts from.
pub open spec fn seeds_for(points: Seq<HistogramView>, picks: Seq<Seq<int>>) -> Seq<
    Seq<HistogramView>,
> {
    picks.map_values(|chosen: Seq<int>| seeds_of(points, chosen))
}

/// Runs one restart from the given centers to its end: round after round
/// until one is stable, and `MAX_ITERATIONS` rounds at most.
pub fn run_restart(centers: Vec<Histogram>, points: &Vec<Histogram>, metric: Metric) -> (r:
    ClusterRun)
    requires
        centers@.len() >= 1,
        all_readable(centers@),
        clusterable(points@),
    ensures
        r.wf(points@.len()),
        r@ == run(metric, views(points@), views(centers@)),
        r.iteration == rounds(metric, views(points@), views(centers@)),
{
    let ghost ps = views(points@);
    let ghost seeds = views(centers@);
    let mut state = ClusterRun::seeded(centers, points.len());
    let mut t: usize = 0;
    let mut stable = false;
    while t < MAX_ITERATIONS && !stable
        invariant
            ps == views(points@),
            clusterable(points@),
            state.wf(points@.len()),
            0 <= t <= MAX_ITERATIONS,
            state.iteration == t,
            state@ == state_at(metric, ps, seeds, t as nat),
            forall|u: nat| 1 <= u < t ==> !stable_at(metric, ps, seeds, u),
            stable ==> t >= 1,
            t >= 1 ==> stable == stable_at(metric, ps, seeds, t as nat),
        decreases MAX_ITERATIONS - t,
    {
        stable = state.step(points, metric);
        t = t + 1;
    }
    proof {
        lemma_rounds_reached(metric, ps, seeds, 1, t as nat);
    }
    state
}

/// Whether a clustering into `k` clusters by `m` restarts can be asked of
/// `n` points: there is a cluster, a restart and a point, and no more
/// clusters than points.
pub open spec fn valid_arguments(k: usize, m: usize, n: nat) -> bool {
    k >= 1 && k <= n && m >= 1 && n >= 1
}

/// Whether `labels` is what `m` restarts can end with: the best over the
/// restarts for some choice of initial centers that the seeding can make
/// in each of them.
pub open spec fn is_clustering(
    metric: Metric,
    points: Seq<HistogramView>,
    k: nat,
    m: nat,
    labels: Seq<int>,
) -> bool {
    exists|picks: Seq<Seq<int>>|
        {
            &&& picks.len() == m
            &&& forall|t: int| 0 <= t < m ==> is_seeding(metric, points, k, #[trigger] picks[t])
            &&& labels == best_of(metric, points, seeds_for(points, picks)).labels
        }
}

/// Clusters `points` into `k` clusters: runs `m` restarts, each from centers
/// chosen at random among the points, and returns the assignment of the
/// restart that ended with the lowest distortion, the earliest such restart
/// where several did.
pub fn k_means(
    k: usize,
    m: usize,
    points: &Vec<Histogram>,
    combines: Combine,
    distance: Metric,
) -> (r: Result<Vec<usize>, Error>)
    requires
        forall|i: int| 0 <= i < points@.len() ==> (#[trigger] points@[i]).wf(),
        forall|i: int| 0 <= i < points@.len() ==> (#[trigger] points@[i])@.bins.len() == bins_of(points@),
    ensures
        r is Ok <==> valid_arguments(k, m, points@.len()) && clusterable(points@),
        r matches Err(e) ==> e == (if valid_arguments(k, m, points@.len()) {
            Error::DegenerateHistogram
        } else {
            Error::InvalidArgument
        }),
        r matches Ok(a) ==> {
            &&& a@.len() == points@.len()
            &&& forall|i: int| 0 <= i < a@.len() ==> #[trigger] a@[i] < k
            &&& is_clustering(distance, views(points@), k as nat, m as nat, ints(a@))
        },
{
    let n = points.len();
    if k == 0 || k > n || m == 0 || n == 0 {
        return Err(Error::InvalidArgument);
    }
    match combines {
        Combine::Agg => {},
    }
    let mut i: usize = 0;
    while i < n
        invariant
            n == points@.len(),
            valid_arguments(k, m, n as nat),
            0 <= i <= n,
            forall|a: int| 0 <= a < points@.len() ==> (#[trigger] points@[a]).wf(),
            forall|a: int| 0 <= a < i ==> (#[trigger] points@[a])@.has_mass(),
        decreases n - i,
    {
        if !points[i].has_mass() {
            return Err(Error::DegenerateHistogram);
        }
        i = i + 1;
    }
    let ghost ps = views(points@);
    let mut best = BestResult::none(n);
    let ghost mut picks: Seq<Seq<int>> = Seq::empty();
    let mut restart: usize = 0;
    while restart < m
        invariant
            n == points@.len(),
            1 <= k <= n,
            ps == views(points@),
            clusterable(points@),
            0 <= restart <= m,
            picks.len() == restart,
            forall|t: int|
                0 <= t < restart ==> is_seeding(distance, ps, k as nat, #[trigger] picks[t]),
            best@ == best_of(distance, ps, seeds_for(ps, picks)),
        decreases m - restart,
    {
        let (centers, chosen) = generate_centers(k, points, distance);
        let state = run_restart(centers, points, distance);
        let ghost before = picks;
        proof {
            picks = picks.push(chosen@);
            assert(seeds_for(ps, picks).drop_last() =~= seeds_for(ps, before));
            assert(seeds_for(ps, picks).last() == seeds_of(ps, chosen@));
        }
        best.offer(state);
        restart = restart + 1;
    }
    proof {
        assert forall|t: int| 0 <= t < seeds_for(ps, picks).len() implies (#[trigger] seeds_for(
            ps,
            picks,
        )[t]).len() == k by {
            assert(is_seeding(distance, ps, k as nat, picks[t]));
        }
        lemma_best_in_range(distance, ps, seeds_for(ps, picks), k as nat);
        let labels = ints(best.assignment@);
        assert forall|i: int| 0 <= i < best.assignment@.len() implies #[trigger] best.assignment@[i]
            < k by {
            assert(labels[i] == best.assignment@[i]);
        }
        assert(is_clustering(distance, ps, k as nat, m as nat, labels)) by {
            assert(picks.len() == m);
            assert(labels == best_of(distance, ps, seeds_for(ps, picks)).labels);
        }
    }
    Ok(best.assignment)
}

} // verus!
