//! Histograms with whole-number masses and fixed-point normalized reads.
use vstd::prelude::*;
use crate::error::Error;
use crate::sums::{
    lemma_prefix_sum_ends, lemma_prefix_sum_le, lemma_prefix_sum_step, lemma_sum_bounds_element,
    lemma_sum_bounded, lemma_sum_monotone, lemma_sum_pointwise_add, lemma_sum_push,
    lemma_sum_scaled, lemma_sum_update, lemma_sum_zeros, prefix_sum, sum,
};

verus! {

/// One whole unit of normalized mass: a normalized bin value `p` stands for
/// the fraction `p / ONE`.
pub const ONE: u64 = 1_000_000_000;

/// Two normalized values count as equal when they differ by less than this
/// (a hundred-thousandth of `ONE`).
pub const THRESHOLD: u64 = 10_000;

/// The largest number of bins a histogram may have.
pub const MAX_BINS: usize = 4_294_967_295;

/// The largest total mass a histogram may hold, so that a bin times `ONE`
/// fits the machine word used for masses.
pub const MAX_MASS: u128 = 340_282_366_920_938_463_463_374_607_431;

/// What a histogram is, mathematically: its recorded total mass and the mass
/// of each bin.
pub struct HistogramView {
    pub mass: nat,
    pub bins: Seq<nat>,
}

impl HistogramView {
    /// The bins never hold more than the recorded mass, and both the mass and
    /// the number of bins stay within the machine limits.
    pub open spec fn wf(self) -> bool {
        &&& sum(self.bins) <= self.mass
        &&& self.mass <= MAX_MASS
        &&& self.bins.len() <= MAX_BINS
    }

    /// The normalized mass of bin `i`, in parts of `ONE`, rounded down.
    /// Meaningful only when `mass > 0`.
    pub open spec fn prob(self, i: int) -> nat {
        ((self.bins[i] * ONE) / (self.mass as int)) as nat
    }

    /// All normalized bin values.
    pub open spec fn probs(self) -> Seq<nat> {
        Seq::new(self.bins.len(), |i: int| self.prob(i))
    }

    /// The normalized mass that the bins hold together.
    pub open spec fn total_prob(self) -> nat {
        sum(self.probs())
    }

    /// Whether the histogram has mass that survives normalization: its
    /// recorded mass is positive and its normalized values do not all round
    /// to zero.
    pub open spec fn has_mass(self) -> bool {
        self.mass > 0 && self.total_prob() > 0
    }

    /// The histogram rescaled to unit mass.
    pub open spec fn normalized(self) -> HistogramView {
        HistogramView { mass: ONE as nat, bins: self.probs() }
    }

    /// The histogram of `n` empty bins.
    pub open spec fn empty(n: nat) -> HistogramView {
        HistogramView { mass: 0, bins: Seq::new(n, |i: int| 0nat) }
    }

    /// The histogram with the mass and every bin divided by `n`, rounded down.
    pub open spec fn average(self, n: nat) -> HistogramView {
        HistogramView {
            mass: self.mass / n,
            bins: Seq::new(self.bins.len(), |i: int| self.bins[i] / n),
        }
    }

    /// Whether the two histograms have the same number of bins and every
    /// normalized bin value of one is within `THRESHOLD` of the other's.
    pub open spec fn approx_eq(self, other: HistogramView) -> bool {
        &&& self.bins.len() == other.bins.len()
        &&& forall|i: int|
            0 <= i < self.bins.len() ==> {
                &&& #[trigger] self.prob(i) < other.prob(i) + THRESHOLD
                &&& other.prob(i) < self.prob(i) + THRESHOLD
            }
    }

    /// The histogram after `amount` is added to bin `i`.
    pub open spec fn put(self, i: int, amount: int) -> HistogramView {
        HistogramView {
            mass: (self.mass + amount) as nat,
            bins: self.bins.update(i, (self.bins[i] + amount) as nat),
        }
    }
}

/// A discrete distribution over `n` ordered bins.
///
/// `x` holds the mass of each bin and `s` the recorded total. Reads through
/// [`Histogram::get`] are normalized by `s`.
#[derive(Debug)]
pub struct Histogram {
    pub n: usize,
    pub s: u128,
    pub x: Vec<u128>,
}

impl View for Histogram {
    type V = HistogramView;

    open spec fn view(&self) -> HistogramView {
        HistogramView { mass: self.s as nat, bins: self.x@.map_values(|v: u128| v as nat) }
    }
}

/// `prob` is the quotient of `bins[i] * ONE` by the mass, rounded down, and
/// never exceeds `ONE`.
pub proof fn lemma_prob_bounds(h: HistogramView, i: int)
    requires
        h.wf(),
        h.mass > 0,
        0 <= i < h.bins.len(),
    ensures
        h.prob(i) * h.mass <= h.bins[i] * ONE,
        h.bins[i] * ONE < (h.prob(i) + 1) * h.mass,
        h.prob(i) <= ONE,
        h.prob(i) == (h.bins[i] * ONE) / (h.mass as int),
{
    let b = h.bins[i] as int;
    let m = h.mass as int;
    lemma_sum_bounds_element(h.bins, i);
    let q = (b * ONE) / m;
    assert(0 <= q && q * m <= b * ONE && b * ONE < (q + 1) * m && q <= ONE) by (nonlinear_arith)
        requires
            0 <= b <= m,
            m > 0,
            q == (b * ONE) / m,
            ONE == 1_000_000_000,
    ;
}

/// Up to any bin, the normalized values times the mass stay below the raw
/// masses times `ONE`, and fall short by less than one mass per bin.
pub proof fn lemma_prefix_prob(h: HistogramView, k: int)
    requires
        h.wf(),
        h.mass > 0,
        0 <= k <= h.bins.len(),
    ensures
        prefix_sum(h.probs(), k) * h.mass <= prefix_sum(h.bins, k) * ONE,
        prefix_sum(h.bins, k) * ONE + k <= prefix_sum(h.probs(), k) * h.mass + k * h.mass,
    decreases k,
{
    if k == 0 {
        lemma_prefix_sum_ends(h.probs());
        lemma_prefix_sum_ends(h.bins);
    } else {
        lemma_prefix_prob(h, k - 1);
        lemma_prefix_sum_step(h.probs(), k - 1);
        lemma_prefix_sum_step(h.bins, k - 1);
        lemma_prob_bounds(h, k - 1);
        let p0 = prefix_sum(h.probs(), k - 1) as int;
        let b0 = prefix_sum(h.bins, k - 1) as int;
        let p = h.prob(k - 1) as int;
        let b = h.bins[k - 1] as int;
        let m = h.mass as int;
        assert((p0 + p) * m == p0 * m + p * m) by (nonlinear_arith);
        assert((b0 + b) * ONE == b0 * ONE + b * ONE) by (nonlinear_arith);
        assert((p + 1) * m == p * m + m) by (nonlinear_arith);
        assert(k * m == (k - 1) * m + m) by (nonlinear_arith);
    }
}

/// The normalized values of a histogram sum to at most `ONE`.
pub proof fn lemma_total_prob_le_one(h: HistogramView)
    requires
        h.wf(),
        h.mass > 0,
    ensures
        h.total_prob() <= ONE,
{
    let n = h.bins.len() as int;
    lemma_prefix_prob(h, n);
    lemma_prefix_sum_ends(h.probs());
    lemma_prefix_sum_ends(h.bins);
    let p = h.total_prob() as int;
    let b = sum(h.bins) as int;
    let m = h.mass as int;
    assert(p <= ONE) by (nonlinear_arith)
        requires
            p * m <= b * ONE,
            0 <= b <= m,
            m > 0,
            0 <= p,
            ONE == 1_000_000_000,
    ;
}

/// Where the bins hold exactly the recorded mass, rounding loses less than
/// one part per bin: the normalized values sum to more than `ONE` less the
/// number of bins.
pub proof fn lemma_total_prob_exact_mass(h: HistogramView)
    requires
        h.wf(),
        h.mass > 0,
        sum(h.bins) == h.mass,
    ensures
        h.total_prob() + h.bins.len() > ONE,
{
    let n = h.bins.len() as int;
    lemma_prefix_prob(h, n);
    lemma_prefix_sum_ends(h.probs());
    lemma_prefix_sum_ends(h.bins);
    let p = h.total_prob() as int;
    let m = h.mass as int;
    if n == 0 {
        assert(sum(h.bins) == 0);
    } else {
        assert(p + n > ONE) by (nonlinear_arith)
            requires
                m * ONE + n <= p * m + n * m,
                m > 0,
                n > 0,
                0 <= p,
                ONE == 1_000_000_000,
        ;
    }
}

/// A normalized histogram is well formed, and its normalized values are its
/// bins.
pub proof fn lemma_normalized(h: HistogramView)
    requires
        h.wf(),
        h.mass > 0,
    ensures
        h.normalized().wf(),
        h.normalized().probs() == h.probs(),
        h.normalized().total_prob() == h.total_prob(),
{
    lemma_total_prob_le_one(h);
    let g = h.normalized();
    assert forall|i: int| 0 <= i < g.bins.len() implies g.prob(i) == h.prob(i) by {
        let b = h.prob(i) as int;
        assert((b * ONE) / (ONE as int) == b) by (nonlinear_arith)
            requires
                ONE == 1_000_000_000,
        ;
    }
    assert(g.probs() =~= h.probs());
}

impl Histogram {
    /// The representation is consistent and within the machine limits.
    pub open spec fn wf(&self) -> bool {
        &&& self.n == self.x@.len()
        &&& self@.wf()
    }

    /// A histogram of `n` empty bins.
    pub fn new(n: usize) -> (r: Histogram)
        requires
            n <= MAX_BINS,
        ensures
            r.wf(),
            r.n == n,
            r@ == HistogramView::empty(n as nat),
    {
        let x = vec![0u128; n];
        let r = Histogram { n, s: 0, x };
        proof {
            assert(r@.bins =~= HistogramView::empty(n as nat).bins);
            lemma_sum_zeros(r@.bins);
        }
        r
    }

    /// Adds `amount` to bin `i` and to the recorded mass. The amount may be
    /// negative as long as the bin stays non-negative.
    pub fn put(&mut self, i: usize, amount: i64)
        requires
            old(self).wf(),
            i < old(self).n,
            0 <= old(self)@.bins[i as int] + amount,
            old(self)@.mass + amount <= MAX_MASS,
        ensures
            final(self).wf(),
            final(self).n == old(self).n,
            final(self)@ == old(self)@.put(i as int, amount as int),
    {
        proof {
            lemma_sum_bounds_element(self@.bins, i as int);
            lemma_sum_update(self@.bins, i as int, (self@.bins[i as int] + amount) as nat);
        }
        let ghost before = self@;
        let bin = self.x[i];
        if amount >= 0 {
            let a = amount as u128;
            self.s = self.s + a;
            self.x.set(i, bin + a);
        } else {
            let a = (-(amount as i128)) as u128;
            self.s = self.s - a;
            self.x.set(i, bin - a);
        }
        proof {
            assert(self@.bins =~= before.bins.update(i as int, (before.bins[i as int] + amount) as nat));
        }
    }

    /// The normalized mass of bin `i`, in parts of `ONE`.
    pub fn get(&self, i: usize) -> (r: Result<u64, Error>)
        requires
            self.wf(),
            i < self.n,
        ensures
            r is Err <==> self@.mass == 0,
            r matches Err(e) ==> e == Error::DegenerateHistogram,
            r matches Ok(p) ==> p == self@.prob(i as int),
    {
        if self.s == 0 {
            Err(Error::DegenerateHistogram)
        } else {
            Ok(self.read(i))
        }
    }

    /// The normalized mass of bin `i` of a histogram that has mass.
    pub fn read(&self, i: usize) -> (p: u64)
        requires
            self.wf(),
            i < self.n,
            self@.mass > 0,
        ensures
            p == self@.prob(i as int),
            p <= ONE,
    {
        proof {
            lemma_prob_bounds(self@, i as int);
            lemma_sum_bounds_element(self@.bins, i as int);
            assert(self.x@[i as int] * ONE <= MAX_MASS * ONE) by (nonlinear_arith)
                requires
                    self.x@[i as int] <= MAX_MASS,
            ;
        }
        let q = (self.x[i] * (ONE as u128)) / self.s;
        q as u64
    }
}

/// The histogram that holds the masses `v` as they are, with their sum as
/// its recorded mass.
pub open spec fn raw_view(v: Seq<u64>) -> HistogramView {
    let bins = v.map_values(|m: u64| m as nat);
    HistogramView { mass: sum(bins), bins }
}

impl Histogram {
    /// The histogram of the masses `v`, rescaled to unit mass.
    pub fn from(v: Vec<u64>) -> (r: Result<Histogram, Error>)
        requires
            v@.len() <= MAX_BINS,
        ensures
            r is Err <==> raw_view(v@).mass == 0,
            r matches Err(e) ==> e == Error::DegenerateHistogram,
            r matches Ok(h) ==> h.wf() && h.n == v@.len() && h@ == raw_view(v@).normalized(),
            r matches Ok(h) ==> h@.mass == ONE && h@.probs() == h@.bins,
    {
        let n = v.len();
        let ghost bins = raw_view(v@).bins;
        let mut x: Vec<u128> = Vec::new();
        let mut s: u128 = 0;
        let mut i: usize = 0;
        proof {
            lemma_prefix_sum_ends(bins);
        }
        while i < n
            invariant
                n == v@.len(),
                n <= MAX_BINS,
                bins == raw_view(v@).bins,
                0 <= i <= n,
                x@.len() == i,
                forall|j: int| 0 <= j < i ==> x@[j] == v@[j],
                s == prefix_sum(bins, i as int),
                s <= i * u64::MAX,
            decreases n - i,
        {
            proof {
                lemma_prefix_sum_step(bins, i as int);
                assert((i + 1) * u64::MAX == i * u64::MAX + u64::MAX) by (nonlinear_arith);
                assert(i * u64::MAX <= MAX_BINS * u64::MAX) by (nonlinear_arith)
                    requires
                        i <= MAX_BINS,
                ;
            }
            s = s + v[i] as u128;
            x.push(v[i] as u128);
            i = i + 1;
        }
        proof {
            lemma_prefix_sum_ends(bins);
            assert(n * u64::MAX <= MAX_BINS * u64::MAX) by (nonlinear_arith)
                requires
                    n <= MAX_BINS,
            ;
        }
        let h = Histogram { n, s, x };
        assert(h@.bins =~= bins);
        h.norm()
    }

    /// Divides the recorded mass and every bin by `count`, rounding down.
    pub fn average(self, count: usize) -> (r: Histogram)
        requires
            self.wf(),
            count > 0,
        ensures
            r.wf(),
            r.n == self.n,
            r@ == self@.average(count as nat),
    {
        let ghost before = self@;
        let n = self.n;
        let c = count as u128;
        let mut h = self;
        let mut i: usize = 0;
        let ghost mut done: Seq<nat> = Seq::empty();
        proof {
            lemma_prefix_sum_ends(before.bins);
            assert(sum(done) == 0);
            assert(sum(done) * c == 0) by (nonlinear_arith)
                requires
                    sum(done) == 0,
            ;
        }
        while i < n
            invariant
                n == h.x@.len(),
                h.n == n,
                h.s == before.mass,
                before.bins.len() == n,
                c == count,
                c > 0,
                0 <= i <= n,
                forall|j: int| 0 <= j < i ==> h.x@[j] == before.bins[j] / (c as nat),
                forall|j: int| i <= j < n ==> h.x@[j] == before.bins[j],
                done.len() == i,
                forall|j: int| 0 <= j < i ==> done[j] == before.bins[j] / (c as nat),
                sum(done) * c <= prefix_sum(before.bins, i as int),
            decreases n - i,
        {
            let q = h.x[i] / c;
            proof {
                let b = before.bins[i as int] as int;
                let d = sum(done) as int;
                lemma_prefix_sum_step(before.bins, i as int);
                lemma_sum_push(done, q as nat);
                assert((d + b / (c as int)) * c <= d * c + b) by (nonlinear_arith)
                    requires
                        c > 0,
                        b >= 0,
                ;
                done = done.push(q as nat);
            }
            h.x.set(i, q);
            i = i + 1;
        }
        h.s = h.s / c;
        proof {
            lemma_prefix_sum_ends(before.bins);
            assert(h@.bins =~= before.average(count as nat).bins);
            assert(done =~= h@.bins);
            let d = sum(done) as int;
            let m = before.mass as int;
            assert(d <= m / (c as int)) by (nonlinear_arith)
                requires
                    d * c <= m,
                    c > 0,
                    d >= 0,
            ;
        }
        h
    }

    /// Rescales the histogram to unit mass: every bin becomes its normalized
    /// value and the recorded mass becomes `ONE`.
    pub fn norm(self) -> (r: Result<Histogram, Error>)
        requires
            self.wf(),
        ensures
            r is Err <==> self@.mass == 0,
            r matches Err(e) ==> e == Error::DegenerateHistogram,
            r matches Ok(h) ==> h.wf() && h.n == self.n && h@ == self@.normalized(),
            r matches Ok(h) ==> h@.mass == ONE && h@.probs() == h@.bins,
    {
        if self.s == 0 {
            return Err(Error::DegenerateHistogram);
        }
        let ghost before = self@;
        let n = self.n;
        let s = self.s;
        let mut h = self;
        let mut i: usize = 0;
        while i < n
            invariant
                before.wf(),
                before.mass == s,
                s > 0,
                before.bins.len() == n,
                n == h.x@.len(),
                h.n == n,
                0 <= i <= n,
                forall|j: int| 0 <= j < i ==> h.x@[j] == before.prob(j),
                forall|j: int| i <= j < n ==> h.x@[j] == before.bins[j],
            decreases n - i,
        {
            proof {
                lemma_prob_bounds(before, i as int);
                lemma_sum_bounds_element(before.bins, i as int);
                assert(before.bins[i as int] * ONE <= MAX_MASS * ONE) by (nonlinear_arith)
                    requires
                        before.bins[i as int] <= MAX_MASS,
                ;
            }
            let q = (h.x[i] * (ONE as u128)) / s;
            h.x.set(i, q);
            i = i + 1;
        }
        h.s = ONE as u128;
        proof {
            assert(h@.bins =~= before.probs());
            lemma_normalized(before);
        }
        Ok(h)
    }

    /// Whether the histogram has mass that survives normalization.
    pub fn has_mass(&self) -> (r: bool)
        requires
            self.wf(),
        ensures
            r == self@.has_mass(),
    {
        if self.s == 0 {
            return false;
        }
        let n = self.n;
        let ghost ps = self@.probs();
        let mut i: usize = 0;
        while i < n
            invariant
                self.wf(),
                self@.mass > 0,
                n == self.n,
                ps == self@.probs(),
                0 <= i <= n,
                forall|j: int| 0 <= j < i ==> ps[j] == 0,
            decreases n - i,
        {
            if self.read(i) > 0 {
                proof {
                    lemma_sum_bounds_element(ps, i as int);
                }
                return true;
            }
            i = i + 1;
        }
        proof {
            lemma_sum_zeros(ps);
        }
        false
    }

    /// Whether the histogram has the same number of bins as `other` and every
    /// normalized bin value is within `THRESHOLD` of the other's.
    pub fn approx_eq(&self, other: &Histogram) -> (r: Result<bool, Error>)
        requires
            self.wf(),
            other.wf(),
        ensures
            r is Err <==> self@.mass == 0 || other@.mass == 0,
            r matches Err(e) ==> e == Error::DegenerateHistogram,
            r matches Ok(b) ==> b == self@.approx_eq(other@),
    {
        if self.s == 0 || other.s == 0 {
            return Err(Error::DegenerateHistogram);
        }
        if self.n != other.n {
            return Ok(false);
        }
        let n = self.n;
        let mut i: usize = 0;
        while i < n
            invariant
                self.wf(),
                other.wf(),
                self@.mass > 0,
                other@.mass > 0,
                n == self.n,
                n == other.n,
                0 <= i <= n,
                forall|j: int|
                    0 <= j < i ==> {
                        &&& #[trigger] self@.prob(j) < other@.prob(j) + THRESHOLD
                        &&& other@.prob(j) < self@.prob(j) + THRESHOLD
                    },
            decreases n - i,
        {
            let p = self.read(i);
            let q = other.read(i);
            if p >= q + THRESHOLD || q >= p + THRESHOLD {
                assert(!(self@.prob(i as int) < other@.prob(i as int) + THRESHOLD
                    && other@.prob(i as int) < self@.prob(i as int) + THRESHOLD));
                return Ok(false);
            }
            i = i + 1;
        }
        Ok(true)
    }
}

impl Clone for Histogram {
    fn clone(&self) -> (r: Histogram)
        ensures
            r.n == self.n,
            r@ == self@,
            self.wf() ==> r.wf(),
    {
        let r = Histogram { n: self.n, s: self.s, x: self.x.clone() };
        proof {
            assert(r.x@ =~= self.x@);
            assert(r@.bins =~= self@.bins);
        }
        r
    }
}

/// The distance between two numbers.
pub open spec fn gap(p: int, q: int) -> nat {
    if p >= q {
        (p - q) as nat
    } else {
        (q - p) as nat
    }
}

/// The number of bins that two histograms are compared over: those of the
/// shorter one.
pub open spec fn shared_bins(a: HistogramView, b: HistogramView) -> nat {
    if a.bins.len() <= b.bins.len() {
        a.bins.len()
    } else {
        b.bins.len()
    }
}

/// The squared difference of the normalized values, bin by bin.
pub open spec fn squared_gaps(a: HistogramView, b: HistogramView) -> Seq<nat> {
    Seq::new(shared_bins(a, b), |i: int| gap(a.prob(i) as int, b.prob(i) as int) * gap(a.prob(i) as int, b.prob(i) as int))
}

/// The squared-error distance: the sum over the shared bins of the squared
/// difference of the normalized values.
pub open spec fn mse_spec(a: HistogramView, b: HistogramView) -> nat {
    sum(squared_gaps(a, b))
}

/// The distance between the cumulative normalized masses, bin by bin.
pub open spec fn cumulative_gaps(a: HistogramView, b: HistogramView) -> Seq<nat> {
    Seq::new(
        shared_bins(a, b),
        |i: int| gap(prefix_sum(a.probs(), i + 1) as int, prefix_sum(b.probs(), i + 1) as int),
    )
}

/// The earth-mover's distance over ordered bins: the sum over the shared
/// bins of the distance between the cumulative normalized masses.
pub open spec fn emd_spec(a: HistogramView, b: HistogramView) -> nat {
    sum(cumulative_gaps(a, b))
}

/// The largest value of either distance.
pub open spec fn max_distance() -> nat {
    (MAX_BINS * ONE) as nat
}

/// The squared error between histograms with mass is at most `2 * ONE * ONE`.
pub proof fn lemma_mse_bound(a: HistogramView, b: HistogramView)
    requires
        a.wf(),
        b.wf(),
        a.mass > 0,
        b.mass > 0,
    ensures
        mse_spec(a, b) <= 2 * ONE * ONE,
        mse_spec(a, b) <= max_distance(),
{
    let n = shared_bins(a, b) as int;
    let g = squared_gaps(a, b);
    let pa = a.probs().take(n);
    let pb = b.probs().take(n);
    let cap = Seq::new(n as nat, |i: int| (pa[i] + pb[i]) * ONE as nat);
    let both = Seq::new(n as nat, |i: int| pa[i] + pb[i]);
    assert forall|i: int| 0 <= i < n implies g[i] <= cap[i] by {
        lemma_prob_bounds(a, i);
        lemma_prob_bounds(b, i);
        let p = a.prob(i) as int;
        let q = b.prob(i) as int;
        let d = gap(p, q) as int;
        assert(d * d <= (p + q) * ONE) by (nonlinear_arith)
            requires
                0 <= d <= p + q,
                d <= ONE,
                0 <= p,
                0 <= q,
        ;
    }
    lemma_sum_monotone(g, cap);
    lemma_sum_scaled(both, ONE as nat, cap);
    lemma_sum_pointwise_add(pa, pb, both);
    lemma_prefix_sum_le(a.probs(), n);
    lemma_prefix_sum_le(b.probs(), n);
    lemma_total_prob_le_one(a);
    lemma_total_prob_le_one(b);
    assert(sum(both) * ONE <= 2 * ONE * ONE) by (nonlinear_arith)
        requires
            sum(both) <= 2 * ONE,
    ;
}

/// Each cumulative gap between histograms with mass is at most `ONE`.
pub proof fn lemma_cumulative_gap_bound(a: HistogramView, b: HistogramView, i: int)
    requires
        a.wf(),
        b.wf(),
        a.mass > 0,
        b.mass > 0,
        0 <= i < shared_bins(a, b),
    ensures
        cumulative_gaps(a, b)[i] <= ONE,
{
    lemma_prefix_sum_le(a.probs(), i + 1);
    lemma_prefix_sum_le(b.probs(), i + 1);
    lemma_total_prob_le_one(a);
    lemma_total_prob_le_one(b);
}

/// The earth-mover's distance between histograms with mass is at most `ONE`
/// per shared bin.
pub proof fn lemma_emd_bound(a: HistogramView, b: HistogramView)
    requires
        a.wf(),
        b.wf(),
        a.mass > 0,
        b.mass > 0,
    ensures
        emd_spec(a, b) <= shared_bins(a, b) * ONE,
        emd_spec(a, b) <= max_distance(),
{
    let g = cumulative_gaps(a, b);
    assert forall|i: int| 0 <= i < g.len() implies g[i] <= ONE as nat by {
        lemma_cumulative_gap_bound(a, b, i);
    }
    lemma_sum_bounded(g, ONE as nat);
    assert(shared_bins(a, b) * ONE <= MAX_BINS * ONE) by (nonlinear_arith)
        requires
            shared_bins(a, b) <= MAX_BINS,
    ;
}

/// The squared-error distance between two histograms that have mass.
pub fn squared_error(a: &Histogram, b: &Histogram) -> (d: u64)
    requires
        a.wf(),
        b.wf(),
        a@.mass > 0,
        b@.mass > 0,
    ensures
        d == mse_spec(a@, b@),
{
    let n = if a.n <= b.n { a.n } else { b.n };
    let ghost g = squared_gaps(a@, b@);
    let mut d: u64 = 0;
    let mut i: usize = 0;
    proof {
        lemma_prefix_sum_ends(g);
        lemma_mse_bound(a@, b@);
    }
    while i < n
        invariant
            a.wf(),
            b.wf(),
            a@.mass > 0,
            b@.mass > 0,
            n == shared_bins(a@, b@),
            g == squared_gaps(a@, b@),
            0 <= i <= n,
            d == prefix_sum(g, i as int),
            sum(g) <= 2 * ONE * ONE,
        decreases n - i,
    {
        proof {
            lemma_prefix_sum_step(g, i as int);
            lemma_prefix_sum_le(g, i as int + 1);
        }
        let p = a.read(i);
        let q = b.read(i);
        let delta = if p >= q { p - q } else { q - p };
        assert(delta * delta == g[i as int]);
        d = d + delta * delta;
        i = i + 1;
    }
    proof {
        lemma_prefix_sum_ends(g);
    }
    d
}

/// The earth-mover's distance between two histograms that have mass.
pub fn earth_movers(a: &Histogram, b: &Histogram) -> (d: u64)
    requires
        a.wf(),
        b.wf(),
        a@.mass > 0,
        b@.mass > 0,
    ensures
        d == emd_spec(a@, b@),
{
    let n = if a.n <= b.n { a.n } else { b.n };
    let ghost g = cumulative_gaps(a@, b@);
    let mut d: u64 = 0;
    let mut above: u64 = 0;
    let mut below: u64 = 0;
    let mut i: usize = 0;
    proof {
        lemma_prefix_sum_ends(g);
        lemma_prefix_sum_ends(a@.probs());
        lemma_prefix_sum_ends(b@.probs());
        lemma_emd_bound(a@, b@);
    }
    while i < n
        invariant
            a.wf(),
            b.wf(),
            a@.mass > 0,
            b@.mass > 0,
            n == shared_bins(a@, b@),
            g == cumulative_gaps(a@, b@),
            0 <= i <= n,
            d == prefix_sum(g, i as int),
            above == prefix_sum(a@.probs(), i as int),
            below == prefix_sum(b@.probs(), i as int),
            sum(g) <= MAX_BINS * ONE,
        decreases n - i,
    {
        proof {
            lemma_prefix_sum_step(g, i as int);
            lemma_prefix_sum_le(g, i as int + 1);
            lemma_prefix_sum_step(a@.probs(), i as int);
            lemma_prefix_sum_step(b@.probs(), i as int);
            lemma_prefix_sum_le(a@.probs(), i as int + 1);
            lemma_prefix_sum_le(b@.probs(), i as int + 1);
            lemma_total_prob_le_one(a@);
            lemma_total_prob_le_one(b@);
        }
        above = above + a.read(i);
        below = below + b.read(i);
        let delta = if above >= below { above - below } else { below - above };
        d = d + delta;
        i = i + 1;
    }
    proof {
        lemma_prefix_sum_ends(g);
    }
    d
}

/// The earth-mover's distance between two histograms, read over the bins
/// that both have.
pub fn emd(a: &Histogram, b: &Histogram) -> (r: Result<u64, Error>)
    requires
        a.wf(),
        b.wf(),
    ensures
        r is Err <==> a@.mass == 0 || b@.mass == 0,
        r matches Err(e) ==> e == Error::DegenerateHistogram,
        r matches Ok(d) ==> d == emd_spec(a@, b@),
{
    if a.s == 0 || b.s == 0 {
        Err(Error::DegenerateHistogram)
    } else {
        Ok(earth_movers(a, b))
    }
}

/// The squared-error distance between two histograms, read over the bins
/// that both have.
pub fn mse(a: &Histogram, b: &Histogram) -> (r: Result<u64, Error>)
    requires
        a.wf(),
        b.wf(),
    ensures
        r is Err <==> a@.mass == 0 || b@.mass == 0,
        r matches Err(e) ==> e == Error::DegenerateHistogram,
        r matches Ok(d) ==> d == mse_spec(a@, b@),
{
    if a.s == 0 || b.s == 0 {
        Err(Error::DegenerateHistogram)
    } else {
        Ok(squared_error(a, b))
    }
}

/// Both distances are symmetric.
pub proof fn lemma_distances_symmetric(a: HistogramView, b: HistogramView)
    ensures
        mse_spec(a, b) == mse_spec(b, a),
        emd_spec(a, b) == emd_spec(b, a),
{
    assert(squared_gaps(a, b) =~= squared_gaps(b, a));
    assert(cumulative_gaps(a, b) =~= cumulative_gaps(b, a));
}

/// Both distances from a histogram to itself are zero.
pub proof fn lemma_distances_self(a: HistogramView)
    ensures
        mse_spec(a, a) == 0,
        emd_spec(a, a) == 0,
{
    assert forall|i: int| 0 <= i < squared_gaps(a, a).len() implies squared_gaps(a, a)[i] == 0 by {
        assert(gap(a.prob(i) as int, a.prob(i) as int) == 0);
        assert(0nat * 0nat == 0) by (nonlinear_arith);
    }
    lemma_sum_zeros(squared_gaps(a, a));
    lemma_sum_zeros(cumulative_gaps(a, a));
}

/// Over histograms of one bin count the earth-mover's distance obeys the
/// triangle inequality.
pub proof fn lemma_emd_triangle(a: HistogramView, b: HistogramView, c: HistogramView)
    requires
        a.bins.len() == b.bins.len(),
        b.bins.len() == c.bins.len(),
    ensures
        emd_spec(a, c) <= emd_spec(a, b) + emd_spec(b, c),
{
    let ab = cumulative_gaps(a, b);
    let bc = cumulative_gaps(b, c);
    let ac = cumulative_gaps(a, c);
    let via = Seq::new(ab.len(), |i: int| ab[i] + bc[i]);
    lemma_sum_pointwise_add(ab, bc, via);
    lemma_sum_monotone(ac, via);
}

/// The views of an optional histogram.
pub open spec fn view_of(input: Option<Histogram>) -> Option<HistogramView> {
    match input {
        Some(h) => Some(h@),
        None => None,
    }
}

/// One step of accumulation: the normalized values of `other` are added, bin
/// by bin and to the recorded mass, to `input`, or to a fresh histogram with
/// the bins of `other` where there is no input yet.
pub open spec fn agg_spec(input: Option<HistogramView>, other: HistogramView) -> HistogramView {
    let base = match input {
        Some(h) => h,
        None => HistogramView::empty(other.bins.len()),
    };
    HistogramView {
        mass: base.mass + prefix_sum(other.probs(), base.bins.len() as int),
        bins: Seq::new(base.bins.len(), |i: int| base.bins[i] + other.prob(i)),
    }
}

/// The accumulation of all `members`, first to last; `None` where there is
/// no member.
pub open spec fn accumulate(members: Seq<HistogramView>) -> Option<HistogramView>
    decreases members.len(),
{
    if members.len() == 0 {
        None
    } else {
        Some(agg_spec(accumulate(members.drop_last()), members.last()))
    }
}

/// The centroid of a non-empty group: the accumulation of its members,
/// rescaled to unit mass.
pub open spec fn combine_spec(members: Seq<HistogramView>) -> HistogramView {
    accumulate(members).unwrap().normalized()
}

/// Adds the normalized values of `other` to the bins and the recorded mass
/// of `acc`.
pub fn absorb(acc: &mut Histogram, other: &Histogram)
    requires
        old(acc).wf(),
        other.wf(),
        other@.mass > 0,
        old(acc).n <= other.n,
        old(acc)@.mass + ONE <= MAX_MASS,
    ensures
        final(acc).wf(),
        final(acc).n == old(acc).n,
        final(acc)@ == agg_spec(Some(old(acc)@), other@),
{
    let ghost base = acc@;
    let n = acc.n;
    let mut i: usize = 0;
    proof {
        lemma_prefix_sum_ends(other@.probs());
        lemma_total_prob_le_one(other@);
    }
    while i < n
        invariant
            acc.wf(),
            other.wf(),
            other@.mass > 0,
            acc.n == n,
            n <= other.n,
            base.bins.len() == n,
            base.mass + ONE <= MAX_MASS,
            other@.total_prob() <= ONE,
            0 <= i <= n,
            acc@.mass == base.mass + prefix_sum(other@.probs(), i as int),
            forall|j: int| 0 <= j < i ==> acc@.bins[j] == base.bins[j] + other@.prob(j),
            forall|j: int| i <= j < n ==> acc@.bins[j] == base.bins[j],
        decreases n - i,
    {
        proof {
            lemma_prefix_sum_step(other@.probs(), i as int);
            lemma_prefix_sum_le(other@.probs(), i as int + 1);
        }
        let p = other.read(i);
        acc.put(i, p as i64);
        i = i + 1;
    }
    proof {
        assert(acc@.bins =~= agg_spec(Some(base), other@).bins);
    }
}

/// One step of accumulation towards a centroid: adds the normalized values
/// of `other` to `input`, or starts a fresh accumulation from them.
pub fn agg(input: Option<Histogram>, other: &Histogram) -> (r: Result<Option<Histogram>, Error>)
    requires
        other.wf(),
        input matches Some(h) ==> h.wf() && h.n <= other.n && h@.mass + ONE <= MAX_MASS,
    ensures
        r is Err <==> other@.mass == 0,
        r matches Err(e) ==> e == Error::DegenerateHistogram,
        r matches Ok(o) ==> {
            &&& o matches Some(h)
            &&& h.wf()
            &&& h@ == agg_spec(view_of(input), other@)
        },
{
    if other.s == 0 {
        return Err(Error::DegenerateHistogram);
    }
    let mut h = match input {
        Some(h) => h,
        None => Histogram::new(other.n),
    };
    absorb(&mut h, other);
    Ok(Some(h))
}

/// Rescaling twice gives what rescaling once gives, bin for bin.
pub proof fn lemma_norm_idempotent(h: HistogramView)
    requires
        h.wf(),
        h.mass > 0,
    ensures
        h.normalized().normalized() == h.normalized(),
        h.normalized().normalized().approx_eq(h.normalized()),
{
    lemma_normalized(h);
}

/// `count` copies of one histogram.
pub open spec fn copies(h: HistogramView, count: nat) -> Seq<HistogramView> {
    Seq::new(count, |i: int| h)
}

/// Accumulating `count` copies of a histogram multiplies its normalized
/// values, and their sum, by `count`.
pub proof fn lemma_accumulate_copies(h: HistogramView, count: nat)
    requires
        count >= 1,
    ensures
        accumulate(copies(h, count)) == Some(
            HistogramView {
                mass: count * h.total_prob(),
                bins: Seq::new(h.bins.len(), |i: int| count * h.prob(i)),
            },
        ),
    decreases count,
{
    let c = copies(h, count);
    let g = h.total_prob();
    lemma_prefix_sum_ends(h.probs());
    assert(c.drop_last() =~= copies(h, (count - 1) as nat));
    let step = agg_spec(accumulate(c.drop_last()), h);
    let goal = HistogramView {
        mass: count * g,
        bins: Seq::new(h.bins.len(), |i: int| count * h.prob(i)),
    };
    assert(c.last() == h);
    assert(accumulate(c) == Some(step));
    if count == 1 {
        assert(accumulate(c.drop_last()) is None);
        assert(step.bins =~= goal.bins);
        assert(1 * g == g) by (nonlinear_arith);
        assert(step.mass == goal.mass);
    } else {
        lemma_accumulate_copies(h, (count - 1) as nat);
        assert((count - 1) * g + g == count * g) by (nonlinear_arith);
        assert forall|i: int| 0 <= i < h.bins.len() implies step.bins[i] == goal.bins[i] by {
            let p = h.prob(i);
            assert((count - 1) * p + p == count * p) by (nonlinear_arith);
        }
        assert(step.bins =~= goal.bins);
        assert(step.mass == goal.mass);
    }
}

/// The centroid of any number of copies of one histogram equals that
/// histogram within the threshold, provided the histogram's normalized values
/// sum to within the threshold of `ONE`.
pub proof fn lemma_combine_copies(h: HistogramView, count: nat)
    requires
        h.wf(),
        h.mass > 0,
        count >= 1,
        h.total_prob() + THRESHOLD > ONE,
    ensures
        combine_spec(copies(h, count)).approx_eq(h),
{
    lemma_accumulate_copies(h, count);
    lemma_total_prob_le_one(h);
    let a = accumulate(copies(h, count)).unwrap();
    let c = a.normalized();
    let g = h.total_prob() as int;
    assert forall|i: int| 0 <= i < c.bins.len() implies {
        &&& #[trigger] c.prob(i) < h.prob(i) + THRESHOLD
        &&& h.prob(i) < c.prob(i) + THRESHOLD
    } by {
        let p = h.prob(i) as int;
        lemma_sum_bounds_element(h.probs(), i);
        let k = count as int;
        assert((k * p) * ONE == k * (p * ONE)) by (nonlinear_arith);
        vstd::arithmetic::div_mod::lemma_div_multiples_vanish_quotient(k, p * ONE, g);
        let q = (p * ONE) / g;
        assert(a.prob(i) == q);
        assert((q * ONE) / (ONE as int) == q) by (nonlinear_arith)
            requires
                ONE == 1_000_000_000,
        ;
        assert(c.prob(i) == q);
        assert(p <= q && q - p <= ONE - g) by (nonlinear_arith)
            requires
                q == (p * ONE) / g,
                0 <= p <= g,
                0 < g <= ONE,
        ;
    }
}

/// A histogram whose bins hold exactly its recorded mass, in fewer bins than
/// the threshold counts parts, has normalized values that sum to within the
/// threshold of `ONE`.
pub proof fn lemma_exact_mass_near_one(h: HistogramView)
    requires
        h.wf(),
        h.mass > 0,
        sum(h.bins) == h.mass,
        h.bins.len() <= THRESHOLD,
    ensures
        h.total_prob() + THRESHOLD > ONE,
{
    lemma_total_prob_exact_mass(h);
}

} // verus!
