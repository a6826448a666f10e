use vstd::prelude::*;
use crate::counting::{count_where, lemma_count_bounded};

verus! {

/// Every entry of `s` is below `m`: a sequence of bin indices for `m` bins.
pub open spec fn all_below(s: Seq<usize>, m: int) -> bool {
    forall|i: int| 0 <= i < s.len() ==> #[trigger] s[i] < m
}

/// Number of samples that two binned series yield: one per step `i -> i + 1`
/// that both series cover.
pub open spec fn sample_count(x: Seq<usize>, y: Seq<usize>) -> int {
    if x.len() <= y.len() {
        x.len() - 1
    } else {
        y.len() - 1
    }
}

/// Sample `i` has target next state `a`, source state `b` and target state `c`.
pub open spec fn joint_pred(x: Seq<usize>, y: Seq<usize>, a: int, b: int, c: int) -> spec_fn(
    int,
) -> bool {
    |i: int| x[i + 1] == a && y[i] == b && x[i] == c
}

/// Number of samples among the first `k` whose triple
/// `(x[i + 1], y[i], x[i])` is `(a, b, c)`.
pub open spec fn joint_count(x: Seq<usize>, y: Seq<usize>, k: int, a: int, b: int, c: int) -> nat {
    count_where(k, joint_pred(x, y, a, b, c))
}

/// `h` is an `n x n x n` table.
pub open spec fn is_cube(h: Seq<Vec<Vec<usize>>>, n: int) -> bool {
    &&& h.len() == n
    &&& forall|a: int| 0 <= a < n ==> #[trigger] h[a]@.len() == n
    &&& forall|a: int, b: int| 0 <= a < n && 0 <= b < n ==> #[trigger] h[a]@[b]@.len() == n
}

/// `t` is an `n x n` table.
pub open spec fn is_square(t: Seq<Vec<usize>>, n: int) -> bool {
    &&& t.len() == n
    &&& forall|a: int| 0 <= a < n ==> #[trigger] t[a]@.len() == n
}

/// A table of `n` zeros.
pub(crate) fn zero_line(n: usize) -> (v: Vec<usize>)
    ensures
        v@.len() == n,
        forall|c: int| 0 <= c < n ==> #[trigger] v@[c] == 0,
{
    let mut v: Vec<usize> = Vec::new();
    let mut k: usize = 0;
    while k < n
        invariant
            k <= n,
            v@.len() == k,
            forall|c: int| 0 <= c < k ==> #[trigger] v@[c] == 0,
        decreases n - k,
    {
        v.push(0);
        k = k + 1;
    }
    v
}

/// An `n x n` table of zeros.
pub(crate) fn zero_square(n: usize) -> (t: Vec<Vec<usize>>)
    ensures
        is_square(t@, n as int),
        forall|b: int, c: int| 0 <= b < n && 0 <= c < n ==> #[trigger] t@[b]@[c] == 0,
{
    let mut t: Vec<Vec<usize>> = Vec::new();
    let mut k: usize = 0;
    while k < n
        invariant
            k <= n,
            t@.len() == k,
            forall|b: int| 0 <= b < k ==> #[trigger] t@[b]@.len() == n,
            forall|b: int, c: int| 0 <= b < k && 0 <= c < n ==> #[trigger] t@[b]@[c] == 0,
        decreases n - k,
    {
        t.push(zero_line(n));
        k = k + 1;
    }
    t
}

/// An `n x n x n` table of zeros.
pub(crate) fn zero_cube(n: usize) -> (h: Vec<Vec<Vec<usize>>>)
    ensures
        is_cube(h@, n as int),
        forall|a: int, b: int, c: int|
            0 <= a < n && 0 <= b < n && 0 <= c < n ==> #[trigger] h@[a]@[b]@[c] == 0,
{
    let mut h: Vec<Vec<Vec<usize>>> = Vec::new();
    let mut k: usize = 0;
    while k < n
        invariant
            k <= n,
            h@.len() == k,
            forall|a: int| 0 <= a < k ==> #[trigger] h@[a]@.len() == n,
            forall|a: int, b: int| 0 <= a < k && 0 <= b < n ==> #[trigger] h@[a]@[b]@.len() == n,
            forall|a: int, b: int, c: int|
                0 <= a < k && 0 <= b < n && 0 <= c < n ==> #[trigger] h@[a]@[b]@[c] == 0,
        decreases n - k,
    {
        h.push(zero_square(n));
        k = k + 1;
    }
    h
}

/// Equal-width histogram estimator over a fixed number of bins.
pub struct ProbabilityEstimator {
    bins: usize,
}

impl ProbabilityEstimator {
    #[verifier::type_invariant]
    spec fn has_enough_bins(&self) -> bool {
        self.bins >= 2
    }

    /// The number of bins.
    pub closed spec fn spec_bins(&self) -> nat {
        self.bins as nat
    }

    /// Create an estimator with `bins` bins; at least two are needed.
    pub fn new(bins: usize) -> (est: Self)
        requires
            bins >= 2,
        ensures
            est.spec_bins() == bins,
    {
        ProbabilityEstimator { bins }
    }

    /// Number of bins.
    pub fn bins(&self) -> (n: usize)
        ensures
            n == self.spec_bins(),
            n >= 2,
    {
        proof {
            use_type_invariant(self);
        }
        self.bins
    }

    /// Clamp a raw bin position to the last bin: values at or above the top
    /// of the range fall into bin `bins - 1`.
    pub fn clamp_bin(&self, raw: usize) -> (bin: usize)
        ensures
            bin == if raw < self.spec_bins() { raw as int } else { self.spec_bins() - 1 },
            bin < self.spec_bins(),
    {
        proof {
            use_type_invariant(self);
        }
        if raw < self.bins - 1 {
            raw
        } else {
            self.bins - 1
        }
    }

    /// Joint histogram of the triples `(x[i + 1], y[i], x[i])` of two binned
    /// series, indexed `[x_next][y_n][x_n]`: one count per sample `i` of the
    /// `min(x.len(), y.len()) - 1` samples.
    pub fn joint_histogram_3d(&self, x: &Vec<usize>, y: &Vec<usize>) -> (hist: Vec<
        Vec<Vec<usize>>,
    >)
        requires
            x@.len() >= 1,
            y@.len() >= 1,
            all_below(x@, self.spec_bins() as int),
            all_below(y@, self.spec_bins() as int),
        ensures
            is_cube(hist@, self.spec_bins() as int),
            forall|a: int, b: int, c: int|
                0 <= a < self.spec_bins() && 0 <= b < self.spec_bins() && 0 <= c < self.spec_bins()
                    ==> #[trigger] hist@[a]@[b]@[c] == joint_count(
                    x@,
                    y@,
                    sample_count(x@, y@),
                    a,
                    b,
                    c,
                ),
    {
        let bins = self.bins;
        let mut hist = zero_cube(bins);
        let n: usize = if x.len() <= y.len() {
            x.len() - 1
        } else {
            y.len() - 1
        };
        let mut i: usize = 0;
        while i < n
            invariant
                i <= n,
                n == sample_count(x@, y@),
                bins == self.spec_bins(),
                all_below(x@, bins as int),
                all_below(y@, bins as int),
                is_cube(hist@, bins as int),
                forall|a: int, b: int, c: int|
                    0 <= a < bins && 0 <= b < bins && 0 <= c < bins ==> #[trigger] hist@[a]@[b]@[c]
                        == joint_count(x@, y@, i as int, a, b, c),
            decreases n - i,
        {
            let a = x[i + 1];
            let b = y[i];
            let c = x[i];
            proof {
                lemma_count_bounded(i as int, joint_pred(x@, y@, a as int, b as int, c as int));
            }
            let old_count = hist[a][b][c];
            hist[a][b][c] = old_count + 1;
            i = i + 1;
        }
        hist
    }
}

} // verus!
