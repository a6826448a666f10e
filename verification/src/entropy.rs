use vstd::prelude::*;
use crate::counting::{count_where, lemma_count_bounded};
use crate::marginals::lemma_cell_bounds;
use crate::estimator::{
    all_below, is_cube, is_square, joint_count, sample_count, zero_line, zero_square,
    ProbabilityEstimator,
};

verus! {

/// Sample `i` has target next state `a` and target state `c`.
pub open spec fn next_past_pred(x: Seq<usize>, a: int, c: int) -> spec_fn(int) -> bool {
    |i: int| x[i + 1] == a && x[i] == c
}

/// Sample `i` has source state `b` and target state `c`.
pub open spec fn source_past_pred(x: Seq<usize>, y: Seq<usize>, b: int, c: int) -> spec_fn(
    int,
) -> bool {
    |i: int| y[i] == b && x[i] == c
}

/// Sample `i` has target state `c`.
pub open spec fn past_pred(x: Seq<usize>, c: int) -> spec_fn(int) -> bool {
    |i: int| x[i] == c
}

/// Number of samples among the first `k` with `(x[i + 1], x[i]) == (a, c)`.
pub open spec fn next_past_count(x: Seq<usize>, k: int, a: int, c: int) -> nat {
    count_where(k, next_past_pred(x, a, c))
}

/// Number of samples among the first `k` with `(y[i], x[i]) == (b, c)`.
pub open spec fn source_past_count(x: Seq<usize>, y: Seq<usize>, k: int, b: int, c: int) -> nat {
    count_where(k, source_past_pred(x, y, b, c))
}

/// Number of samples among the first `k` with `x[i] == c`.
pub open spec fn past_count(x: Seq<usize>, k: int, c: int) -> nat {
    count_where(k, past_pred(x, c))
}

/// The count tables that transfer entropy TE(Y→X) is estimated from.
///
/// With `n = samples`, the estimate is
/// `Σ (joint/n) · ln( (joint/source_past) / (next_past/past) )`
/// over the cells `[x_next][y_n][x_n]` whose joint count is positive.
pub struct CountTables {
    /// Number of samples `(x[i + 1], y[i], x[i])`.
    pub samples: usize,
    /// Counts of `(x_next, y_n, x_n)`, indexed `[x_next][y_n][x_n]`.
    pub joint: Vec<Vec<Vec<usize>>>,
    /// Counts of `(x_next, x_n)`, indexed `[x_next][x_n]`.
    pub next_past: Vec<Vec<usize>>,
    /// Counts of `(y_n, x_n)`, indexed `[y_n][x_n]`.
    pub source_past: Vec<Vec<usize>>,
    /// Counts of `x_n`, indexed `[x_n]`.
    pub past: Vec<usize>,
}

/// The counts behind one term of the estimate, for a cell
/// `[x_next][y_n][x_n]`.
#[derive(Clone, Copy, Debug, PartialEq, Eq)]
pub struct TeTerm {
    /// Count of the cell `(x_next, y_n, x_n)`.
    pub joint: usize,
    /// Count of `(y_n, x_n)`.
    pub source_past: usize,
    /// Count of `(x_next, x_n)`.
    pub next_past: usize,
    /// Count of `x_n`.
    pub past: usize,
}

/// The term of cell `(a, b, c)` of the tables.
pub open spec fn cell_term(t: &CountTables, a: int, b: int, c: int) -> TeTerm {
    TeTerm {
        joint: t.joint@[a]@[b]@[c],
        source_past: t.source_past@[b]@[c],
        next_past: t.next_past@[a]@[c],
        past: t.past@[c],
    }
}

/// The terms of the cells `(a, b, 0), ..., (a, b, m - 1)` with a positive
/// joint count, in order.
pub open spec fn row_terms(t: &CountTables, a: int, b: int, m: int) -> Seq<TeTerm>
    decreases m,
{
    if m <= 0 {
        Seq::empty()
    } else if t.joint@[a]@[b]@[m - 1] > 0 {
        row_terms(t, a, b, m - 1).push(cell_term(t, a, b, m - 1))
    } else {
        row_terms(t, a, b, m - 1)
    }
}

/// The terms of the rows `(a, 0), ..., (a, m - 1)`, in order.
pub open spec fn plane_terms(t: &CountTables, a: int, m: int) -> Seq<TeTerm>
    decreases m,
{
    if m <= 0 {
        Seq::empty()
    } else {
        plane_terms(t, a, m - 1) + row_terms(t, a, m - 1, t.past@.len() as int)
    }
}

/// The terms of the planes `0, ..., m - 1`: the cells with a positive joint
/// count in the order `[x_next][y_n][x_n]`.
pub open spec fn cube_terms(t: &CountTables, m: int) -> Seq<TeTerm>
    decreases m,
{
    if m <= 0 {
        Seq::empty()
    } else {
        cube_terms(t, m - 1) + plane_terms(t, m - 1, t.past@.len() as int)
    }
}

/// A term's counts are positive and nested:
/// `0 < joint ≤ source_past ≤ past` and `joint ≤ next_past ≤ past`.
pub open spec fn term_ordered(e: TeTerm) -> bool {
    &&& 0 < e.joint
    &&& e.joint <= e.source_past
    &&& e.source_past <= e.past
    &&& e.joint <= e.next_past
    &&& e.next_past <= e.past
}

impl CountTables {
    /// The number of bins of the tables.
    pub open spec fn bins(&self) -> int {
        self.past@.len() as int
    }

    /// The tables are `bins`-sided and every cell is at most the marginal
    /// counts it is part of.
    pub open spec fn well_formed(&self) -> bool {
        let m = self.bins();
        &&& is_cube(self.joint@, m)
        &&& is_square(self.next_past@, m)
        &&& is_square(self.source_past@, m)
        &&& forall|a: int, b: int, c: int|
            0 <= a < m && 0 <= b < m && 0 <= c < m ==> {
                let j = #[trigger] self.joint@[a]@[b]@[c];
                &&& j <= self.source_past@[b]@[c]
                &&& j <= self.next_past@[a]@[c]
                &&& self.source_past@[b]@[c] <= self.past@[c]
                &&& self.next_past@[a]@[c] <= self.past@[c]
            }
    }

    /// The terms the estimate sums: one per cell with a positive joint count,
    /// in the order `[x_next][y_n][x_n]`.
    pub fn terms(&self) -> (ts: Vec<TeTerm>)
        requires
            self.well_formed(),
        ensures
            ts@ == cube_terms(self, self.bins()),
            forall|k: int| 0 <= k < ts@.len() ==> term_ordered(#[trigger] ts@[k]),
    {
        let m = self.past.len();
        let mut ts: Vec<TeTerm> = Vec::new();
        let mut a: usize = 0;
        while a < m
            invariant
                self.well_formed(),
                m == self.bins(),
                a <= m,
                ts@ == cube_terms(self, a as int),
                forall|k: int| 0 <= k < ts@.len() ==> term_ordered(#[trigger] ts@[k]),
            decreases m - a,
        {
            let ghost before_plane = ts@;
            let mut b: usize = 0;
            while b < m
                invariant
                    self.well_formed(),
                    m == self.bins(),
                    a < m,
                    b <= m,
                    ts@ == before_plane + plane_terms(self, a as int, b as int),
                    forall|k: int| 0 <= k < ts@.len() ==> term_ordered(#[trigger] ts@[k]),
                decreases m - b,
            {
                let ghost before_row = ts@;
                let mut c: usize = 0;
                while c < m
                    invariant
                        self.well_formed(),
                        m == self.bins(),
                        a < m,
                        b < m,
                        c <= m,
                        ts@ == before_row + row_terms(self, a as int, b as int, c as int),
                        forall|k: int| 0 <= k < ts@.len() ==> term_ordered(#[trigger] ts@[k]),
                    decreases m - c,
                {
                    let joint = self.joint[a][b][c];
                    if joint > 0 {
                        let e = TeTerm {
                            joint,
                            source_past: self.source_past[b][c],
                            next_past: self.next_past[a][c],
                            past: self.past[c],
                        };
                        assert(e == cell_term(self, a as int, b as int, c as int));
                        ts.push(e);
                    }
                    c = c + 1;
                }
                b = b + 1;
            }
            a = a + 1;
        }
        ts
    }

    /// The tables hold exactly the counts of the samples of `x` and `y`
    /// over `bins` bins.
    pub open spec fn counts_of(&self, x: Seq<usize>, y: Seq<usize>, bins: int) -> bool {
        let n = sample_count(x, y);
        &&& self.samples == n
        &&& is_cube(self.joint@, bins)
        &&& is_square(self.next_past@, bins)
        &&& is_square(self.source_past@, bins)
        &&& self.past@.len() == bins
        &&& forall|a: int, b: int, c: int|
            0 <= a < bins && 0 <= b < bins && 0 <= c < bins ==> #[trigger] self.joint@[a]@[b]@[c]
                == joint_count(x, y, n, a, b, c)
        &&& forall|a: int, c: int|
            0 <= a < bins && 0 <= c < bins ==> #[trigger] self.next_past@[a]@[c]
                == next_past_count(x, n, a, c)
        &&& forall|b: int, c: int|
            0 <= b < bins && 0 <= c < bins ==> #[trigger] self.source_past@[b]@[c]
                == source_past_count(x, y, n, b, c)
        &&& forall|c: int| 0 <= c < bins ==> #[trigger] self.past@[c] == past_count(x, n, c)
    }
}

/// Transfer entropy TE(Y→X): how much the past of Y tells about the next
/// state of X beyond what the past of X already tells.
pub struct TransferEntropy {
    estimator: ProbabilityEstimator,
}

impl TransferEntropy {
    /// The estimator's number of bins.
    pub closed spec fn spec_bins(&self) -> nat {
        self.estimator.spec_bins()
    }

    /// Create a transfer entropy estimator with `bins` bins (at least two).
    pub fn new(bins: usize) -> (te: Self)
        requires
            bins >= 2,
        ensures
            te.spec_bins() == bins,
    {
        TransferEntropy { estimator: ProbabilityEstimator::new(bins) }
    }

    /// The histogram estimator used.
    pub fn estimator(&self) -> (est: &ProbabilityEstimator)
        ensures
            est.spec_bins() == self.spec_bins(),
    {
        &self.estimator
    }

    /// The joint and marginal count tables of the binned target `x` and
    /// source `y`.
    pub fn count_tables(&self, x: &Vec<usize>, y: &Vec<usize>) -> (t: CountTables)
        requires
            x@.len() >= 1,
            y@.len() >= 1,
            all_below(x@, self.spec_bins() as int),
            all_below(y@, self.spec_bins() as int),
        ensures
            t.counts_of(x@, y@, self.spec_bins() as int),
            t.bins() == self.spec_bins(),
            t.well_formed(),
    {
        let bins = self.estimator.bins();
        let joint = self.estimator.joint_histogram_3d(x, y);
        let mut next_past = zero_square(bins);
        let mut source_past = zero_square(bins);
        let mut past = zero_line(bins);
        let n: usize = if x.len() <= y.len() {
            x.len() - 1
        } else {
            y.len() - 1
        };
        let mut i: usize = 0;
        while i < n
            invariant
                i <= n,
                n == sample_count(x@, y@),
                bins == self.spec_bins(),
                all_below(x@, bins as int),
                all_below(y@, bins as int),
                is_square(next_past@, bins as int),
                is_square(source_past@, bins as int),
                past@.len() == bins,
                forall|a: int, c: int|
                    0 <= a < bins && 0 <= c < bins ==> #[trigger] next_past@[a]@[c]
                        == next_past_count(x@, i as int, a, c),
                forall|b: int, c: int|
                    0 <= b < bins && 0 <= c < bins ==> #[trigger] source_past@[b]@[c]
                        == source_past_count(x@, y@, i as int, b, c),
                forall|c: int| 0 <= c < bins ==> #[trigger] past@[c] == past_count(x@, i as int, c),
            decreases n - i,
        {
            let a = x[i + 1];
            let b = y[i];
            let c = x[i];
            proof {
                lemma_count_bounded(i as int, next_past_pred(x@, a as int, c as int));
                lemma_count_bounded(i as int, source_past_pred(x@, y@, b as int, c as int));
                lemma_count_bounded(i as int, past_pred(x@, c as int));
            }
            let np = next_past[a][c];
            next_past[a][c] = np + 1;
            let sp = source_past[b][c];
            source_past[b][c] = sp + 1;
            let p = past[c];
            past[c] = p + 1;
            i = i + 1;
        }
        let t = CountTables { samples: n, joint, next_past, source_past, past };
        assert forall|a: int, b: int, c: int|
            0 <= a < bins && 0 <= b < bins && 0 <= c < bins implies {
            let j = #[trigger] t.joint@[a]@[b]@[c];
            &&& j <= t.source_past@[b]@[c]
            &&& j <= t.next_past@[a]@[c]
            &&& t.source_past@[b]@[c] <= t.past@[c]
            &&& t.next_past@[a]@[c] <= t.past@[c]
        } by {
            lemma_cell_bounds(x@, y@, a, b, c);
            assert(t.joint@[a]@[b]@[c] == joint_count(x@, y@, n as int, a, b, c));
            assert(t.source_past@[b]@[c] == source_past_count(x@, y@, n as int, b, c));
            assert(t.next_past@[a]@[c] == next_past_count(x@, n as int, a, c));
            assert(t.past@[c] == past_count(x@, n as int, c));
        }
        assert(t.counts_of(x@, y@, bins as int));
        assert(t.bins() == bins);
        t
    }
}

/// Conditional transfer entropy TE(Y→X | Z), controlling for a third series.
pub struct ConditionalTE {
    estimator: ProbabilityEstimator,
}

impl ConditionalTE {
    /// The estimator's number of bins.
    pub closed spec fn spec_bins(&self) -> nat {
        self.estimator.spec_bins()
    }

    /// Create with `bins` bins (at least two).
    pub fn new(bins: usize) -> (cte: Self)
        requires
            bins >= 2,
        ensures
            cte.spec_bins() == bins,
    {
        ConditionalTE { estimator: ProbabilityEstimator::new(bins) }
    }

    /// The histogram estimator used.
    pub fn estimator(&self) -> (est: &ProbabilityEstimator)
        ensures
            est.spec_bins() == self.spec_bins(),
    {
        &self.estimator
    }
}

} // verus!
