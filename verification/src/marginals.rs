//! The marginal tables are the sums of the joint histogram over the dropped
//! axes, every table sums to the number of samples, and a cell count never
//! exceeds the marginal counts it is part of.
use vstd::prelude::*;
use crate::counting::{
    count_where, lemma_count_congruent, lemma_count_monotone, lemma_count_none,
    lemma_count_partition,
    lemma_sum_congruent, sum_to,
};
use crate::entropy::{
    next_past_count, next_past_pred, past_count, past_pred, source_past_count, source_past_pred,
};
use crate::estimator::{all_below, joint_count, joint_pred, sample_count};

verus! {

/// Two binned series over `bins` bins that yield at least one step.
pub open spec fn valid_pair(x: Seq<usize>, y: Seq<usize>, bins: int) -> bool {
    &&& x.len() >= 1
    &&& y.len() >= 1
    &&& all_below(x, bins)
    &&& all_below(y, bins)
}

/// Sum of all cells of the joint histogram, in the order `[x_next][y_n][x_n]`.
pub open spec fn joint_total(x: Seq<usize>, y: Seq<usize>, bins: int) -> int {
    let n = sample_count(x, y);
    sum_to(
        bins,
        |a: int|
            sum_to(bins, |b: int| sum_to(bins, |c: int| joint_count(x, y, n, a, b, c) as int)),
    )
}

spec fn next_source_pred(x: Seq<usize>, y: Seq<usize>, a: int, b: int) -> spec_fn(int) -> bool {
    |i: int| x[i + 1] == a && y[i] == b
}

spec fn next_pred(x: Seq<usize>, a: int) -> spec_fn(int) -> bool {
    |i: int| x[i + 1] == a
}

spec fn any_pred() -> spec_fn(int) -> bool {
    |i: int| true
}

proof fn lemma_count_all(k: int)
    ensures
        count_where(k, any_pred()) == if k <= 0 { 0 } else { k },
    decreases k,
{
    if k > 0 {
        lemma_count_all(k - 1);
    }
}

/// Summing the joint histogram over the next target state gives the
/// source-and-past table: `Σ_a joint[a][b][c] == source_past[b][c]`.
pub proof fn lemma_joint_sum_over_next(x: Seq<usize>, y: Seq<usize>, bins: int, b: int, c: int)
    requires
        valid_pair(x, y, bins),
    ensures
        sum_to(bins, |a: int| joint_count(x, y, sample_count(x, y), a, b, c) as int)
            == source_past_count(x, y, sample_count(x, y), b, c),
{
    let n = sample_count(x, y);
    let part = |a: int| joint_pred(x, y, a, b, c);
    let key = |i: int| x[i + 1] as int;
    assert forall|i: int| 0 <= i < n && #[trigger] source_past_pred(x, y, b, c)(i) implies 0
        <= key(i) < bins by {
        assert(x[i + 1] < bins);
    }
    lemma_count_partition(n, bins, source_past_pred(x, y, b, c), part, key);
    lemma_sum_congruent(
        bins,
        |a: int| joint_count(x, y, n, a, b, c) as int,
        |a: int| count_where(n, part(a)) as int,
    );
}

/// Summing the joint histogram over the source state gives the next-and-past
/// table: `Σ_b joint[a][b][c] == next_past[a][c]`.
pub proof fn lemma_joint_sum_over_source(x: Seq<usize>, y: Seq<usize>, bins: int, a: int, c: int)
    requires
        valid_pair(x, y, bins),
    ensures
        sum_to(bins, |b: int| joint_count(x, y, sample_count(x, y), a, b, c) as int)
            == next_past_count(x, sample_count(x, y), a, c),
{
    let n = sample_count(x, y);
    let part = |b: int| joint_pred(x, y, a, b, c);
    let key = |i: int| y[i] as int;
    assert forall|i: int| 0 <= i < n && #[trigger] next_past_pred(x, a, c)(i) implies 0 <= key(i)
        < bins by {
        assert(y[i] < bins);
    }
    lemma_count_partition(n, bins, next_past_pred(x, a, c), part, key);
    lemma_sum_congruent(
        bins,
        |b: int| joint_count(x, y, n, a, b, c) as int,
        |b: int| count_where(n, part(b)) as int,
    );
}

/// Summing the next-and-past table over the next state gives the past
/// table: `Σ_a next_past[a][c] == past[c]`.
pub proof fn lemma_next_past_sum(x: Seq<usize>, y: Seq<usize>, bins: int, c: int)
    requires
        valid_pair(x, y, bins),
    ensures
        sum_to(bins, |a: int| next_past_count(x, sample_count(x, y), a, c) as int) == past_count(
            x,
            sample_count(x, y),
            c,
        ),
{
    let n = sample_count(x, y);
    let part = |a: int| next_past_pred(x, a, c);
    let key = |i: int| x[i + 1] as int;
    assert forall|i: int| 0 <= i < n && #[trigger] past_pred(x, c)(i) implies 0 <= key(i)
        < bins by {
        assert(x[i + 1] < bins);
    }
    lemma_count_partition(n, bins, past_pred(x, c), part, key);
    lemma_sum_congruent(
        bins,
        |a: int| next_past_count(x, n, a, c) as int,
        |a: int| count_where(n, part(a)) as int,
    );
}

/// Summing the source-and-past table over the source state gives the past
/// table: `Σ_b source_past[b][c] == past[c]`.
pub proof fn lemma_source_past_sum(x: Seq<usize>, y: Seq<usize>, bins: int, c: int)
    requires
        valid_pair(x, y, bins),
    ensures
        sum_to(bins, |b: int| source_past_count(x, y, sample_count(x, y), b, c) as int)
            == past_count(x, sample_count(x, y), c),
{
    let n = sample_count(x, y);
    let part = |b: int| source_past_pred(x, y, b, c);
    let key = |i: int| y[i] as int;
    assert forall|i: int| 0 <= i < n && #[trigger] past_pred(x, c)(i) implies 0 <= key(i)
        < bins by {
        assert(y[i] < bins);
    }
    lemma_count_partition(n, bins, past_pred(x, c), part, key);
    lemma_sum_congruent(
        bins,
        |b: int| source_past_count(x, y, n, b, c) as int,
        |b: int| count_where(n, part(b)) as int,
    );
}

/// The past table sums to the number of samples: `Σ_c past[c] == n`.
pub proof fn lemma_past_total(x: Seq<usize>, y: Seq<usize>, bins: int)
    requires
        valid_pair(x, y, bins),
    ensures
        sum_to(bins, |c: int| past_count(x, sample_count(x, y), c) as int) == sample_count(x, y),
{
    let n = sample_count(x, y);
    let part = |c: int| past_pred(x, c);
    let key = |i: int| x[i] as int;
    assert forall|i: int| 0 <= i < n && #[trigger] any_pred()(i) implies 0 <= key(i) < bins by {
        assert(x[i] < bins);
    }
    lemma_count_partition(n, bins, any_pred(), part, key);
    lemma_count_all(n);
    lemma_sum_congruent(
        bins,
        |c: int| past_count(x, n, c) as int,
        |c: int| count_where(n, part(c)) as int,
    );
}

/// Sum of all cells of the next-and-past table, in the order `[x_next][x_n]`.
pub open spec fn next_past_total(x: Seq<usize>, y: Seq<usize>, bins: int) -> int {
    let n = sample_count(x, y);
    sum_to(bins, |a: int| sum_to(bins, |c: int| next_past_count(x, n, a, c) as int))
}

/// Sum of all cells of the source-and-past table, in the order `[y_n][x_n]`.
pub open spec fn source_past_total(x: Seq<usize>, y: Seq<usize>, bins: int) -> int {
    let n = sample_count(x, y);
    sum_to(bins, |b: int| sum_to(bins, |c: int| source_past_count(x, y, n, b, c) as int))
}

spec fn source_pred(y: Seq<usize>, b: int) -> spec_fn(int) -> bool {
    |i: int| y[i] == b
}

/// The next-and-past table holds one count per sample.
pub proof fn lemma_next_past_total(x: Seq<usize>, y: Seq<usize>, bins: int)
    requires
        valid_pair(x, y, bins),
    ensures
        next_past_total(x, y, bins) == sample_count(x, y),
{
    let n = sample_count(x, y);
    // inner: Σ_c next_past[a][c] == #(x[i+1] == a)
    assert forall|a: int| 0 <= a < bins implies sum_to(
        bins,
        |c: int| next_past_count(x, n, a, c) as int,
    ) == count_where(n, #[trigger] next_pred(x, a)) by {
        let part = |c: int| next_past_pred(x, a, c);
        let key = |i: int| x[i] as int;
        assert forall|i: int| 0 <= i < n && #[trigger] next_pred(x, a)(i) implies 0 <= key(i)
            < bins by {
            assert(x[i] < bins);
        }
        lemma_count_partition(n, bins, next_pred(x, a), part, key);
        lemma_sum_congruent(
            bins,
            |c: int| next_past_count(x, n, a, c) as int,
            |c: int| count_where(n, part(c)) as int,
        );
    }
    // outer: Σ_a #(x[i+1] == a) == n
    let part = |a: int| next_pred(x, a);
    let key = |i: int| x[i + 1] as int;
    assert forall|i: int| 0 <= i < n && #[trigger] any_pred()(i) implies 0 <= key(i) < bins by {
        assert(x[i + 1] < bins);
    }
    lemma_count_partition(n, bins, any_pred(), part, key);
    lemma_count_all(n);
    lemma_sum_congruent(
        bins,
        |a: int| sum_to(bins, |c: int| next_past_count(x, n, a, c) as int),
        |a: int| count_where(n, part(a)) as int,
    );
}

/// The source-and-past table holds one count per sample.
pub proof fn lemma_source_past_total(x: Seq<usize>, y: Seq<usize>, bins: int)
    requires
        valid_pair(x, y, bins),
    ensures
        source_past_total(x, y, bins) == sample_count(x, y),
{
    let n = sample_count(x, y);
    // inner: Σ_c source_past[b][c] == #(y[i] == b)
    assert forall|b: int| 0 <= b < bins implies sum_to(
        bins,
        |c: int| source_past_count(x, y, n, b, c) as int,
    ) == count_where(n, #[trigger] source_pred(y, b)) by {
        let part = |c: int| source_past_pred(x, y, b, c);
        let key = |i: int| x[i] as int;
        assert forall|i: int| 0 <= i < n && #[trigger] source_pred(y, b)(i) implies 0 <= key(i)
            < bins by {
            assert(x[i] < bins);
        }
        lemma_count_partition(n, bins, source_pred(y, b), part, key);
        lemma_sum_congruent(
            bins,
            |c: int| source_past_count(x, y, n, b, c) as int,
            |c: int| count_where(n, part(c)) as int,
        );
    }
    // outer: Σ_b #(y[i] == b) == n
    let part = |b: int| source_pred(y, b);
    let key = |i: int| y[i] as int;
    assert forall|i: int| 0 <= i < n && #[trigger] any_pred()(i) implies 0 <= key(i) < bins by {
        assert(y[i] < bins);
    }
    lemma_count_partition(n, bins, any_pred(), part, key);
    lemma_count_all(n);
    lemma_sum_congruent(
        bins,
        |b: int| sum_to(bins, |c: int| source_past_count(x, y, n, b, c) as int),
        |b: int| count_where(n, part(b)) as int,
    );
}

/// The joint histogram holds one count per sample: its cells add up to
/// `min(x.len(), y.len()) - 1`.
pub proof fn lemma_joint_total(x: Seq<usize>, y: Seq<usize>, bins: int)
    requires
        valid_pair(x, y, bins),
    ensures
        joint_total(x, y, bins) == sample_count(x, y),
{
    let n = sample_count(x, y);
    // innermost: Σ_c joint[a][b][c] == #(x[i+1] == a && y[i] == b)
    assert forall|a: int, b: int|
        0 <= a < bins && 0 <= b < bins implies sum_to(
        bins,
        |c: int| joint_count(x, y, n, a, b, c) as int,
    ) == count_where(n, #[trigger] next_source_pred(x, y, a, b)) by {
        let part = |c: int| joint_pred(x, y, a, b, c);
        let key = |i: int| x[i] as int;
        assert forall|i: int|
            0 <= i < n && #[trigger] next_source_pred(x, y, a, b)(i) implies 0 <= key(i)
            < bins by {
            assert(x[i] < bins);
        }
        lemma_count_partition(n, bins, next_source_pred(x, y, a, b), part, key);
        lemma_sum_congruent(
            bins,
            |c: int| joint_count(x, y, n, a, b, c) as int,
            |c: int| count_where(n, part(c)) as int,
        );
    }
    // middle: Σ_b #(x[i+1] == a && y[i] == b) == #(x[i+1] == a)
    assert forall|a: int| 0 <= a < bins implies sum_to(
        bins,
        |b: int| sum_to(bins, |c: int| joint_count(x, y, n, a, b, c) as int),
    ) == count_where(n, #[trigger] next_pred(x, a)) by {
        let part = |b: int| next_source_pred(x, y, a, b);
        let key = |i: int| y[i] as int;
        assert forall|i: int| 0 <= i < n && #[trigger] next_pred(x, a)(i) implies 0 <= key(i)
            < bins by {
            assert(y[i] < bins);
        }
        lemma_count_partition(n, bins, next_pred(x, a), part, key);
        lemma_sum_congruent(
            bins,
            |b: int| sum_to(bins, |c: int| joint_count(x, y, n, a, b, c) as int),
            |b: int| count_where(n, part(b)) as int,
        );
    }
    // outer: Σ_a #(x[i+1] == a) == n
    let part = |a: int| next_pred(x, a);
    let key = |i: int| x[i + 1] as int;
    assert forall|i: int| 0 <= i < n && #[trigger] any_pred()(i) implies 0 <= key(i) < bins by {
        assert(x[i + 1] < bins);
    }
    lemma_count_partition(n, bins, any_pred(), part, key);
    lemma_count_all(n);
    lemma_sum_congruent(
        bins,
        |a: int|
            sum_to(bins, |b: int| sum_to(bins, |c: int| joint_count(x, y, n, a, b, c) as int)),
        |a: int| count_where(n, part(a)) as int,
    );
}

/// A cell of the joint histogram never exceeds the marginal counts it is
/// part of, and those never exceed the count of the past state:
/// `joint ≤ source_past ≤ past` and `joint ≤ next_past ≤ past`.
/// So the conditional probabilities of the estimate are at most 1, and a
/// positive joint count makes every count it is divided by positive.
pub proof fn lemma_cell_bounds(
    x: Seq<usize>,
    y: Seq<usize>,
    a: int,
    b: int,
    c: int,
)
    ensures
        joint_count(x, y, sample_count(x, y), a, b, c) <= source_past_count(
            x,
            y,
            sample_count(x, y),
            b,
            c,
        ),
        joint_count(x, y, sample_count(x, y), a, b, c) <= next_past_count(
            x,
            sample_count(x, y),
            a,
            c,
        ),
        source_past_count(x, y, sample_count(x, y), b, c) <= past_count(x, sample_count(x, y), c),
        next_past_count(x, sample_count(x, y), a, c) <= past_count(x, sample_count(x, y), c),
{
    let n = sample_count(x, y);
    lemma_count_monotone(n, joint_pred(x, y, a, b, c), source_past_pred(x, y, b, c));
    lemma_count_monotone(n, joint_pred(x, y, a, b, c), next_past_pred(x, a, c));
    lemma_count_monotone(n, source_past_pred(x, y, b, c), past_pred(x, c));
    lemma_count_monotone(n, next_past_pred(x, a, c), past_pred(x, c));
}

/// With the source equal to the target, the source state of a sample is its
/// past state: the joint histogram lies on `y_n == x_n`, where it equals the
/// next-and-past table, and the source-and-past table lies on the same
/// diagonal, where it equals the past table. Every cell the estimate uses
/// then has `joint / source_past == next_past / past`, so TE(X→X) is a sum
/// of `ln 1` terms.
pub proof fn lemma_self_source(x: Seq<usize>, a: int, b: int, c: int)
    ensures
        joint_count(x, x, sample_count(x, x), a, b, c) == if b == c {
            next_past_count(x, sample_count(x, x), a, c)
        } else {
            0
        },
        source_past_count(x, x, sample_count(x, x), b, c) == if b == c {
            past_count(x, sample_count(x, x), c)
        } else {
            0
        },
{
    let n = sample_count(x, x);
    if b == c {
        lemma_count_congruent(n, joint_pred(x, x, a, b, c), next_past_pred(x, a, c));
        lemma_count_congruent(n, source_past_pred(x, x, b, c), past_pred(x, c));
    } else {
        lemma_count_none(n, joint_pred(x, x, a, b, c));
        lemma_count_none(n, source_past_pred(x, x, b, c));
    }
}

/// The estimate's ratio for a cell is `ln 1`: the two conditional
/// probabilities `joint / source_past` and `next_past / past` agree, written
/// without division.
pub open spec fn uninformative_cell(x: Seq<usize>, y: Seq<usize>, a: int, b: int, c: int) -> bool {
    let n = sample_count(x, y);
    joint_count(x, y, n, a, b, c) * past_count(x, n, c) == source_past_count(x, y, n, b, c)
        * next_past_count(x, n, a, c)
}

proof fn lemma_product_commutes(u: int, v: int)
    ensures
        u * v == v * u,
{
    vstd::arithmetic::mul::lemma_mul_is_commutative(u, v);
}

/// A constant source carries nothing: when every sample has the same source
/// state `s`, every cell's ratio is 1, so TE(Y→X) is a sum of `ln 1` terms.
pub proof fn lemma_constant_source(x: Seq<usize>, y: Seq<usize>, s: int, a: int, b: int, c: int)
    requires
        forall|i: int| 0 <= i < sample_count(x, y) ==> #[trigger] y[i] == s,
    ensures
        uninformative_cell(x, y, a, b, c),
{
    let n = sample_count(x, y);
    if b == s {
        lemma_count_congruent(n, joint_pred(x, y, a, b, c), next_past_pred(x, a, c));
        lemma_count_congruent(n, source_past_pred(x, y, b, c), past_pred(x, c));
        assert(joint_count(x, y, n, a, b, c) == next_past_count(x, n, a, c));
        assert(source_past_count(x, y, n, b, c) == past_count(x, n, c));
        lemma_product_commutes(next_past_count(x, n, a, c) as int, past_count(x, n, c) as int);
    } else {
        lemma_count_none(n, joint_pred(x, y, a, b, c));
        lemma_count_none(n, source_past_pred(x, y, b, c));
        assert(joint_count(x, y, n, a, b, c) == 0);
        assert(source_past_count(x, y, n, b, c) == 0);
    }
}

/// When the target's past fixes its next state (`x[i + 1] == next(x[i])` on
/// every sample), the source carries nothing beyond it: every cell's ratio
/// is 1, so TE(Y→X) is a sum of `ln 1` terms.
pub proof fn lemma_determined_target(
    x: Seq<usize>,
    y: Seq<usize>,
    next: spec_fn(int) -> int,
    a: int,
    b: int,
    c: int,
)
    requires
        forall|i: int| 0 <= i < sample_count(x, y) ==> x[i + 1] == next(#[trigger] x[i] as int),
    ensures
        uninformative_cell(x, y, a, b, c),
{
    let n = sample_count(x, y);
    if a == next(c) {
        assert forall|i: int| 0 <= i < n implies #[trigger] joint_pred(x, y, a, b, c)(i)
            == source_past_pred(x, y, b, c)(i) by {
            assert(x[i + 1] == next(x[i] as int));
        }
        assert forall|i: int| 0 <= i < n implies #[trigger] next_past_pred(x, a, c)(i)
            == past_pred(x, c)(i) by {
            assert(x[i + 1] == next(x[i] as int));
        }
        lemma_count_congruent(n, joint_pred(x, y, a, b, c), source_past_pred(x, y, b, c));
        lemma_count_congruent(n, next_past_pred(x, a, c), past_pred(x, c));
        assert(joint_count(x, y, n, a, b, c) == source_past_count(x, y, n, b, c));
        assert(next_past_count(x, n, a, c) == past_count(x, n, c));
        lemma_product_commutes(
            source_past_count(x, y, n, b, c) as int,
            past_count(x, n, c) as int,
        );
    } else {
        assert forall|i: int| 0 <= i < n implies !#[trigger] joint_pred(x, y, a, b, c)(i) by {
            assert(x[i + 1] == next(x[i] as int));
        }
        assert forall|i: int| 0 <= i < n implies !#[trigger] next_past_pred(x, a, c)(i) by {
            assert(x[i + 1] == next(x[i] as int));
        }
        lemma_count_none(n, joint_pred(x, y, a, b, c));
        lemma_count_none(n, next_past_pred(x, a, c));
        assert(joint_count(x, y, n, a, b, c) == 0);
        assert(next_past_count(x, n, a, c) == 0);
    }
}

} // verus!
