//! What the terms of the estimate are, in terms of the two binned series:
//! each term carries the four counts of one cell with a positive joint
//! count, the joint counts of the terms add up to the number of samples, and
//! when the source tells nothing about the next target state every term's
//! ratio is 1.
use vstd::prelude::*;
use crate::counting::{lemma_sum_congruent, sum_to};
use crate::entropy::{
    cell_term, cube_terms, next_past_count, past_count, plane_terms, row_terms,
    source_past_count, CountTables, TeTerm,
};
use crate::estimator::{joint_count, sample_count};
use crate::marginals::{
    joint_total, lemma_constant_source, lemma_determined_target, lemma_joint_total,
    lemma_self_source, uninformative_cell, valid_pair,
};

verus! {

/// `e` is the term of the cell `(a, b, c)` of `t`, whose joint count is positive.
pub open spec fn is_cell_term(t: &CountTables, e: TeTerm, a: int, b: int, c: int) -> bool {
    &&& 0 <= a < t.bins()
    &&& 0 <= b < t.bins()
    &&& 0 <= c < t.bins()
    &&& t.joint@[a]@[b]@[c] > 0
    &&& e == cell_term(t, a, b, c)
}

/// `e` is the term of some cell `(a, b, c)` with `c < m`.
pub open spec fn term_of_row(t: &CountTables, e: TeTerm, a: int, b: int, m: int) -> bool {
    exists|c: int| #![trigger is_cell_term(t, e, a, b, c)] c < m && is_cell_term(t, e, a, b, c)
}

/// `e` is the term of some cell `(a, b, c)`.
pub open spec fn term_of_plane(t: &CountTables, e: TeTerm, a: int) -> bool {
    exists|b: int, c: int| #![trigger is_cell_term(t, e, a, b, c)] is_cell_term(t, e, a, b, c)
}

/// `e` is the term of some cell of `t`.
pub open spec fn term_of_cube(t: &CountTables, e: TeTerm) -> bool {
    exists|a: int, b: int, c: int| #![trigger is_cell_term(t, e, a, b, c)] is_cell_term(t, e, a, b, c)
}

/// `e` holds the counts of the cell `(a, b, c)` of the samples of `x` and `y`:
/// `e.joint` samples have `(x[i + 1], y[i], x[i]) == (a, b, c)` (at least one),
/// `e.source_past` have `(y[i], x[i]) == (b, c)`, `e.next_past` have
/// `(x[i + 1], x[i]) == (a, c)` and `e.past` have `x[i] == c`.
pub open spec fn counts_cell(
    x: Seq<usize>,
    y: Seq<usize>,
    bins: int,
    e: TeTerm,
    a: int,
    b: int,
    c: int,
) -> bool {
    let n = sample_count(x, y);
    &&& 0 <= a < bins
    &&& 0 <= b < bins
    &&& 0 <= c < bins
    &&& e.joint > 0
    &&& e.joint == joint_count(x, y, n, a, b, c)
    &&& e.source_past == source_past_count(x, y, n, b, c)
    &&& e.next_past == next_past_count(x, n, a, c)
    &&& e.past == past_count(x, n, c)
}

/// `e` holds the counts of some cell of the samples of `x` and `y`.
pub open spec fn counts_some_cell(x: Seq<usize>, y: Seq<usize>, bins: int, e: TeTerm) -> bool {
    exists|a: int, b: int, c: int|
        #![trigger counts_cell(x, y, bins, e, a, b, c)]
        counts_cell(x, y, bins, e, a, b, c)
}

/// Sum of the joint counts of a list of terms.
pub open spec fn joint_sum(s: Seq<TeTerm>) -> int
    decreases s.len(),
{
    if s.len() == 0 {
        0
    } else {
        joint_sum(s.drop_last()) + s.last().joint
    }
}

proof fn lemma_joint_sum_concat(s1: Seq<TeTerm>, s2: Seq<TeTerm>)
    ensures
        joint_sum(s1 + s2) == joint_sum(s1) + joint_sum(s2),
    decreases s2.len(),
{
    if s2.len() > 0 {
        lemma_joint_sum_concat(s1, s2.drop_last());
        assert((s1 + s2).drop_last() =~= s1 + s2.drop_last());
    }
}

proof fn lemma_row_terms(t: &CountTables, a: int, b: int, m: int)
    requires
        0 <= a < t.bins(),
        0 <= b < t.bins(),
        m <= t.bins(),
        t.well_formed(),
    ensures
        forall|k: int|
            0 <= k < row_terms(t, a, b, m).len() ==> #[trigger] term_of_row(
                t,
                row_terms(t, a, b, m)[k],
                a,
                b,
                m,
            ),
        joint_sum(row_terms(t, a, b, m)) == sum_to(m, |c: int| t.joint@[a]@[b]@[c] as int),
    decreases m,
{
    if m > 0 {
        lemma_row_terms(t, a, b, m - 1);
        let prev = row_terms(t, a, b, m - 1);
        let cur = row_terms(t, a, b, m);
        if t.joint@[a]@[b]@[m - 1] > 0 {
            assert(cur == prev.push(cell_term(t, a, b, m - 1)));
            assert(cur.drop_last() =~= prev);
        }
        assert forall|k: int| 0 <= k < cur.len() implies #[trigger] term_of_row(
            t,
            cur[k],
            a,
            b,
            m,
        ) by {
            if k < prev.len() {
                assert(cur[k] == prev[k]);
                assert(term_of_row(t, prev[k], a, b, m - 1));
                let c = choose|c: int|
                    #![trigger is_cell_term(t, prev[k], a, b, c)]
                    c < m - 1 && is_cell_term(t, prev[k], a, b, c);
                assert(is_cell_term(t, cur[k], a, b, c));
            } else {
                assert(is_cell_term(t, cur[k], a, b, m - 1));
            }
        }
    }
}

proof fn lemma_plane_terms(t: &CountTables, a: int, m: int)
    requires
        0 <= a < t.bins(),
        m <= t.bins(),
        t.well_formed(),
    ensures
        forall|k: int|
            0 <= k < plane_terms(t, a, m).len() ==> #[trigger] term_of_plane(
                t,
                plane_terms(t, a, m)[k],
                a,
            ),
        joint_sum(plane_terms(t, a, m)) == sum_to(
            m,
            |b: int| sum_to(t.bins(), |c: int| t.joint@[a]@[b]@[c] as int),
        ),
    decreases m,
{
    if m > 0 {
        lemma_plane_terms(t, a, m - 1);
        lemma_row_terms(t, a, m - 1, t.bins());
        let prev = plane_terms(t, a, m - 1);
        let row = row_terms(t, a, m - 1, t.bins());
        let cur = plane_terms(t, a, m);
        assert(cur == prev + row);
        lemma_joint_sum_concat(prev, row);
        assert forall|k: int| 0 <= k < cur.len() implies #[trigger] term_of_plane(t, cur[k], a) by {
            if k < prev.len() {
                assert(cur[k] == prev[k]);
                assert(term_of_plane(t, prev[k], a));
            } else {
                assert(cur[k] == row[k - prev.len()]);
                assert(term_of_row(t, row[k - prev.len()], a, m - 1, t.bins()));
                let c = choose|c: int|
                    #![trigger is_cell_term(t, row[k - prev.len()], a, m - 1, c)]
                    c < t.bins() && is_cell_term(t, row[k - prev.len()], a, m - 1, c);
                assert(is_cell_term(t, cur[k], a, m - 1, c));
            }
        }
    }
}

proof fn lemma_cube_terms(t: &CountTables, m: int)
    requires
        m <= t.bins(),
        t.well_formed(),
    ensures
        forall|k: int|
            0 <= k < cube_terms(t, m).len() ==> #[trigger] term_of_cube(t, cube_terms(t, m)[k]),
        joint_sum(cube_terms(t, m)) == sum_to(
            m,
            |a: int|
                sum_to(
                    t.bins(),
                    |b: int| sum_to(t.bins(), |c: int| t.joint@[a]@[b]@[c] as int),
                ),
        ),
    decreases m,
{
    if m > 0 {
        lemma_cube_terms(t, m - 1);
        lemma_plane_terms(t, m - 1, t.bins());
        let prev = cube_terms(t, m - 1);
        let plane = plane_terms(t, m - 1, t.bins());
        let cur = cube_terms(t, m);
        assert(cur == prev + plane);
        lemma_joint_sum_concat(prev, plane);
        assert forall|k: int| 0 <= k < cur.len() implies #[trigger] term_of_cube(t, cur[k]) by {
            if k < prev.len() {
                assert(cur[k] == prev[k]);
                assert(term_of_cube(t, prev[k]));
            } else {
                assert(cur[k] == plane[k - prev.len()]);
                assert(term_of_plane(t, plane[k - prev.len()], m - 1));
                let (b, c) = choose|b: int, c: int|
                    #![trigger is_cell_term(t, plane[k - prev.len()], m - 1, b, c)]
                    is_cell_term(t, plane[k - prev.len()], m - 1, b, c);
                assert(is_cell_term(t, cur[k], m - 1, b, c));
            }
        }
    }
}

/// Each term of the estimate holds the counts of one cell of the samples:
/// for the term at position `k` there is a cell `(a, b, c)` with a positive
/// joint count whose joint, source-and-past, next-and-past and past counts
/// over the samples of `x` and `y` are the term's four fields.
pub proof fn lemma_terms_count_cells(t: &CountTables, x: Seq<usize>, y: Seq<usize>, bins: int)
    requires
        t.counts_of(x, y, bins),
        t.well_formed(),
    ensures
        forall|k: int|
            0 <= k < cube_terms(t, bins).len() ==> #[trigger] counts_some_cell(
                x,
                y,
                bins,
                cube_terms(t, bins)[k],
            ),
{
    lemma_cube_terms(t, bins);
    assert forall|k: int| 0 <= k < cube_terms(t, bins).len() implies #[trigger] counts_some_cell(
        x,
        y,
        bins,
        cube_terms(t, bins)[k],
    ) by {
        let e = cube_terms(t, bins)[k];
        assert(term_of_cube(t, e));
        let (a, b, c) = choose|a: int, b: int, c: int|
            #![trigger is_cell_term(t, e, a, b, c)]
            is_cell_term(t, e, a, b, c);
        assert(counts_cell(x, y, bins, e, a, b, c));
    }
}

/// Every sample is counted in exactly one term: the joint counts of the
/// terms add up to the number of samples `min(x.len(), y.len()) - 1`.
pub proof fn lemma_terms_cover_samples(t: &CountTables, x: Seq<usize>, y: Seq<usize>, bins: int)
    requires
        t.counts_of(x, y, bins),
        t.well_formed(),
        valid_pair(x, y, bins),
    ensures
        joint_sum(cube_terms(t, bins)) == sample_count(x, y),
{
    let n = sample_count(x, y);
    lemma_cube_terms(t, bins);
    lemma_joint_total(x, y, bins);
    assert forall|a: int| #![trigger t.joint@[a]] 0 <= a < bins implies sum_to(
        bins,
        |b: int| sum_to(bins, |c: int| t.joint@[a]@[b]@[c] as int),
    ) == sum_to(bins, |b: int| sum_to(bins, |c: int| joint_count(x, y, n, a, b, c) as int)) by {
        assert forall|b: int| #![trigger t.joint@[a]@[b]] 0 <= b < bins implies sum_to(
            bins,
            |c: int| t.joint@[a]@[b]@[c] as int,
        ) == sum_to(bins, |c: int| joint_count(x, y, n, a, b, c) as int) by {
            lemma_sum_congruent(
                bins,
                |c: int| t.joint@[a]@[b]@[c] as int,
                |c: int| joint_count(x, y, n, a, b, c) as int,
            );
        }
        lemma_sum_congruent(
            bins,
            |b: int| sum_to(bins, |c: int| t.joint@[a]@[b]@[c] as int),
            |b: int| sum_to(bins, |c: int| joint_count(x, y, n, a, b, c) as int),
        );
    }
    lemma_sum_congruent(
        bins,
        |a: int| sum_to(bins, |b: int| sum_to(bins, |c: int| t.joint@[a]@[b]@[c] as int)),
        |a: int|
            sum_to(bins, |b: int| sum_to(bins, |c: int| joint_count(x, y, n, a, b, c) as int)),
    );
}

/// The ratio of a term is 1: `joint / source_past == next_past / past`,
/// written without division.
pub open spec fn term_uninformative(e: TeTerm) -> bool {
    e.joint * e.past == e.source_past * e.next_past
}

/// When no cell of the samples is informative, no term of the estimate is:
/// every term's ratio is 1 and the estimate is a sum of `ln 1` terms.
pub proof fn lemma_terms_uninformative(t: &CountTables, x: Seq<usize>, y: Seq<usize>, bins: int)
    requires
        t.counts_of(x, y, bins),
        t.well_formed(),
        forall|a: int, b: int, c: int|
            0 <= a < bins && 0 <= b < bins && 0 <= c < bins ==> #[trigger] uninformative_cell(
                x,
                y,
                a,
                b,
                c,
            ),
    ensures
        forall|k: int|
            0 <= k < cube_terms(t, bins).len() ==> #[trigger] term_uninformative(
                cube_terms(t, bins)[k],
            ),
{
    lemma_terms_count_cells(t, x, y, bins);
    assert forall|k: int| 0 <= k < cube_terms(t, bins).len() implies #[trigger] term_uninformative(
        cube_terms(t, bins)[k],
    ) by {
        let e = cube_terms(t, bins)[k];
        assert(counts_some_cell(x, y, bins, e));
        let (a, b, c) = choose|a: int, b: int, c: int|
            #![trigger counts_cell(x, y, bins, e, a, b, c)]
            counts_cell(x, y, bins, e, a, b, c);
        assert(uninformative_cell(x, y, a, b, c));
    }
}

/// TE(X→X) is zero: with the source equal to the target, every term of the
/// estimate has `joint · past == source_past · next_past`.
pub proof fn lemma_self_terms_uninformative(t: &CountTables, x: Seq<usize>, bins: int)
    requires
        t.counts_of(x, x, bins),
        t.well_formed(),
    ensures
        forall|k: int|
            0 <= k < cube_terms(t, bins).len() ==> #[trigger] term_uninformative(
                cube_terms(t, bins)[k],
            ),
{
    let n = sample_count(x, x);
    assert forall|a: int, b: int, c: int|
        0 <= a < bins && 0 <= b < bins && 0 <= c < bins implies #[trigger] uninformative_cell(
        x,
        x,
        a,
        b,
        c,
    ) by {
        lemma_self_source(x, a, b, c);
        let np = next_past_count(x, n, a, c) as int;
        let p = past_count(x, n, c) as int;
        assert(np * p == p * np) by (nonlinear_arith);
    }
    lemma_terms_uninformative(t, x, x, bins);
}

/// A constant source contributes nothing: when every sample has source
/// state `s`, every term of the estimate has ratio 1.
pub proof fn lemma_constant_source_terms(
    t: &CountTables,
    x: Seq<usize>,
    y: Seq<usize>,
    bins: int,
    s: int,
)
    requires
        t.counts_of(x, y, bins),
        t.well_formed(),
        forall|i: int| 0 <= i < sample_count(x, y) ==> #[trigger] y[i] == s,
    ensures
        forall|k: int|
            0 <= k < cube_terms(t, bins).len() ==> #[trigger] term_uninformative(
                cube_terms(t, bins)[k],
            ),
{
    assert forall|a: int, b: int, c: int|
        0 <= a < bins && 0 <= b < bins && 0 <= c < bins implies #[trigger] uninformative_cell(
        x,
        y,
        a,
        b,
        c,
    ) by {
        lemma_constant_source(x, y, s, a, b, c);
    }
    lemma_terms_uninformative(t, x, y, bins);
}

/// When the target's past fixes its next state, every term of the estimate
/// has ratio 1, whatever the source.
pub proof fn lemma_determined_target_terms(
    t: &CountTables,
    x: Seq<usize>,
    y: Seq<usize>,
    bins: int,
    next: spec_fn(int) -> int,
)
    requires
        t.counts_of(x, y, bins),
        t.well_formed(),
        forall|i: int| 0 <= i < sample_count(x, y) ==> x[i + 1] == next(#[trigger] x[i] as int),
    ensures
        forall|k: int|
            0 <= k < cube_terms(t, bins).len() ==> #[trigger] term_uninformative(
                cube_terms(t, bins)[k],
            ),
{
    assert forall|a: int, b: int, c: int|
        0 <= a < bins && 0 <= b < bins && 0 <= c < bins implies #[trigger] uninformative_cell(
        x,
        y,
        a,
        b,
        c,
    ) by {
        lemma_determined_target(x, y, next, a, b, c);
    }
    lemma_terms_uninformative(t, x, y, bins);
}

} // verus!
