use vstd::prelude::*;

verus! {

/// Number of indices `i` in `[0, k)` for which `p(i)` holds.
pub open spec fn count_where(k: int, p: spec_fn(int) -> bool) -> nat
    decreases k,
{
    if k <= 0 {
        0
    } else {
        count_where(k - 1, p) + if p(k - 1) { 1nat } else { 0nat }
    }
}

/// Sum of `f(a)` for `a` in `[0, m)`.
pub open spec fn sum_to(m: int, f: spec_fn(int) -> int) -> int
    decreases m,
{
    if m <= 0 {
        0
    } else {
        sum_to(m - 1, f) + f(m - 1)
    }
}

/// A count never exceeds the number of indices it ranges over.
pub proof fn lemma_count_bounded(k: int, p: spec_fn(int) -> bool)
    ensures
        count_where(k, p) <= if k <= 0 { 0 } else { k },
    decreases k,
{
    if k > 0 {
        lemma_count_bounded(k - 1, p);
    }
}

/// Counting is monotone in the predicate.
pub proof fn lemma_count_monotone(k: int, p: spec_fn(int) -> bool, q: spec_fn(int) -> bool)
    requires
        forall|i: int| 0 <= i < k && #[trigger] p(i) ==> q(i),
    ensures
        count_where(k, p) <= count_where(k, q),
    decreases k,
{
    if k > 0 {
        lemma_count_monotone(k - 1, p, q);
    }
}

/// A predicate that holds nowhere on `[0, k)` counts zero.
pub proof fn lemma_count_none(k: int, p: spec_fn(int) -> bool)
    requires
        forall|i: int| 0 <= i < k ==> !#[trigger] p(i),
    ensures
        count_where(k, p) == 0,
    decreases k,
{
    if k > 0 {
        lemma_count_none(k - 1, p);
    }
}

/// Counts of two predicates that agree on `[0, k)` are equal.
pub proof fn lemma_count_congruent(k: int, p: spec_fn(int) -> bool, q: spec_fn(int) -> bool)
    requires
        forall|i: int| 0 <= i < k ==> #[trigger] p(i) == q(i),
    ensures
        count_where(k, p) == count_where(k, q),
    decreases k,
{
    if k > 0 {
        lemma_count_congruent(k - 1, p, q);
    }
}

/// Sums of two functions that agree on `[0, m)` are equal.
pub proof fn lemma_sum_congruent(m: int, f: spec_fn(int) -> int, g: spec_fn(int) -> int)
    requires
        forall|a: int| 0 <= a < m ==> #[trigger] f(a) == g(a),
    ensures
        sum_to(m, f) == sum_to(m, g),
    decreases m,
{
    if m > 0 {
        lemma_sum_congruent(m - 1, f, g);
    }
}

/// A sum of pointwise sums is the sum of the two sums.
pub proof fn lemma_sum_split(
    m: int,
    f: spec_fn(int) -> int,
    g: spec_fn(int) -> int,
    h: spec_fn(int) -> int,
)
    requires
        forall|a: int| 0 <= a < m ==> #[trigger] f(a) == g(a) + h(a),
    ensures
        sum_to(m, f) == sum_to(m, g) + sum_to(m, h),
    decreases m,
{
    if m > 0 {
        lemma_sum_split(m - 1, f, g, h);
    }
}

/// The sum of an indicator of the single point `v` is 1 when `v` is in
/// range and 0 otherwise.
pub proof fn lemma_sum_indicator(m: int, e: spec_fn(int) -> int, v: int)
    requires
        forall|a: int| 0 <= a < m ==> #[trigger] e(a) == if a == v { 1int } else { 0int },
    ensures
        sum_to(m, e) == if 0 <= v < m { 1int } else { 0int },
    decreases m,
{
    if m > 0 {
        lemma_sum_indicator(m - 1, e, v);
    }
}

/// Partition of a count by a key: when the predicates `part(a)` split `whole`
/// according to the value `key(i)`, which lies in `[0, m)`, the counts of
/// the parts add up to the count of the whole.
pub proof fn lemma_count_partition(
    k: int,
    m: int,
    whole: spec_fn(int) -> bool,
    part: spec_fn(int) -> spec_fn(int) -> bool,
    key: spec_fn(int) -> int,
)
    requires
        forall|i: int, a: int|
            0 <= i < k && 0 <= a < m ==> #[trigger] part(a)(i) == (whole(i) && key(i) == a),
        forall|i: int| 0 <= i < k && #[trigger] whole(i) ==> 0 <= key(i) < m,
    ensures
        sum_to(m, |a: int| count_where(k, part(a)) as int) == count_where(k, whole),
    decreases k,
{
    let f = |a: int| count_where(k, part(a)) as int;
    if k <= 0 {
        lemma_sum_indicator(m, f, -1);
    } else {
        let g = |a: int| count_where(k - 1, part(a)) as int;
        let e = |a: int| if part(a)(k - 1) { 1int } else { 0int };
        assert forall|a: int| 0 <= a < m implies #[trigger] f(a) == g(a) + e(a) by {
            assert(count_where(k, part(a)) == count_where(k - 1, part(a)) + if part(a)(k - 1) {
                1nat
            } else {
                0nat
            });
        }
        lemma_sum_split(m, f, g, e);
        lemma_count_partition(k - 1, m, whole, part, key);
        if whole(k - 1) {
            lemma_sum_indicator(m, e, key(k - 1));
        } else {
            lemma_sum_indicator(m, e, -1);
        }
    }
}

} // verus!
