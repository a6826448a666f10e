use vstd::prelude::*;
use crate::counting::{count_where, lemma_count_bounded, lemma_count_congruent, lemma_count_none};

verus! {

/// One step of the linear congruential generator that drives the shuffle.
pub open spec fn lcg_step(state: u64) -> u64 {
    state.wrapping_mul(6364136223846793005u64).wrapping_add(1u64)
}

/// Position that position `i` is swapped with, drawn from the generator state.
pub open spec fn swap_target(state: u64, i: int) -> int {
    ((state >> 33u64) as int) % (i + 1)
}

/// `s` with the entries at `i` and `j` exchanged.
pub open spec fn seq_swap<T>(s: Seq<T>, i: int, j: int) -> Seq<T> {
    s.update(i, s[j]).update(j, s[i])
}

/// The remaining Fisher–Yates steps for positions `i, i - 1, ..., 1`,
/// starting from generator state `state`.
pub open spec fn shuffle_from<T>(s: Seq<T>, state: u64, i: int) -> Seq<T>
    decreases i,
{
    if i < 1 {
        s
    } else {
        let next = lcg_step(state);
        shuffle_from(seq_swap(s, i, swap_target(next, i)), next, i - 1)
    }
}

/// The shuffle of `s` seeded with `seed`: for `i` from `len - 1` down to 1,
/// advance the generator and swap position `i` with a position in `[0, i]`.
pub open spec fn shuffled<T>(s: Seq<T>, seed: u64) -> Seq<T> {
    shuffle_from(s, seed, s.len() - 1)
}

/// Seed of the `round`-th shuffle of the null distribution.
pub open spec fn round_seed(round: int) -> int {
    (round + 1) * 12345
}

/// Entry `i` of `s` is set.
pub open spec fn flag_pred(s: Seq<bool>) -> spec_fn(int) -> bool {
    |i: int| s[i]
}

/// Number of set entries of `s`.
pub open spec fn count_true(s: Seq<bool>) -> nat {
    count_where(s.len() as int, flag_pred(s))
}

/// Swapping two entries keeps the multiset of entries.
pub proof fn lemma_swap_keeps_multiset<T>(s: Seq<T>, i: int, j: int)
    requires
        0 <= i < s.len(),
        0 <= j < s.len(),
    ensures
        seq_swap(s, i, j).len() == s.len(),
        seq_swap(s, i, j).to_multiset() =~= s.to_multiset(),
{
    broadcast use vstd::multiset::group_multiset_axioms;
    broadcast use vstd::seq_lib::to_multiset_update;

    let s1 = s.update(i, s[j]);
    assert(s1.to_multiset() == s.to_multiset().insert(s[j]).remove(s[i]));
    assert(s1[j] == s[j]);
    assert(s1.update(j, s[i]).to_multiset() == s1.to_multiset().insert(s[i]).remove(s[j]));
    assert(s.to_multiset().count(s[i]) > 0) by {
        broadcast use vstd::seq_lib::to_multiset_contains;

        assert(s.contains(s[i]));
    }
}

/// The remaining shuffle steps only rearrange the entries.
pub proof fn lemma_shuffle_from_permutes<T>(s: Seq<T>, state: u64, i: int)
    requires
        i < s.len(),
    ensures
        shuffle_from(s, state, i).len() == s.len(),
        shuffle_from(s, state, i).to_multiset() =~= s.to_multiset(),
    decreases i,
{
    if i >= 1 {
        let next = lcg_step(state);
        let j = swap_target(next, i);
        assert(0 <= j < i + 1);
        lemma_swap_keeps_multiset(s, i, j);
        lemma_shuffle_from_permutes(seq_swap(s, i, j), next, i - 1);
    }
}

/// The shuffle is a permutation: the shuffled series holds the same
/// entries, each as often, as the series it was made from.
pub proof fn lemma_shuffled_is_permutation<T>(s: Seq<T>, seed: u64)
    ensures
        shuffled(s, seed).len() == s.len(),
        shuffled(s, seed).to_multiset() =~= s.to_multiset(),
{
    lemma_shuffle_from_permutes(s, seed, s.len() - 1);
}

/// The remaining steps for positions `i, ..., 1` only touch the first
/// `m > i` entries: they shuffle that prefix and leave the rest in place.
proof fn lemma_shuffle_from_prefix<T>(s: Seq<T>, state: u64, i: int, m: int)
    requires
        0 <= i < m <= s.len(),
    ensures
        shuffle_from(s, state, i) == shuffle_from(s.take(m), state, i) + s.skip(m),
    decreases i,
{
    if i < 1 {
        assert(s =~= s.take(m) + s.skip(m));
    } else {
        let next = lcg_step(state);
        let j = swap_target(next, i);
        assert(0 <= j <= i);
        let t = seq_swap(s, i, j);
        lemma_shuffle_from_prefix(t, next, i - 1, m);
        assert(t.take(m) =~= seq_swap(s.take(m), i, j));
        assert(t.skip(m) =~= s.skip(m));
    }
}

/// The shuffle of a series with at most one entry is the series itself.
pub proof fn lemma_shuffle_short<T>(s: Seq<T>, seed: u64)
    requires
        s.len() <= 1,
    ensures
        shuffled(s, seed) == s,
{
}

/// How a shuffle of `n ≥ 2` entries relates to a shuffle of `n - 1`: the
/// generator advances once, the last position is swapped with position
/// `j = (state >> 33) % n` and keeps that entry `s[j]` for good, and the
/// first `n - 1` entries are then shuffled from the advanced state.
/// Together with `lemma_shuffle_short` this fixes the shuffle of every
/// series: Fisher–Yates over all positions `n - 1` down to 1.
pub proof fn lemma_shuffle_step<T>(s: Seq<T>, seed: u64)
    requires
        s.len() >= 2,
    ensures
        ({
            let n = s.len() as int;
            let next = seed.wrapping_mul(6364136223846793005u64).wrapping_add(1u64);
            let j = ((next >> 33u64) as int) % n;
            &&& 0 <= j < n
            &&& shuffled(s, seed) == shuffled(
                s.update(n - 1, s[j]).update(j, s[n - 1]).take(n - 1),
                next,
            ).push(s[j])
            &&& shuffled(s, seed)[n - 1] == s[j]
        }),
{
    let n = s.len() as int;
    let next = lcg_step(seed);
    let j = swap_target(next, n - 1);
    let t = seq_swap(s, n - 1, j);
    assert(0 <= j < n);
    lemma_shuffle_from_prefix(t, next, n - 2, n - 1);
    assert(t.skip(n - 1) =~= seq![s[j]]);
    assert(t.take(n - 1).len() == n - 1);
    assert(shuffle_from(t.take(n - 1), next, n - 2) == shuffled(t.take(n - 1), next));
    lemma_shuffle_from_permutes(t.take(n - 1), next, n - 2);
    assert(shuffled(s, seed) == shuffled(t.take(n - 1), next) + seq![s[j]]);
    assert(shuffled(t.take(n - 1), next) + seq![s[j]] == shuffled(t.take(n - 1), next).push(s[j]));
}

/// Counting set flags: none in an empty sequence, and appending a flag adds
/// one exactly when it is set. So the count is the number of set entries,
/// at most the length, and the length itself when every flag is set.
pub proof fn lemma_count_true_step(s: Seq<bool>, flag: bool)
    ensures
        count_true(Seq::<bool>::empty()) == 0,
        count_true(s.push(flag)) == count_true(s) + if flag { 1nat } else { 0nat },
        count_true(s) <= s.len(),
        (forall|i: int| 0 <= i < s.len() ==> #[trigger] s[i]) ==> count_true(s) == s.len(),
        (forall|i: int| 0 <= i < s.len() ==> !#[trigger] s[i]) ==> count_true(s) == 0,
{
    let n = s.len() as int;
    let t = s.push(flag);
    assert forall|i: int| 0 <= i < n implies #[trigger] flag_pred(t)(i) == flag_pred(s)(i) by {
        assert(t[i] == s[i]);
    }
    lemma_count_congruent(n, flag_pred(t), flag_pred(s));
    assert(count_where(n + 1, flag_pred(t)) == count_where(n, flag_pred(t)) + if t[n] {
        1nat
    } else {
        0nat
    });
    lemma_count_bounded(n, flag_pred(s));
    if forall|i: int| 0 <= i < s.len() ==> #[trigger] s[i] {
        lemma_count_all_set(s, n);
    }
    if forall|i: int| 0 <= i < s.len() ==> !#[trigger] s[i] {
        assert forall|i: int| 0 <= i < n implies !#[trigger] flag_pred(s)(i) by {}
        lemma_count_none(n, flag_pred(s));
    }
}

proof fn lemma_count_all_set(s: Seq<bool>, k: int)
    requires
        0 <= k <= s.len(),
        forall|i: int| 0 <= i < s.len() ==> #[trigger] s[i],
    ensures
        count_where(k, flag_pred(s)) == k,
    decreases k,
{
    if k > 0 {
        lemma_count_all_set(s, k - 1);
        assert(s[k - 1]);
    }
}

/// Shuffle-based significance test: the source series is permuted
/// `n_shuffles` times to build a null distribution of transfer entropy.
pub struct SignificanceTest {
    n_shuffles: usize,
    bins: usize,
}

impl SignificanceTest {
    /// Number of shuffles.
    pub closed spec fn spec_n_shuffles(&self) -> nat {
        self.n_shuffles as nat
    }

    /// Number of bins of the transfer entropy estimates.
    pub closed spec fn spec_bins(&self) -> nat {
        self.bins as nat
    }

    /// Create a test with `n_shuffles` permutations and `bins` bins.
    pub fn new(n_shuffles: usize, bins: usize) -> (t: Self)
        ensures
            t.spec_n_shuffles() == n_shuffles,
            t.spec_bins() == bins,
    {
        SignificanceTest { n_shuffles, bins }
    }

    /// Number of shuffles.
    pub fn n_shuffles(&self) -> (n: usize)
        ensures
            n == self.spec_n_shuffles(),
    {
        self.n_shuffles
    }

    /// Number of bins.
    pub fn bins(&self) -> (n: usize)
        ensures
            n == self.spec_bins(),
    {
        self.bins
    }

    /// Seeded pseudo-random shuffle (Fisher–Yates driven by a linear
    /// congruential generator).
    pub fn shuffle_data<T: Copy>(&self, data: &[T], seed: u64) -> (out: Vec<T>)
        ensures
            out@ == shuffled(data@, seed),
    {
        let mut v = vstd::slice::slice_to_vec(data);
        let n = v.len();
        let mut rng = seed;
        let mut cur = n;
        while cur > 1
            invariant
                v@.len() == n,
                cur <= n,
                shuffle_from(v@, rng, cur - 1) == shuffled(data@, seed),
            decreases cur,
        {
            let i = cur - 1;
            rng = rng.wrapping_mul(6364136223846793005u64).wrapping_add(1u64);
            let high = rng >> 33u64;
            assert(high < 0x8000_0000u64) by (bit_vector)
                requires
                    high == rng >> 33u64,
            ;
            let j = (high as usize) % (i + 1);
            assert(j == swap_target(rng, i as int));
            let vi = v[i];
            let vj = v[j];
            v[i] = vj;
            v[j] = vi;
            cur = i;
        }
        v
    }

    /// The `round`-th shuffle of the null distribution, seeded with
    /// `(round + 1) * 12345`.
    pub fn null_shuffle<T: Copy>(&self, data: &[T], round: usize) -> (out: Vec<T>)
        requires
            round_seed(round as int) <= u64::MAX,
        ensures
            out@ == shuffled(data@, round_seed(round as int) as u64),
            out@ == shuffled(data@, ((round + 1) * 12345) as u64),
    {
        let r = round as u64;
        let seed = (r + 1) * 12345;
        self.shuffle_data(data, seed)
    }

    /// Numerator and denominator of the p-value `count / n_shuffles`: the
    /// fraction of null estimates at or above the actual estimate
    /// (`at_least[i]` tells whether shuffle `i` is).
    pub fn p_value_counts(&self, at_least: &[bool]) -> (p: (usize, usize))
        requires
            at_least@.len() == self.spec_n_shuffles(),
        ensures
            p.0 == count_true(at_least@),
            p.1 == self.spec_n_shuffles(),
            p.0 <= p.1,
    {
        let n = at_least.len();
        let mut count: usize = 0;
        let mut i: usize = 0;
        while i < n
            invariant
                i <= n,
                n == at_least@.len(),
                count == count_where(i as int, flag_pred(at_least@)),
            decreases n - i,
        {
            proof {
                lemma_count_bounded(i as int, flag_pred(at_least@));
            }
            if at_least[i] {
                count = count + 1;
            }
            i = i + 1;
        }
        proof {
            lemma_count_bounded(n as int, flag_pred(at_least@));
        }
        (count, self.n_shuffles)
    }
}

} // verus!
