# transfer_entropy

Histogram-based transfer entropy TE(Y→X) between time series, split into a
verified integer core (`src/`) and a thin floating-point layer (`app/`).

`src/` (verified):
- `estimator.rs`: bin clamping and the joint histogram of `(x[i+1], y[i], x[i])`.
- `entropy.rs`: the joint and marginal count tables, and the list of terms the
  estimate sums (cells with a positive count, with their nested counts).
- `marginals.rs`: the marginal tables are the sums of the joint histogram, every
  table sums to the number of samples, cell counts are bounded by their
  marginals, and when the source carries nothing about the next target state
  (it is the target itself, it is constant, or the target's past fixes its next
  state) every term of the estimate is `ln 1`.
- `significance.rs`: the seeded Fisher–Yates shuffle (a permutation) and the
  counts of the shuffle p-value (the fraction of null estimates at or above the actual one).
- `counting.rs`: counts and finite sums over index ranges.

`app/`: `TimeSeries` of `f64`, equal-width discretization, and the logarithmic
estimates (TE, conditional TE, z-score and p-value of the shuffle test).
