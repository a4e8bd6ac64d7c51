use vstd::prelude::*;
use crate::dispersion::{
    Dispersion, WEIGHT_ONE, weight, weight_total, lemma_weight_bounds, lemma_weight_one,
    lemma_weight_total_bounds,
};

verus! {

/// The fixed-point value that stands for a probability of 1.
pub const PROBABILITY_ONE: u64 = 9007199254740992;

/// The largest number of alternatives whose distribution table fits in memory.
pub const MAX_CANDIDATES: usize = 4294967295;

/// The probability, as a fraction of `PROBABILITY_ONE` rounded down, that the
/// insertion at step `i` lands at one of the offsets `1 ..= j`.
///
/// Offset `j` of step `i` has weight `weight(phi, i - j)`; the offsets `1 ..= j`
/// together hold the weights of the exponents `i - j .. i`.
pub open spec fn cumulative_probability(phi: Dispersion, i: nat, j: nat) -> int {
    (weight_total(phi, i) - weight_total(phi, (i - j) as nat)) * PROBABILITY_ONE
        / weight_total(phi, i)
}

/// The probability of offset `j` (from 1) at step `i`, as a fraction of
/// `PROBABILITY_ONE`.
pub open spec fn insertion_probability(phi: Dispersion, i: nat, j: nat) -> int {
    cumulative_probability(phi, i, j) - cumulative_probability(phi, i, (j - 1) as nat)
}

/// The probability vector of step `i`: entry `t` is the probability of offset
/// `t + 1`.
pub open spec fn probability_row(phi: Dispersion, i: nat) -> Seq<int> {
    Seq::new(i, |t: int| insertion_probability(phi, i, (t + 1) as nat))
}

/// The insertion distribution table for `n` alternatives: row `i` is the
/// vector of step `i`, and row 0 is empty.
pub open spec fn probability_table(phi: Dispersion, n: nat) -> Seq<Seq<int>> {
    Seq::new(n + 1, |i: int| probability_row(phi, i as nat))
}

/// A row of fixed-point values, seen as integers.
pub open spec fn as_ints(row: Seq<u64>) -> Seq<int> {
    row.map_values(|x: u64| x as int)
}

/// A table of fixed-point rows, seen as rows of integers.
pub open spec fn table_view(table: Seq<Vec<u64>>) -> Seq<Seq<int>> {
    table.map_values(|row: Vec<u64>| as_ints(row@))
}

/// The sum of the first `j` entries of a row.
pub open spec fn prefix_sum(row: Seq<int>, j: int) -> int
    decreases j,
{
    if j <= 0 || j > row.len() {
        0
    } else {
        prefix_sum(row, j - 1) + row[j - 1]
    }
}

/// The totals `weight_total(phi, m)` for `m` in `0 ..= n`.
fn weight_totals(n: usize, phi: Dispersion) -> (totals: Vec<u64>)
    requires
        phi.valid(),
        n <= MAX_CANDIDATES,
    ensures
        totals@.len() == n + 1,
        forall|m: int| 0 <= m <= n ==> totals@[m] == weight_total(phi, m as nat),
{
    let mut totals: Vec<u64> = Vec::new();
    totals.push(0);
    let mut w: u64 = WEIGHT_ONE;
    let mut m: usize = 0;
    while m < n
        invariant
            phi.valid(),
            n <= MAX_CANDIDATES,
            m <= n,
            totals@.len() == m + 1,
            w == weight(phi, m as nat),
            forall|k: int| 0 <= k <= m ==> totals@[k] == weight_total(phi, k as nat),
        decreases n - m,
    {
        proof {
            lemma_weight_bounds(phi, m as nat);
            lemma_weight_total_bounds(phi, (m + 1) as nat);
            assert((m + 1) * WEIGHT_ONE <= MAX_CANDIDATES * WEIGHT_ONE) by (nonlinear_arith)
                requires
                    m + 1 <= MAX_CANDIDATES,
            ;
        }
        let total = totals[m] + w;
        totals.push(total);
        let a = phi.numerator as u64 as u128;
        let b = phi.denominator as u128;
        proof {
            let (wi, ai, bi) = (w as int, a as int, b as int);
            assert(wi * ai <= WEIGHT_ONE * 9223372036854775807) by (nonlinear_arith)
                requires
                    0 <= wi <= WEIGHT_ONE,
                    0 <= ai <= 9223372036854775807,
            ;
            assert(wi * ai / bi <= wi) by (nonlinear_arith)
                requires
                    0 <= wi,
                    0 <= ai <= bi,
                    0 < bi,
            ;
        }
        w = ((w as u128) * a / b) as u64;
        m = m + 1;
    }
    totals
}

/// The probability vector of step `i`, from the weight totals.
fn distribution_row(totals: &Vec<u64>, i: usize, Ghost(phi): Ghost<Dispersion>) -> (row: Vec<u64>)
    requires
        phi.valid(),
        1 <= i < totals@.len(),
        totals@.len() <= MAX_CANDIDATES + 1,
        forall|m: int| 0 <= m < totals@.len() ==> totals@[m] == weight_total(phi, m as nat),
    ensures
        as_ints(row@) == probability_row(phi, i as nat),
{
    let total = totals[i];
    proof {
        lemma_weight_total_bounds(phi, i as nat);
    }
    let mut row: Vec<u64> = Vec::new();
    let mut previous: u64 = 0;
    let mut done: usize = 0;
    while done < i
        invariant
            phi.valid(),
            1 <= i < totals@.len(),
            forall|m: int| 0 <= m < totals@.len() ==> totals@[m] == weight_total(phi, m as nat),
            total == weight_total(phi, i as nat),
            total >= WEIGHT_ONE,
            forall|k: nat| k <= i ==> #[trigger] weight_total(phi, k) <= weight_total(phi, i as nat),
            done <= i,
            row@.len() == done,
            previous == cumulative_probability(phi, i as nat, done as nat),
            previous <= PROBABILITY_ONE,
            forall|t: int| 0 <= t < done ==> row@[t] == insertion_probability(phi, i as nat, (t + 1) as nat),
        decreases i - done,
    {
        let j = done + 1;
        let covered = (total - totals[i - j]) as u128;
        let c = covered * (PROBABILITY_ONE as u128) / (total as u128);
        proof {
            let lower = weight_total(phi, (i - j + 1) as nat);
            let upper = weight_total(phi, (i - j) as nat);
            assert(upper <= lower) by {
                lemma_weight_total_bounds(phi, (i - j + 1) as nat);
            }
            let p = PROBABILITY_ONE as int;
            let t = total as int;
            let x = (t - lower) * p;
            let y = covered as int * p;
            assert(x <= y <= t * p) by (nonlinear_arith)
                requires
                    0 <= t - lower <= covered <= t,
                    x == (t - lower) * p,
                    y == covered as int * p,
                    p > 0,
            ;
            vstd::arithmetic::div_mod::lemma_div_is_ordered(x, y, t);
            vstd::arithmetic::div_mod::lemma_div_is_ordered(y, t * p, t);
            vstd::arithmetic::div_mod::lemma_div_by_multiple(p, t);
            assert(t * p == p * t) by (nonlinear_arith);
            assert(covered as int * PROBABILITY_ONE as int <= 0xffff_ffff_ffff_ffff_ffff_ffff_ffff_ffff) by (nonlinear_arith)
                requires
                    0 <= covered <= 0xffff_ffff_ffff_ffff,
            ;
        }
        let c = c as u64;
        row.push(c - previous);
        previous = c;
        done = j;
    }
    proof {
        assert(as_ints(row@) =~= probability_row(phi, i as nat));
    }
    row
}

/// Builds the insertion distribution table for `num_alternatives` steps.
///
/// Row `i` (for `1 <= i <= num_alternatives`) holds `i` fixed-point
/// probabilities: offset `j` has weight `phi^(i - j)`, normalised over the row.
pub fn mallows_insert_distributions(num_alternatives: usize, phi: Dispersion) -> (table: Vec<Vec<u64>>)
    requires
        phi.valid(),
        num_alternatives <= MAX_CANDIDATES,
    ensures
        table_view(table@) == probability_table(phi, num_alternatives as nat),
{
    let totals = weight_totals(num_alternatives, phi);
    let mut table: Vec<Vec<u64>> = Vec::new();
    table.push(Vec::new());
    proof {
        assert(as_ints(table@[0]@) =~= probability_row(phi, 0));
    }
    let mut built: usize = 0;
    while built < num_alternatives
        invariant
            phi.valid(),
            num_alternatives <= MAX_CANDIDATES,
            totals@.len() == num_alternatives + 1,
            forall|m: int| 0 <= m <= num_alternatives ==> totals@[m] == weight_total(phi, m as nat),
            built <= num_alternatives,
            table@.len() == built + 1,
            forall|r: int| 0 <= r <= built ==> as_ints(#[trigger] table@[r]@) == probability_row(phi, r as nat),
        decreases num_alternatives - built,
    {
        let i = built + 1;
        let row = distribution_row(&totals, i, Ghost(phi));
        table.push(row);
        built = i;
    }
    proof {
        assert(table_view(table@) =~= probability_table(phi, num_alternatives as nat));
    }
    table
}

/// The cumulative probabilities of a row start at 0, end at `PROBABILITY_ONE`,
/// and never decrease.
pub proof fn lemma_cumulative_ordered(phi: Dispersion, i: nat, j: nat)
    requires
        phi.valid(),
        1 <= j <= i,
    ensures
        0 <= cumulative_probability(phi, i, (j - 1) as nat) <= cumulative_probability(phi, i, j)
            <= PROBABILITY_ONE,
        cumulative_probability(phi, i, 0) == 0,
        cumulative_probability(phi, i, i) == PROBABILITY_ONE,
{
    lemma_weight_total_bounds(phi, i);
    lemma_weight_total_bounds(phi, (i - j + 1) as nat);
    let t = weight_total(phi, i);
    let lower = weight_total(phi, (i - j + 1) as nat);
    let upper = weight_total(phi, (i - j) as nat);
    lemma_weight_total_bounds(phi, (i - j) as nat);
    assert(upper <= lower);
    assert(lower <= t);
    let p = PROBABILITY_ONE as int;
    let x = (t - lower) * p;
    let y = (t - upper) * p;
    assert(0 <= x <= y <= t * p) by (nonlinear_arith)
        requires
            0 <= t - lower <= t - upper <= t,
            x == (t - lower) * p,
            y == (t - upper) * p,
            p > 0,
    ;
    vstd::arithmetic::div_mod::lemma_div_is_ordered(x, y, t);
    vstd::arithmetic::div_mod::lemma_div_is_ordered(y, t * p, t);
    vstd::arithmetic::div_mod::lemma_div_is_ordered(0, x, t);
    vstd::arithmetic::div_mod::lemma_div_by_multiple(p, t);
    assert(t * p == p * t) by (nonlinear_arith);
    assert((t - t) * p == 0);
    assert((t - 0) * p == t * p);
    assert(weight_total(phi, 0) == 0);
}

/// The first `j` entries of row `i` add up to the cumulative probability of
/// offsets `1 ..= j`.
pub proof fn lemma_prefix_is_cumulative(phi: Dispersion, i: nat, j: nat)
    requires
        phi.valid(),
        1 <= i,
        j <= i,
    ensures
        prefix_sum(probability_row(phi, i), j as int) == cumulative_probability(phi, i, j),
    decreases j,
{
    if j == 0 {
        lemma_cumulative_ordered(phi, i, 1);
    } else {
        lemma_prefix_is_cumulative(phi, i, (j - 1) as nat);
    }
}

/// Every row of the distribution table is a probability vector: its entries
/// are non-negative and add up to exactly `PROBABILITY_ONE`.
pub proof fn lemma_rows_are_distributions(phi: Dispersion, n: nat)
    requires
        phi.valid(),
    ensures
        forall|i: int, t: int|
            1 <= i <= n && 0 <= t < i ==> #[trigger] probability_table(phi, n)[i][t] >= 0,
        forall|i: int|
            1 <= i <= n ==> prefix_sum(#[trigger] probability_table(phi, n)[i], i)
                == PROBABILITY_ONE,
{
    assert forall|i: int, t: int|
        1 <= i <= n && 0 <= t < i implies #[trigger] probability_table(phi, n)[i][t] >= 0 by {
        lemma_cumulative_ordered(phi, i as nat, (t + 1) as nat);
    }
    assert forall|i: int| 1 <= i <= n implies prefix_sum(
        #[trigger] probability_table(phi, n)[i],
        i,
    ) == PROBABILITY_ONE by {
        lemma_prefix_is_cumulative(phi, i as nat, i as nat);
        lemma_cumulative_ordered(phi, i as nat, i as nat);
    }
}

/// With dispersion 1 the weights add up to `n * WEIGHT_ONE`.
proof fn lemma_weight_total_one(phi: Dispersion, n: nat)
    requires
        phi.valid(),
        phi.is_one(),
    ensures
        weight_total(phi, n) == n * WEIGHT_ONE,
    decreases n,
{
    if n > 0 {
        lemma_weight_total_one(phi, (n - 1) as nat);
        lemma_weight_one(phi, (n - 1) as nat);
    }
}

/// With dispersion 1 the cumulative probability of offsets `1 ..= j` of step
/// `i` is `j / i`, rounded down.
proof fn lemma_cumulative_one(phi: Dispersion, i: nat, j: nat)
    requires
        phi.valid(),
        phi.is_one(),
        1 <= i,
        j <= i,
    ensures
        cumulative_probability(phi, i, j) * i <= j * PROBABILITY_ONE < cumulative_probability(
            phi,
            i,
            j,
        ) * i + i,
{
    lemma_weight_total_one(phi, i);
    lemma_weight_total_one(phi, (i - j) as nat);
    let w = WEIGHT_ONE as int;
    let p = PROBABILITY_ONE as int;
    let t = i * w;
    let x = (i * w - (i - j) * w) * p;
    assert(x == (j * p) * w) by (nonlinear_arith)
        requires
            x == (i * w - (i - j) * w) * p,
    ;
    assert(t > 0) by (nonlinear_arith)
        requires
            t == i * w,
            i >= 1,
            w > 0,
    ;
    let c = x / t;
    vstd::arithmetic::div_mod::lemma_fundamental_div_mod(x, t);
    vstd::arithmetic::div_mod::lemma_mod_bound(x, t);
    assert(c * i <= j * p < c * i + i) by (nonlinear_arith)
        requires
            x == t * c + x % t,
            0 <= x % t < t,
            x == (j * p) * w,
            t == i * w,
            w > 0,
    ;
}

/// With dispersion 1 every row is uniform: each entry of row `i` is
/// `PROBABILITY_ONE / i`, up to the rounding to whole fixed-point units
/// (`|entry * i - PROBABILITY_ONE| < i`).
pub proof fn lemma_uniform_rows(phi: Dispersion, n: nat)
    requires
        phi.valid(),
        phi.is_one(),
    ensures
        forall|i: int, t: int|
            1 <= i <= n && 0 <= t < i ==> PROBABILITY_ONE - i < #[trigger] probability_table(
                phi,
                n,
            )[i][t] * i < PROBABILITY_ONE + i,
{
    assert forall|i: int, t: int| 1 <= i <= n && 0 <= t < i implies PROBABILITY_ONE - i
        < #[trigger] probability_table(phi, n)[i][t] * i < PROBABILITY_ONE + i by {
        lemma_cumulative_one(phi, i as nat, (t + 1) as nat);
        lemma_cumulative_one(phi, i as nat, t as nat);
        let hi = cumulative_probability(phi, i as nat, (t + 1) as nat);
        let lo = cumulative_probability(phi, i as nat, t as nat);
        let p = PROBABILITY_ONE as int;
        assert(probability_table(phi, n)[i][t] == hi - lo);
        assert(p - i < (hi - lo) * i < p + i) by (nonlinear_arith)
            requires
                hi * i <= (t + 1) * p < hi * i + i,
                lo * i <= t * p < lo * i + i,
        ;
    }
}

} // verus!
