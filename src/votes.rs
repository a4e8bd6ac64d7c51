use vstd::prelude::*;
use crate::dispersion::Dispersion;
use crate::distribution::{
    MAX_CANDIDATES, mallows_insert_distributions, probability_table, table_view,
};
use crate::dispersion::{weight_total, lemma_weight_zero};
use crate::distribution::{
    cumulative_probability, prefix_sum, probability_row, lemma_prefix_is_cumulative,
};
use crate::sampling::{
    draw_fraction, draw_offsets, insert_all, offset_from, sampled_offset, synthesize_vote, table_covers,
    table_vote, lemma_sampled_offset_range,
};
use crate::stream::{chacha8_stream, chacha8_words, entropy_seed};

verus! {

/// Why no votes were generated.
#[derive(Clone, Copy, Debug, PartialEq, Eq, Structural)]
pub enum MallowsError {
    /// The dispersion `numerator / denominator` lies outside [0, 1].
    InvalidParameter { numerator: i64, denominator: u64 },
    /// The reference ranking holds `found` alternatives, not `expected`.
    DimensionMismatch { expected: usize, found: usize },
}

/// The random words of vote `v` when each vote takes `n` draws: the vote's
/// draws follow those of the votes before it in one ChaCha8 stream, two
/// 32-bit stream words per draw.
pub open spec fn vote_words(seed: u64, v: int, n: int) -> Seq<u64> {
    chacha8_words(seed, (2 * v * n) as u128, n as usize)
}

/// The vote that the words give under dispersion `phi`.
pub open spec fn vote_from_words(phi: Dispersion, reference: Seq<usize>, words: Seq<u64>) -> Seq<usize> {
    table_vote(probability_table(phi, reference.len()), reference, words)
}

/// The votes generated from `seed`.
pub open spec fn mallows_votes(phi: Dispersion, reference: Seq<usize>, num_voters: nat, seed: u64) -> Seq<Seq<usize>> {
    Seq::new(
        num_voters,
        |v: int| vote_from_words(phi, reference, vote_words(seed, v, reference.len() as int)),
    )
}

pub open spec fn votes_view(votes: Seq<Vec<usize>>) -> Seq<Seq<usize>> {
    votes.map_values(|vote: Vec<usize>| vote@)
}

/// Synthesizes `num_voters` votes with the table, drawing from the ChaCha8
/// stream of `seed`.
pub fn synthesize_votes(table: &Vec<Vec<u64>>, reference: &Vec<usize>, num_voters: usize, seed: u64) -> (votes: Vec<Vec<usize>>)
    requires
        table_covers(table_view(table@), reference@.len() as nat),
        reference@.len() <= MAX_CANDIDATES,
    ensures
        votes@.len() == num_voters,
        forall|v: int|
            0 <= v < num_voters ==> (#[trigger] votes@[v])@ == table_vote(
                table_view(table@),
                reference@,
                vote_words(seed, v, reference@.len() as int),
            ),
        forall|v: int|
            0 <= v < num_voters ==> (#[trigger] vote_words(seed, v, reference@.len() as int)).len()
                == reference@.len(),
{
    let n = reference.len();
    let mut votes: Vec<Vec<usize>> = Vec::new();
    let mut position: u128 = 0;
    let mut v: usize = 0;
    while v < num_voters
        invariant
            table_covers(table_view(table@), reference@.len() as nat),
            n == reference@.len(),
            n <= MAX_CANDIDATES,
            v <= num_voters,
            position == 2 * v * n,
            votes@.len() == v,
            forall|u: int|
                0 <= u < v ==> (#[trigger] votes@[u])@ == table_vote(
                    table_view(table@),
                    reference@,
                    vote_words(seed, u, n as int),
                ),
            forall|u: int| 0 <= u < v ==> (#[trigger] vote_words(seed, u, n as int)).len() == n,
        decreases num_voters - v,
    {
        let words = chacha8_stream(seed, position, n);
        let vote = synthesize_vote(table, reference, &words);
        votes.push(vote);
        proof {
            assert(2 * (v + 1) * n == 2 * v * n + 2 * n) by (nonlinear_arith);
            assert(2 * (v + 1) * n <= 2 * 0xffff_ffff_ffff_ffff * MAX_CANDIDATES) by (nonlinear_arith)
                requires
                    v + 1 <= 0xffff_ffff_ffff_ffff,
                    n <= MAX_CANDIDATES,
            ;
        }
        position = position + 2 * (n as u128);
        v = v + 1;
    }
    votes
}

/// Generates `num_voters` votes from the Mallows model around
/// `original_priority`, with dispersion `phi`.
///
/// A given `seed` makes the votes a function of the arguments; without one a
/// fresh seed is drawn. Fails with `InvalidParameter` when `phi` lies outside
/// [0, 1], and otherwise with `DimensionMismatch` when the reference ranking
/// does not hold `num_candidates` alternatives.
pub fn generate_mallows_votes(
    num_candidates: usize,
    num_voters: usize,
    phi: Dispersion,
    original_priority: Vec<usize>,
    seed: Option<u64>,
) -> (result: Result<Vec<Vec<usize>>, MallowsError>)
    requires
        num_candidates <= MAX_CANDIDATES,
    ensures
        !phi.valid() ==> result == Err::<Vec<Vec<usize>>, MallowsError>(
            MallowsError::InvalidParameter {
                numerator: phi.numerator,
                denominator: phi.denominator,
            },
        ),
        phi.valid() && original_priority@.len() != num_candidates ==> result == Err::<
            Vec<Vec<usize>>,
            MallowsError,
        >(
            MallowsError::DimensionMismatch {
                expected: num_candidates,
                found: original_priority.len(),
            },
        ),
        phi.valid() && original_priority@.len() == num_candidates ==> {
            &&& result is Ok
            &&& exists|s: u64|
                {
                    &&& (seed matches Some(given) ==> s == given)
                    &&& votes_view(result->Ok_0@) == #[trigger] mallows_votes(
                        phi,
                        original_priority@,
                        num_voters as nat,
                        s,
                    )
                }
            &&& forall|v: int|
                0 <= v < num_voters ==> {
                    &&& (#[trigger] result->Ok_0@[v])@.len() == num_candidates
                    &&& result->Ok_0@[v]@.to_multiset() == original_priority@.to_multiset()
                }
        },
{
    if !phi.is_valid() {
        return Err(
            MallowsError::InvalidParameter {
                numerator: phi.numerator,
                denominator: phi.denominator,
            },
        );
    }
    if original_priority.len() != num_candidates {
        return Err(
            MallowsError::DimensionMismatch {
                expected: num_candidates,
                found: original_priority.len(),
            },
        );
    }
    let table = mallows_insert_distributions(num_candidates, phi);
    let s = match seed {
        Some(given) => given,
        None => entropy_seed(),
    };
    let votes = synthesize_votes(&table, &original_priority, num_voters, s);
    proof {
        assert(votes_view(votes@) =~= mallows_votes(
            phi,
            original_priority@,
            num_voters as nat,
            s,
        ));
        assert forall|v: int| 0 <= v < num_voters implies {
            &&& (#[trigger] votes@[v])@.len() == num_candidates
            &&& votes@[v]@.to_multiset() == original_priority@.to_multiset()
        } by {
            lemma_vote_is_permutation(
                phi,
                original_priority@,
                vote_words(s, v, num_candidates as int),
            );
        }
    }
    Ok(votes)
}

/// Inserting with offsets that are valid at each step gives a rearrangement
/// of the elements inserted.
proof fn lemma_insert_all_permutes(reference: Seq<usize>, offsets: Seq<int>)
    requires
        offsets.len() <= reference.len(),
        forall|t: int| 0 <= t < offsets.len() ==> 1 <= #[trigger] offsets[t] <= t + 1,
    ensures
        insert_all(reference, offsets).len() == offsets.len(),
        insert_all(reference, offsets).to_multiset() == reference.take(
            offsets.len() as int,
        ).to_multiset(),
    decreases offsets.len(),
{
    broadcast use vstd::seq_lib::group_to_multiset_ensures;

    if offsets.len() > 0 {
        let n = offsets.len() - 1;
        let before = offsets.take(n);
        lemma_insert_all_permutes(reference, before);
        let built = insert_all(reference, before);
        vstd::seq_lib::to_multiset_insert(built, offsets[n] - 1, reference[n]);
        assert(reference.take(n).push(reference[n]) =~= reference.take(n + 1));
    } else {
        assert(reference.take(0) =~= Seq::<usize>::empty());
    }
}

/// Every generated vote is a permutation of the reference ranking: the same
/// elements, each as often; so a reference without repeats gives votes
/// without repeats.
pub proof fn lemma_vote_is_permutation(phi: Dispersion, reference: Seq<usize>, words: Seq<u64>)
    requires
        phi.valid(),
        words.len() == reference.len(),
    ensures
        vote_from_words(phi, reference, words).len() == reference.len(),
        vote_from_words(phi, reference, words).to_multiset() == reference.to_multiset(),
        reference.no_duplicates() ==> vote_from_words(phi, reference, words).no_duplicates(),
{
    let rows = probability_table(phi, reference.len());
    let offsets = draw_offsets(rows, words);
    assert forall|t: int| 0 <= t < offsets.len() implies 1 <= #[trigger] offsets[t] <= t + 1 by {
        lemma_sampled_offset_range(rows[t + 1], draw_fraction(words[t]));
    }
    lemma_insert_all_permutes(reference, offsets);
    assert(reference.take(reference.len() as int) =~= reference);
    if reference.no_duplicates() {
        reference.lemma_multiset_has_no_duplicates();
        vote_from_words(phi, reference, words).lemma_multiset_has_no_duplicates_conv();
    }
}

/// Inserting each element at the end of what was built keeps the order.
proof fn lemma_insert_all_at_end(reference: Seq<usize>, offsets: Seq<int>)
    requires
        offsets.len() <= reference.len(),
        forall|t: int| 0 <= t < offsets.len() ==> #[trigger] offsets[t] == t + 1,
    ensures
        insert_all(reference, offsets) == reference.take(offsets.len() as int),
    decreases offsets.len(),
{
    if offsets.len() > 0 {
        let n = offsets.len() - 1;
        lemma_insert_all_at_end(reference, offsets.take(n));
        assert(reference.take(n).insert(n, reference[n]) =~= reference.take(n + 1));
    } else {
        assert(reference.take(0) =~= Seq::<usize>::empty());
    }
}

/// Offsets before the last whose sums stay below `k` are passed over.
proof fn lemma_offset_from_last(row: Seq<int>, k: int, j: int)
    requires
        1 <= j <= row.len(),
        forall|m: int| j <= m < row.len() ==> k > #[trigger] prefix_sum(row, m),
    ensures
        offset_from(row, k, j) == row.len(),
    decreases row.len() - j,
{
    if j < row.len() {
        lemma_offset_from_last(row, k, j + 1);
    }
}

/// With dispersion 0, a draw above 0 picks the last offset of every row.
proof fn lemma_zero_picks_last(phi: Dispersion, i: nat, k: int)
    requires
        phi.valid(),
        phi.is_zero(),
        1 <= i,
        k >= 1,
    ensures
        sampled_offset(probability_row(phi, i), k) == i,
{
    let row = probability_row(phi, i);
    assert forall|m: int| 1 <= m < row.len() implies k > #[trigger] prefix_sum(row, m) by {
        lemma_prefix_is_cumulative(phi, i, m as nat);
        lemma_weight_total_zero(phi, i);
        lemma_weight_total_zero(phi, (i - m) as nat);
        assert(cumulative_probability(phi, i, m as nat) == 0);
    }
    lemma_offset_from_last(row, k, 1);
}

/// With dispersion 0 the weights of any `n >= 1` exponents add up to one
/// unit.
proof fn lemma_weight_total_zero(phi: Dispersion, n: nat)
    requires
        phi.valid(),
        phi.is_zero(),
    ensures
        weight_total(phi, n) == if n == 0 { 0 } else { crate::dispersion::WEIGHT_ONE as int },
    decreases n,
{
    if n > 0 {
        lemma_weight_total_zero(phi, (n - 1) as nat);
        lemma_weight_zero(phi, (n - 1) as nat);
    }
}

/// With dispersion 0 every vote is the reference ranking, as long as no draw
/// is exactly 0 (a draw of 0 already reaches the zero mass of the first
/// offset).
pub proof fn lemma_zero_dispersion_keeps_reference(
    phi: Dispersion,
    reference: Seq<usize>,
    words: Seq<u64>,
)
    requires
        phi.valid(),
        phi.is_zero(),
        words.len() == reference.len(),
        forall|t: int| 0 <= t < words.len() ==> draw_fraction(#[trigger] words[t]) >= 1,
    ensures
        vote_from_words(phi, reference, words) == reference,
{
    let rows = probability_table(phi, reference.len());
    let offsets = draw_offsets(rows, words);
    assert forall|t: int| 0 <= t < offsets.len() implies #[trigger] offsets[t] == t + 1 by {
        lemma_zero_picks_last(phi, (t + 1) as nat, draw_fraction(words[t]));
    }
    lemma_insert_all_at_end(reference, offsets);
    assert(reference.take(reference.len() as int) =~= reference);
}

/// With a single alternative every vote is the reference ranking, whatever
/// the dispersion and the draw.
pub proof fn lemma_single_alternative(phi: Dispersion, reference: Seq<usize>, words: Seq<u64>)
    requires
        phi.valid(),
        reference.len() == 1,
        words.len() == 1,
    ensures
        vote_from_words(phi, reference, words) == reference,
{
    let rows = probability_table(phi, reference.len());
    let offsets = draw_offsets(rows, words);
    assert(offsets[0] == 1);
    lemma_insert_all_at_end(reference, offsets);
    assert(reference.take(1) =~= reference);
}

} // verus!
