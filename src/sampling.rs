use vstd::prelude::*;
use crate::distribution::{as_ints, prefix_sum, table_view};

verus! {

/// A random word divided by this (dropping its low 11 bits) is a draw: its
/// upper 53 bits, read in units of `1 / PROBABILITY_ONE`, the same value in
/// [0, 1) that rand reads a word as when it draws an `f64`.
pub const DRAW_DIVISOR: u64 = 2048;

/// The uniform value in [0, 1) that a random word stands for, in units of
/// `1 / PROBABILITY_ONE`.
pub open spec fn draw_fraction(word: u64) -> int {
    word as int / DRAW_DIVISOR as int
}

/// The first offset from `j` on whose cumulative probability reaches `k`;
/// the last offset where none before it does.
pub open spec fn offset_from(row: Seq<int>, k: int, j: int) -> int
    decreases row.len() - j,
{
    if j >= row.len() {
        row.len() as int
    } else if k <= prefix_sum(row, j) {
        j
    } else {
        offset_from(row, k, j + 1)
    }
}

/// The insertion offset (from 1) that inverse-CDF sampling picks from `row`
/// for the draw `k`: the smallest `j` with `k <= row[0] + ... + row[j - 1]`,
/// or the last offset if rounding left every sum short of `k`.
pub open spec fn sampled_offset(row: Seq<int>, k: int) -> int {
    offset_from(row, k, 1)
}

/// Builds a ranking by inserting `reference[t]` at offset `offsets[t]` (from 1)
/// of the ranking built so far, for `t` in order.
pub open spec fn insert_all(reference: Seq<usize>, offsets: Seq<int>) -> Seq<usize>
    decreases offsets.len(),
{
    if offsets.len() == 0 {
        seq![]
    } else {
        let n = offsets.len() - 1;
        insert_all(reference, offsets.take(n)).insert(offsets[n] - 1, reference[n])
    }
}

/// The offsets that the words pick: word `t` samples row `t + 1`.
pub open spec fn draw_offsets(rows: Seq<Seq<int>>, words: Seq<u64>) -> Seq<int> {
    Seq::new(words.len(), |t: int| sampled_offset(rows[t + 1], draw_fraction(words[t])))
}

/// The vote that the words give, through the table `rows`.
pub open spec fn table_vote(rows: Seq<Seq<int>>, reference: Seq<usize>, words: Seq<u64>) -> Seq<usize> {
    insert_all(reference, draw_offsets(rows, words))
}

/// A table with a row of length `i` for each step `i` in `0 ..= n`.
pub open spec fn table_covers(rows: Seq<Seq<int>>, n: nat) -> bool {
    &&& rows.len() > n
    &&& forall|i: int| 0 <= i <= n ==> (#[trigger] rows[i]).len() == i
}

proof fn lemma_offset_from_range(row: Seq<int>, k: int, j: int)
    requires
        1 <= j <= row.len(),
    ensures
        j <= offset_from(row, k, j) <= row.len(),
    decreases row.len() - j,
{
    if j < row.len() && !(k <= prefix_sum(row, j)) {
        lemma_offset_from_range(row, k, j + 1);
    }
}

/// A sampled offset is a valid offset of its row.
pub proof fn lemma_sampled_offset_range(row: Seq<int>, k: int)
    requires
        row.len() >= 1,
    ensures
        1 <= sampled_offset(row, k) <= row.len(),
{
    lemma_offset_from_range(row, k, 1);
}

/// Picks the insertion offset (from 1) for the draw `k` by inverse-CDF
/// sampling over the fixed-point probabilities of `row`.
pub fn select_offset(row: &Vec<u64>, k: u64) -> (offset: usize)
    requires
        row@.len() >= 1,
    ensures
        offset == sampled_offset(as_ints(row@), k as int),
        1 <= offset <= row@.len(),
{
    let ghost r = as_ints(row@);
    proof {
        lemma_sampled_offset_range(r, k as int);
    }
    let mut cumulative: u128 = 0;
    let mut j: usize = 1;
    while j < row.len()
        invariant
            r == as_ints(row@),
            1 <= j <= row@.len(),
            cumulative == prefix_sum(r, j - 1),
            cumulative <= 0xffff_ffff_ffff_ffff,
            sampled_offset(r, k as int) == offset_from(r, k as int, j as int),
        decreases row@.len() - j,
    {
        cumulative = cumulative + row[j - 1] as u128;
        if k as u128 <= cumulative {
            return j;
        }
        j = j + 1;
    }
    row.len()
}

/// Synthesizes one vote: for each element of `reference` in order, samples an
/// offset from the table row of its step with the matching word of `words`,
/// and inserts the element there.
pub fn synthesize_vote(table: &Vec<Vec<u64>>, reference: &Vec<usize>, words: &Vec<u64>) -> (vote: Vec<usize>)
    requires
        table_covers(table_view(table@), reference@.len() as nat),
        words@.len() == reference@.len(),
    ensures
        vote@ == table_vote(table_view(table@), reference@, words@),
{
    let ghost rows = table_view(table@);
    let ghost offsets = draw_offsets(rows, words@);
    let mut vote: Vec<usize> = Vec::new();
    let mut t: usize = 0;
    while t < reference.len()
        invariant
            rows == table_view(table@),
            offsets == draw_offsets(rows, words@),
            table_covers(rows, reference@.len() as nat),
            words@.len() == reference@.len(),
            t <= reference@.len(),
            vote@.len() == t,
            vote@ == insert_all(reference@, offsets.take(t as int)),
        decreases reference@.len() - t,
    {
        let row = &table[t + 1];
        assert(as_ints(row@) == rows[t + 1]);
        assert(rows[t + 1].len() == t + 1);
        let offset = select_offset(row, words[t] / DRAW_DIVISOR);
        vote.insert(offset - 1, reference[t]);
        proof {
            assert(offsets.take(t + 1).take(t as int) =~= offsets.take(t as int));
        }
        t = t + 1;
    }
    proof {
        assert(offsets.take(t as int) =~= offsets);
    }
    vote
}

} // verus!
