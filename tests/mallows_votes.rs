use mallows::dispersion::Dispersion;
use mallows::distribution::{mallows_insert_distributions, PROBABILITY_ONE};
use mallows::sampling::{select_offset, synthesize_vote};
use mallows::votes::{generate_mallows_votes, synthesize_votes, MallowsError};
use rand::RngCore;
use rand::SeedableRng;
use rand_chacha::ChaCha8Rng;

fn half() -> Dispersion {
    Dispersion::new(1, 2)
}

fn sorted(v: &[usize]) -> Vec<usize> {
    let mut s = v.to_vec();
    s.sort();
    s
}

#[test]
fn rows_sum_to_one() {
    for (num, den) in [(0i64, 1u64), (1, 3), (1, 2), (9, 10), (1, 1)] {
        let table = mallows_insert_distributions(8, Dispersion::new(num, den));
        assert_eq!(table.len(), 9);
        assert!(table[0].is_empty());
        for i in 1..=8 {
            assert_eq!(table[i].len(), i);
            let sum: u128 = table[i].iter().map(|&p| p as u128).sum();
            assert_eq!(sum, PROBABILITY_ONE as u128);
            let as_float: f64 = table[i].iter().map(|&p| p as f64 / PROBABILITY_ONE as f64).sum();
            assert!((as_float - 1.0).abs() < 1e-9);
        }
    }
}

#[test]
fn row_of_half_dispersion_exact() {
    let table = mallows_insert_distributions(2, half());
    assert_eq!(table[1], vec![PROBABILITY_ONE]);
    assert_eq!(table[2], vec![3002399751580330, 6004799503160662]);
}

#[test]
fn rows_grow_towards_last_offset() {
    let table = mallows_insert_distributions(6, Dispersion::new(7, 10));
    for i in 2..=6 {
        for j in 1..i {
            assert!(table[i][j - 1] < table[i][j]);
        }
    }
}

#[test]
fn zero_dispersion_rows_are_degenerate() {
    let table = mallows_insert_distributions(5, Dispersion::new(0, 3));
    for i in 1..=5 {
        for j in 0..i - 1 {
            assert_eq!(table[i][j], 0);
        }
        assert_eq!(table[i][i - 1], PROBABILITY_ONE);
    }
}

#[test]
fn unit_dispersion_rows_are_uniform() {
    let table = mallows_insert_distributions(6, Dispersion::new(5, 5));
    assert_eq!(table[4], vec![PROBABILITY_ONE / 4; 4]);
    assert_eq!(table[2], vec![PROBABILITY_ONE / 2; 2]);
    for i in 1..=6u64 {
        for &p in &table[i as usize] {
            let scaled = p as i128 * i as i128;
            assert!((scaled - PROBABILITY_ONE as i128).abs() < i as i128);
        }
    }
}

#[test]
fn select_offset_inverse_cdf() {
    let row = vec![PROBABILITY_ONE / 4, PROBABILITY_ONE / 4, PROBABILITY_ONE / 2];
    assert_eq!(select_offset(&row, 0), 1);
    assert_eq!(select_offset(&row, PROBABILITY_ONE / 4), 1);
    assert_eq!(select_offset(&row, PROBABILITY_ONE / 4 + 1), 2);
    assert_eq!(select_offset(&row, PROBABILITY_ONE / 2), 2);
    assert_eq!(select_offset(&row, PROBABILITY_ONE / 2 + 1), 3);
    assert_eq!(select_offset(&row, PROBABILITY_ONE - 1), 3);
}

#[test]
fn select_offset_falls_back_to_last() {
    let row = vec![1, 1, 1];
    assert_eq!(select_offset(&row, 1000), 3);
    assert_eq!(select_offset(&vec![0, 0, PROBABILITY_ONE], 0), 1);
    assert_eq!(select_offset(&vec![0, 0, PROBABILITY_ONE], 1), 3);
}

#[test]
fn synthesize_vote_inserts_sequentially() {
    let table = mallows_insert_distributions(3, Dispersion::new(1, 1));
    let reference = vec![10, 20, 30];
    // Draws 0 pick offset 1 at each step: every element goes to the front.
    let vote = synthesize_vote(&table, &reference, &vec![0, 0, 0]);
    assert_eq!(vote, vec![30, 20, 10]);
    // Draws just under 1 pick the last offset: the reference is kept.
    let vote = synthesize_vote(&table, &reference, &vec![u64::MAX; 3]);
    assert_eq!(vote, vec![10, 20, 30]);
    // Step 2 picks offset 1, step 3 picks offset 2.
    let half_word = (PROBABILITY_ONE / 2) * 2048;
    let vote = synthesize_vote(&table, &reference, &vec![u64::MAX, half_word, half_word]);
    assert_eq!(vote, vec![20, 30, 10]);
}

#[test]
fn votes_follow_one_chacha8_stream() {
    let phi = Dispersion::new(3, 5);
    let reference = vec![4, 8, 15, 16, 23];
    let table = mallows_insert_distributions(5, phi);
    let votes = synthesize_votes(&table, &reference, 4, 99);
    let mut rng = ChaCha8Rng::seed_from_u64(99);
    for vote in &votes {
        let words: Vec<u64> = (0..5).map(|_| rng.next_u64()).collect();
        assert_eq!(*vote, synthesize_vote(&table, &reference, &words));
    }
}

#[test]
fn zero_dispersion_gives_reference() {
    let votes = generate_mallows_votes(3, 5, Dispersion::new(0, 1), vec![0, 1, 2], Some(42)).unwrap();
    assert_eq!(votes.len(), 5);
    for vote in &votes {
        assert_eq!(*vote, vec![0, 1, 2]);
    }
}

#[test]
fn zero_dispersion_without_seed_gives_reference() {
    let votes = generate_mallows_votes(6, 10, Dispersion::new(0, 7), vec![5, 4, 3, 2, 1, 0], None).unwrap();
    for vote in &votes {
        assert_eq!(*vote, vec![5, 4, 3, 2, 1, 0]);
    }
}

#[test]
fn votes_are_permutations() {
    let reference = vec![7, 3, 9, 1, 4, 8];
    for phi in [Dispersion::new(1, 2), Dispersion::new(1, 1), Dispersion::new(1, 100)] {
        let votes = generate_mallows_votes(6, 50, phi, reference.clone(), Some(7)).unwrap();
        assert_eq!(votes.len(), 50);
        for vote in &votes {
            assert_eq!(sorted(vote), sorted(&reference));
        }
    }
}

#[test]
fn same_seed_same_votes() {
    let reference = vec![0, 1, 2, 3, 4, 5, 6];
    let a = generate_mallows_votes(7, 30, half(), reference.clone(), Some(12345)).unwrap();
    let b = generate_mallows_votes(7, 30, half(), reference, Some(12345)).unwrap();
    assert_eq!(a, b);
}

#[test]
fn different_seeds_differ() {
    let reference = vec![0, 1, 2, 3, 4];
    let a = generate_mallows_votes(5, 20, half(), reference.clone(), Some(1)).unwrap();
    let b = generate_mallows_votes(5, 20, half(), reference, Some(2)).unwrap();
    assert_ne!(a, b);
}

#[test]
fn unit_dispersion_varies() {
    let reference = vec![0, 1, 2];
    let votes = generate_mallows_votes(3, 200, Dispersion::new(1, 1), reference.clone(), Some(3)).unwrap();
    assert!(votes.iter().any(|v| *v != reference));
    assert!(votes.iter().any(|v| v[0] == 2));
}

#[test]
fn out_of_range_dispersion_rejected() {
    let reference = vec![0, 1, 2];
    assert_eq!(
        generate_mallows_votes(3, 5, Dispersion::new(-1, 10), reference.clone(), Some(1)),
        Err(MallowsError::InvalidParameter { numerator: -1, denominator: 10 })
    );
    assert_eq!(
        generate_mallows_votes(3, 5, Dispersion::new(3, 2), reference.clone(), Some(1)),
        Err(MallowsError::InvalidParameter { numerator: 3, denominator: 2 })
    );
    assert!(matches!(
        generate_mallows_votes(3, 5, Dispersion::new(1, 0), reference, None),
        Err(MallowsError::InvalidParameter { .. })
    ));
}

#[test]
fn boundary_dispersion_accepted() {
    let reference = vec![0, 1, 2];
    assert!(generate_mallows_votes(3, 5, Dispersion::new(0, 1), reference.clone(), Some(1)).is_ok());
    assert!(generate_mallows_votes(3, 5, Dispersion::new(1, 1), reference, Some(1)).is_ok());
}

#[test]
fn dispersion_is_valid() {
    assert!(Dispersion::new(0, 1).is_valid());
    assert!(Dispersion::new(1, 1).is_valid());
    assert!(!Dispersion::new(-1, 10).is_valid());
    assert!(!Dispersion::new(3, 2).is_valid());
    assert!(!Dispersion::new(0, 0).is_valid());
}

#[test]
fn reference_length_checked() {
    assert_eq!(
        generate_mallows_votes(4, 2, half(), vec![0, 1, 2], Some(1)),
        Err(MallowsError::DimensionMismatch { expected: 4, found: 3 })
    );
    // The dispersion is checked first.
    assert_eq!(
        generate_mallows_votes(4, 2, Dispersion::new(2, 1), vec![0, 1, 2], Some(1)),
        Err(MallowsError::InvalidParameter { numerator: 2, denominator: 1 })
    );
}

#[test]
fn single_candidate_trivial() {
    for phi in [Dispersion::new(0, 1), half(), Dispersion::new(1, 1)] {
        let votes = generate_mallows_votes(1, 10, phi, vec![17], Some(5)).unwrap();
        assert_eq!(votes, vec![vec![17]; 10]);
    }
}

#[test]
fn empty_cases() {
    assert_eq!(generate_mallows_votes(3, 0, half(), vec![0, 1, 2], Some(1)).unwrap().len(), 0);
    let votes = generate_mallows_votes(0, 3, half(), vec![], Some(1)).unwrap();
    assert_eq!(votes, vec![Vec::<usize>::new(); 3]);
    assert_eq!(mallows_insert_distributions(0, half()), vec![Vec::<u64>::new()]);
}
