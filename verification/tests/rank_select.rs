use cseq::rank_select::{ArrayWithRankSelect101111, ArrayWithRankSimple, SelectStrategy};

fn build_binary(words: Vec<u64>) -> ArrayWithRankSelect101111 {
    ArrayWithRankSelect101111::build(words).0
}

fn build_combined(words: Vec<u64>) -> ArrayWithRankSelect101111 {
    ArrayWithRankSelect101111::build_with_policies(
        words,
        SelectStrategy::CombinedSampling,
        SelectStrategy::CombinedSampling,
    )
    .0
}

fn bit_at(words: &[u64], index: usize) -> bool {
    (words[index / 64] >> (index % 64)) & 1 == 1
}

fn check_all_ones(a: &ArrayWithRankSelect101111, words: &[u64]) {
    let mut rank = 0usize;
    for index in 0..words.len() * 64 {
        if bit_at(words, index) {
            assert_eq!(a.rank(index), rank, "rank({}) should be {}", index, rank);
            assert_eq!(a.select(rank), index, "select({}) should be {}", rank, index);
            rank += 1;
        }
    }
}

fn check_all_zeros(a: &ArrayWithRankSelect101111, words: &[u64]) {
    let mut rank = 0usize;
    for index in 0..words.len() * 64 {
        if !bit_at(words, index) {
            assert_eq!(a.rank0(index), rank, "rank0({}) should be {}", index, rank);
            assert_eq!(a.select0(rank), index, "select0({}) should be {}", rank, index);
            rank += 1;
        }
    }
}

fn test_empty_array_rank(a: ArrayWithRankSelect101111) {
    assert_eq!(a.try_rank(0), None);
    assert_eq!(a.try_select(0), None);
}

#[test]
fn test_empty_array_rank_101111() {
    test_empty_array_rank(build_binary(vec![]));
}

#[test]
fn test_empty_array_rank_101111_combined() {
    test_empty_array_rank(build_combined(vec![]));
}

fn test_array_with_rank(a: ArrayWithRankSelect101111) {
    let words = vec![0b1101u64, 0b110u64];
    assert_eq!(a.try_select(0), Some(0));
    assert_eq!(a.try_select(1), Some(2));
    assert_eq!(a.try_select(2), Some(3));
    assert_eq!(a.try_select(3), Some(65));
    assert_eq!(a.try_select(4), Some(66));
    assert_eq!(a.try_select(5), None);
    assert_eq!(a.rank(0), 0);
    assert_eq!(a.rank(1), 1);
    assert_eq!(a.rank(2), 1);
    assert_eq!(a.rank(3), 2);
    assert_eq!(a.rank(4), 3);
    assert_eq!(a.rank(8), 3);
    assert_eq!(a.rank(64), 3);
    assert_eq!(a.rank(65), 3);
    assert_eq!(a.rank(66), 4);
    assert_eq!(a.rank(67), 5);
    assert_eq!(a.rank(70), 5);
    assert_eq!(a.try_rank(127), Some(5));
    assert_eq!(a.try_rank(128), None);
    check_all_ones(&a, &words);
    check_all_zeros(&a, &words);
}

#[test]
fn array_with_rank_101111() {
    test_array_with_rank(build_binary(vec![0b1101, 0b110]));
}

#[test]
fn array_with_rank_101111_combined() {
    test_array_with_rank(build_combined(vec![0b1101, 0b110]));
}

fn test_big_array_with_rank(a: ArrayWithRankSelect101111) {
    let words = vec![0b1101u64; 60];
    assert_eq!(a.try_select(0), Some(0));
    assert_eq!(a.try_select(1), Some(2));
    assert_eq!(a.try_select(2), Some(3));
    assert_eq!(a.try_select(3), Some(64));
    assert_eq!(a.try_select(4), Some(66));
    assert_eq!(a.try_select(5), Some(67));
    assert_eq!(a.try_select(6), Some(128));
    assert_eq!(a.try_select(7), Some(130));
    assert_eq!(a.try_select(3 * 8), Some(512));
    assert_eq!(a.try_select(3 * 8 + 1), Some(514));
    assert_eq!(a.try_select(2 * 6 * 8), Some(2 * 1024));
    assert_eq!(a.try_select(2 * 6 * 8 + 1), Some(2 * 1024 + 2));
    assert_eq!(a.try_select(2 * 6 * 8 + 2), Some(2 * 1024 + 3));
    assert_eq!(a.try_select(60 * 3), None);
    assert_eq!(a.rank(0), 0);
    assert_eq!(a.rank(1), 1);
    assert_eq!(a.rank(2), 1);
    assert_eq!(a.rank(3), 2);
    assert_eq!(a.rank(4), 3);
    assert_eq!(a.rank(8), 3);
    assert_eq!(a.rank(64), 3);
    assert_eq!(a.rank(65), 4);
    assert_eq!(a.rank(66), 4);
    assert_eq!(a.rank(67), 5);
    assert_eq!(a.rank(68), 6);
    assert_eq!(a.rank(69), 6);
    assert_eq!(a.rank(128), 6);
    assert_eq!(a.rank(129), 7);
    assert_eq!(a.rank(512), 3 * 8);
    assert_eq!(a.rank(513), 3 * 8 + 1);
    assert_eq!(a.rank(514), 3 * 8 + 1);
    assert_eq!(a.rank(515), 3 * 8 + 2);
    assert_eq!(a.rank(1024), 6 * 8);
    assert_eq!(a.rank(2 * 1024), 2 * 6 * 8);
    assert_eq!(a.rank(2 * 1024 + 1), 2 * 6 * 8 + 1);
    assert_eq!(a.rank(2 * 1024 + 2), 2 * 6 * 8 + 1);
    assert_eq!(a.rank(2 * 1024 + 3), 2 * 6 * 8 + 2);
    assert_eq!(a.try_rank(60 * 64), None);
    check_all_ones(&a, &words);
    check_all_zeros(&a, &words);
}

#[test]
fn big_array_with_rank_101111() {
    test_big_array_with_rank(build_binary(vec![0b1101; 60]));
}

#[test]
fn big_array_with_rank_101111_combined() {
    test_big_array_with_rank(build_combined(vec![0b1101; 60]));
}

fn test_content(a: ArrayWithRankSelect101111) {
    let words = vec![u64::MAX; 35];
    check_all_ones(&a, &words);
    check_all_zeros(&a, &words);
}

#[test]
fn content_101111() {
    test_content(build_binary(vec![u64::MAX; 35]));
}

#[test]
fn content_101111_combined() {
    test_content(build_combined(vec![u64::MAX; 35]));
}

#[test]
fn rank_totality_concrete() {
    // The counts of ones and zeros in any prefix add up to its length.
    let words = vec![0xDEADBEEFu64, 0x12345678u64, 0u64, u64::MAX];
    let (a, _) = ArrayWithRankSelect101111::build(words);
    for i in 0..4 * 64 {
        assert_eq!(a.rank(i) + a.rank0(i), i);
    }
}

#[test]
fn rank_monotonicity_concrete() {
    // Rank never decreases and grows by at most one per bit.
    let words = vec![0x8000000000000001u64, 0x5555AAAA5555AAAAu64];
    let (a, _) = ArrayWithRankSelect101111::build(words);
    for i in 0..2 * 64 - 1 {
        let r0 = a.rank(i);
        let r1 = a.rank(i + 1);
        assert!(r0 <= r1 && r1 <= r0 + 1);
    }
}

#[test]
fn rank_select_inversion_concrete() {
    // rank(select(k)) == k, the selected bit is set, and select(rank(i))
    // is the first set bit at or after i.
    let words = vec![0b1011_0001u64, 0b100u64, 0u64];
    let (a, total) = ArrayWithRankSelect101111::build(words.clone());
    for k in 0..total {
        let p = a.select(k);
        assert!(bit_at(&words, p));
        assert_eq!(a.rank(p), k);
    }
    for i in 0..3 * 64 {
        let k = a.rank(i);
        if k < total {
            let p = a.select(k);
            assert!(p >= i || !bit_at(&words, i));
            for j in i..p {
                assert!(!bit_at(&words, j));
            }
        }
    }
}

#[test]
fn policy_equivalence() {
    // Both select policies return identical results for every rank on the
    // same bit pattern.
    let mut state = 0x9E3779B97F4A7C15u64;
    let mut words = Vec::new();
    for _ in 0..96 {
        state ^= state << 13;
        state ^= state >> 7;
        state ^= state << 17;
        words.push(state);
    }
    let (a, total) = ArrayWithRankSelect101111::build(words.clone());
    let (c, total_c) = ArrayWithRankSelect101111::build_with_policies(
        words.clone(),
        SelectStrategy::CombinedSampling,
        SelectStrategy::CombinedSampling,
    );
    assert_eq!(total, total_c);
    for k in 0..total {
        assert_eq!(a.select(k), c.select(k));
    }
    let zeros = 96 * 64 - total;
    for k in 0..zeros {
        assert_eq!(a.select0(k), c.select0(k));
    }
    assert_eq!(a.try_select(total), None);
    assert_eq!(c.try_select(total), None);
}

#[test]
fn random_pattern_against_naive() {
    // Every operation compared against a naive bit walk on a random
    // pattern of 2^15 bits.
    let mut state = 0x0123456789ABCDEFu64;
    let mut words = Vec::new();
    for _ in 0..512 {
        state ^= state << 13;
        state ^= state >> 7;
        state ^= state << 17;
        words.push(state);
    }
    let (a, total) = ArrayWithRankSelect101111::build_with_policies(
        words.clone(),
        SelectStrategy::CombinedSampling,
        SelectStrategy::BinaryRankSearch,
    );
    let mut naive_rank = 0usize;
    let mut ones = Vec::new();
    let mut zeros = Vec::new();
    for i in 0..512 * 64 {
        if i % 97 == 0 {
            assert_eq!(a.rank(i), naive_rank);
            assert_eq!(a.rank0(i), i - naive_rank);
        }
        if bit_at(&words, i) {
            ones.push(i);
            naive_rank += 1;
        } else {
            zeros.push(i);
        }
    }
    assert_eq!(total, ones.len());
    for k in (0..ones.len()).step_by(53) {
        assert_eq!(a.select(k), ones[k]);
    }
    for k in (0..zeros.len()).step_by(53) {
        assert_eq!(a.select0(k), zeros[k]);
    }
}

#[test]
fn simple_array_matches_two_level() {
    // The one-level directory agrees with the two-level one on every
    // prefix.
    let words = vec![0xF0F0F0F0F0F0F0F0u64, 0b1101u64, u64::MAX, 0u64, 42u64];
    let (simple, total_simple) = ArrayWithRankSimple::build(words.clone());
    let (full, total_full) = ArrayWithRankSelect101111::build(words.clone());
    assert_eq!(total_simple as usize, total_full);
    for i in 0..5 * 64 {
        assert_eq!(simple.rank(i) as usize, full.rank(i));
    }
    assert_eq!(simple.try_rank(5 * 64), None);
    assert_eq!(simple.try_rank(0), Some(0));
}
