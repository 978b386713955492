use cseq::wm::WaveletMatrix;

#[test]
fn wm_test_empty() {
    let wm = WaveletMatrix::from_bits(&vec![], 0, 2);
    assert_eq!(wm.len(), 0);
    assert_eq!(wm.bits_per_value(), 2);
    assert_eq!(wm.get(0), None);
}

#[test]
fn test_2_levels() {
    let wm = WaveletMatrix::from_bits(&vec![0b01_01_10_11], 4, 2);
    assert_eq!(wm.len(), 4);
    assert_eq!(wm.bits_per_value(), 2);
    assert_eq!(wm.get(0), Some(0b11));
    assert_eq!(wm.get(1), Some(0b10));
    assert_eq!(wm.get(2), Some(0b01));
    assert_eq!(wm.get(3), Some(0b01));
    assert_eq!(wm.get(4), None);
    assert_eq!(wm.try_rank(2, 0b10), Some(1));
    assert_eq!(wm.try_rank(2, 0b11), Some(1));
    assert_eq!(wm.try_rank(2, 0b01), Some(0));
    assert_eq!(wm.try_select(0, 0b10), Some(1));
    assert_eq!(wm.try_select(0, 0b01), Some(2));
}

#[test]
fn test_3_levels() {
    let wm = WaveletMatrix::from_bits(&vec![0b000_110], 2, 3);
    assert_eq!(wm.len(), 2);
    assert_eq!(wm.bits_per_value(), 3);
    assert_eq!(wm.get(0), Some(0b110));
    assert_eq!(wm.get(1), Some(0b000));
    assert_eq!(wm.get(2), None);
}

#[test]
fn test_4_levels() {
    let wm = WaveletMatrix::from_bits(&vec![0b1101_1010_0001_0001_1011], 5, 4);
    assert_eq!(wm.len(), 5);
    assert_eq!(wm.bits_per_value(), 4);
    assert_eq!(wm.get(0), Some(0b1011));
    assert_eq!(wm.get(1), Some(0b0001));
    assert_eq!(wm.get(2), Some(0b0001));
    assert_eq!(wm.get(3), Some(0b1010));
    assert_eq!(wm.get(4), Some(0b1101));
    assert_eq!(wm.get(5), None);
    assert_eq!(wm.try_rank(0, 0b1011), Some(0));
    assert_eq!(wm.try_rank(1, 0b0001), Some(0));
    assert_eq!(wm.try_rank(2, 0b0001), Some(1));
    assert_eq!(wm.try_rank(3, 0b0001), Some(2));
    assert_eq!(wm.try_rank(4, 0b0001), Some(2));
    assert_eq!(wm.try_rank(5, 0b0001), Some(2));
    assert_eq!(wm.try_rank(6, 0b0001), None);
    assert_eq!(wm.try_select(0, 0b0001), Some(1));
    assert_eq!(wm.try_select(1, 0b0001), Some(2));
}

#[test]
fn from_fn_matches_from_bits() {
    let symbols: Vec<u64> = vec![3, 1, 4, 1, 5, 2, 6, 5, 3, 5];
    let wm = WaveletMatrix::from_fn(|i: usize| symbols[i], symbols.len(), 3);
    assert_eq!(wm.len(), 10);
    for (i, s) in symbols.iter().enumerate() {
        assert_eq!(wm.get(i), Some(*s));
    }
}

#[test]
fn count_in_range_and_select() {
    let symbols: Vec<u64> = vec![5, 2, 5, 5, 0, 2, 5, 7];
    let wm = WaveletMatrix::from_fn(|i: usize| symbols[i], symbols.len(), 3);
    assert_eq!(wm.try_count_in_range(0..8, 5), Some(4));
    assert_eq!(wm.try_count_in_range(1..3, 5), Some(1));
    assert_eq!(wm.try_count_in_range(2..2, 5), Some(0));
    assert_eq!(wm.try_count_in_range(0..9, 5), None);
    assert_eq!(wm.try_select(0, 5), Some(0));
    assert_eq!(wm.try_select(1, 5), Some(2));
    assert_eq!(wm.try_select(2, 5), Some(3));
    assert_eq!(wm.try_select(3, 5), Some(6));
    assert_eq!(wm.try_select(4, 5), None);
    assert_eq!(wm.try_select(0, 4), None);
    assert_eq!(wm.select(0, 7), 7);
}

#[test]
fn rank_select_inversion_random() {
    // For every symbol and every valid occurrence count, select inverts
    // rank: rank(select(k, v), v) == k and get(select(k, v)) == v; and
    // select(rank(i, v), v) is at or after i.
    let mut state = 0xA5A5A5A5DEADC0DEu64;
    let mut symbols = Vec::new();
    for _ in 0..200 {
        state ^= state << 13;
        state ^= state >> 7;
        state ^= state << 17;
        symbols.push(state % 16);
    }
    let wm = WaveletMatrix::from_fn(|i: usize| symbols[i], symbols.len(), 4);
    for i in 0..200 {
        assert_eq!(wm.get(i), Some(symbols[i]));
    }
    for v in 0..16u64 {
        let total = wm.try_rank(200, v).unwrap();
        let naive = symbols.iter().filter(|s| **s == v).count();
        assert_eq!(total, naive);
        for k in 0..total {
            let p = wm.select(k, v);
            assert_eq!(wm.get(p), Some(v));
            assert_eq!(wm.try_rank(p, v), Some(k));
        }
        assert_eq!(wm.try_select(total, v), None);
        for i in (0..200).step_by(17) {
            let k = wm.try_rank(i, v).unwrap();
            if k < total {
                assert!(wm.select(k, v) >= i);
            }
        }
    }
}

#[test]
fn single_level_width() {
    let wm = WaveletMatrix::from_bits(&vec![0b1011], 4, 1);
    assert_eq!(wm.bits_per_value(), 1);
    assert_eq!(wm.get(0), Some(1));
    assert_eq!(wm.get(1), Some(1));
    assert_eq!(wm.get(2), Some(0));
    assert_eq!(wm.get(3), Some(1));
    assert_eq!(wm.try_rank(4, 1), Some(3));
    assert_eq!(wm.try_rank(4, 0), Some(1));
    assert_eq!(wm.try_select(2, 1), Some(3));
    assert_eq!(wm.try_select(0, 0), Some(2));
}

#[test]
fn full_width_symbols() {
    let symbols: Vec<u64> = vec![u64::MAX, 0, 0x8000000000000001, u64::MAX];
    let wm = WaveletMatrix::from_fn(|i: usize| symbols[i], symbols.len(), 64);
    assert_eq!(wm.bits_per_value(), 64);
    for (i, s) in symbols.iter().enumerate() {
        assert_eq!(wm.get(i), Some(*s));
    }
    assert_eq!(wm.try_rank(4, u64::MAX), Some(2));
    assert_eq!(wm.try_select(1, u64::MAX), Some(3));
    assert_eq!(wm.try_select(0, 7), None);
}
