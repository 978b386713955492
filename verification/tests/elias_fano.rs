use cseq::elias_fano::{Builder, Sequence};

fn collect(seq: &Sequence) -> Vec<u64> {
    let mut out = Vec::new();
    let mut it = seq.iter();
    while let Some(v) = it.next() {
        out.push(v);
    }
    out
}

fn collect_rev(seq: &Sequence) -> Vec<u64> {
    let mut out = Vec::new();
    let mut it = seq.iter();
    while let Some(v) = it.next_back() {
        out.push(v);
    }
    out
}

fn collect_cursor(mut cursor: cseq::elias_fano::Cursor) -> Vec<u64> {
    let mut out = Vec::new();
    while let Some(v) = cursor.next() {
        out.push(v);
    }
    out
}

fn collect_diffs(mut diffs: cseq::elias_fano::DiffIterator) -> Vec<u64> {
    let mut out = Vec::new();
    while let Some(v) = diffs.next() {
        out.push(v);
    }
    out
}

#[test]
fn elias_fano_test_empty() {
    let ef: Sequence = Builder::new(0, 0).finish();
    assert_eq!(ef.get(0), None);
    assert_eq!(ef.rank(0), 0);
    assert_eq!(collect(&ef), Vec::<u64>::new());
    assert_eq!(collect_rev(&ef), Vec::<u64>::new());
}

#[test]
fn test_small_sparse() {
    let mut ef = Builder::new(5, 1000);
    ef.push(0);
    ef.push(1);
    ef.push(801);
    ef.push(920);
    ef.push(999);
    let ef: Sequence = ef.finish();
    assert_eq!(ef.get(0), Some(0));
    assert_eq!(ef.get(1), Some(1));
    assert_eq!(ef.get(2), Some(801));
    assert_eq!(ef.get(3), Some(920));
    assert_eq!(ef.get(4), Some(999));
    assert_eq!(ef.get(5), None);
    assert_eq!(collect(&ef), [0, 1, 801, 920, 999]);
    assert_eq!(collect_rev(&ef), [999, 920, 801, 1, 0]);
    assert_eq!(collect_cursor(ef.geq_cursor(801)), [801, 920, 999]);
    assert_eq!(collect_cursor(ef.geq_cursor(802)), [920, 999]);
    assert_eq!(ef.rank(0), 0);
    assert_eq!(ef.rank(1), 1);
    assert_eq!(ef.rank(2), 2);
    assert_eq!(ef.rank(800), 2);
    assert_eq!(ef.rank(801), 2);
    assert_eq!(ef.rank(802), 3);
    assert_eq!(ef.rank(920), 3);
    assert_eq!(ef.rank(921), 4);
    assert_eq!(ef.rank(999), 4);
    assert_eq!(ef.rank(1000), 5);
}

#[test]
fn test_small_dense() {
    let mut ef = Builder::new(5, 6);
    ef.push(0);
    ef.push(1);
    ef.push(3);
    ef.push(3);
    ef.push(5);
    let ef: Sequence = ef.finish();
    assert_eq!(ef.get(0), Some(0));
    assert_eq!(ef.get(1), Some(1));
    assert_eq!(ef.get(2), Some(3));
    assert_eq!(ef.get(3), Some(3));
    assert_eq!(ef.get(4), Some(5));
    assert_eq!(ef.get(5), None);
    assert_eq!(collect(&ef), [0, 1, 3, 3, 5]);
    assert_eq!(collect_cursor(ef.geq_cursor(3)), [3, 3, 5]);
    assert_eq!(collect_cursor(ef.geq_cursor(10)), Vec::<u64>::new());
    assert_eq!(collect_rev(&ef), [5, 3, 3, 1, 0]);
    assert_eq!(ef.rank(0), 0);
    assert_eq!(ef.rank(1), 1);
    assert_eq!(ef.rank(2), 2);
    assert_eq!(ef.rank(3), 2);
    assert_eq!(ef.rank(4), 4);
    assert_eq!(ef.rank(5), 4);
    assert_eq!(ef.rank(6), 5);
    assert_eq!(ef.diff(0), Some(0));
    assert_eq!(ef.diff(1), Some(1));
    assert_eq!(ef.diff(2), Some(2));
    assert_eq!(ef.diff(3), Some(0));
    assert_eq!(ef.diff(4), Some(2));
    assert_eq!(ef.diff(5), None);
    assert_eq!(collect_diffs(ef.diffs()), [0, 1, 2, 0, 2]);
    assert_eq!(collect_diffs(ef.geq_cursor(3).diffs()), [2, 0, 2]);
}

#[test]
fn index_of_and_cursor_of() {
    let mut b = Builder::new(5, 1000);
    b.push_all(&vec![0, 1, 801, 920, 999]);
    let ef = b.finish();
    assert_eq!(ef.index_of(801), Some(2));
    assert_eq!(ef.index_of(800), None);
    assert_eq!(ef.index_of(0), Some(0));
    assert_eq!(ef.index_of(999), Some(4));
    assert_eq!(ef.index_of(1), Some(1));
    let c = ef.cursor_of(920).unwrap();
    assert_eq!(c.index(), 3);
    assert_eq!(c.value(), Some(920));
    assert!(ef.cursor_of(2).is_none());
}

#[test]
fn index_of_first_duplicate() {
    let mut b = Builder::new(5, 6);
    b.push_all(&vec![0, 1, 3, 3, 5]);
    let ef = b.finish();
    // index_of returns the first of equal values.
    assert_eq!(ef.index_of(3), Some(2));
    assert_eq!(ef.geq_index(3), 2);
    assert_eq!(ef.geq_index(4), 4);
    assert_eq!(ef.try_rank(4), Some(4));
    assert_eq!(ef.try_select(2), Some(3));
    assert_eq!(ef.try_select(5), None);
}

#[test]
fn push_diffs_accumulates() {
    let mut b = Builder::new(5, 100);
    b.push_diffs(&vec![7, 0, 3, 5, 0]);
    let ef = b.finish();
    assert_eq!(collect(&ef), [7, 7, 10, 15, 15]);
    assert_eq!(collect_diffs(ef.diffs()), [7, 0, 3, 5, 0]);
}

#[test]
fn builder_accessors() {
    let mut b = Builder::new(3, 50);
    assert_eq!(b.universe(), 50);
    assert_eq!(b.target_len(), 3);
    assert_eq!(b.current_len(), 0);
    assert_eq!(b.last_added(), 0);
    b.push(10);
    b.push_diff(5);
    assert_eq!(b.current_len(), 2);
    assert_eq!(b.last_added(), 15);
    b.push(49);
    let ef = b.finish();
    assert_eq!(ef.len(), 3);
    assert!(!ef.is_empty());
    assert_eq!(collect(&ef), [10, 15, 49]);
}

#[test]
fn cursor_walk() {
    let mut b = Builder::new(4, 32);
    b.push_all(&vec![2, 9, 9, 31]);
    let ef = b.finish();
    let mut c = ef.begin();
    assert!(c.is_valid());
    assert!(!c.is_end());
    assert_eq!(c.value(), Some(2));
    assert!(c.advance());
    assert_eq!(c.value(), Some(9));
    assert_eq!(c.diff(), Some(7));
    assert!(c.advance_back());
    assert_eq!(c.value(), Some(2));
    assert!(!c.advance_back());
    let mut e = ef.end();
    assert!(e.is_end());
    assert!(!e.is_valid());
    assert_eq!(e.value(), None);
    assert_eq!(e.next_back(), Some(31));
    assert_eq!(e.next_back(), Some(9));
    // finishing early keeps exactly the pushed prefix
    let mut partial = Builder::new(4, 32);
    partial.push(1);
    partial.push(5);
    let seq = partial.finish_unchecked();
    assert_eq!(seq.len(), 2);
    assert_eq!(collect(&seq), [1, 5]);
}

#[test]
fn geq_matches_naive_on_random_input() {
    // geq_index(v) equals the count of stored values below v, compared
    // against a sorted vector for every query value.
    let mut state = 0xDEADBEEFCAFEF00Du64;
    let mut values = Vec::new();
    for _ in 0..300 {
        state ^= state << 13;
        state ^= state >> 7;
        state ^= state << 17;
        values.push(state % 5000);
    }
    values.sort();
    let mut b = Builder::new(300, 5000);
    b.push_all(&values);
    let ef = b.finish();
    for i in 0..300 {
        assert_eq!(ef.get(i), Some(values[i]));
    }
    for q in (0..5000).step_by(37) {
        let naive = values.iter().filter(|v| **v < q).count();
        assert_eq!(ef.geq_index(q), naive, "geq_index({})", q);
    }
    assert_eq!(ef.geq_index(5000), 300);
}

#[test]
fn unit_universe() {
    // Universe 1 admits only the value zero.
    let mut b = Builder::new(3, 1);
    b.push(0);
    b.push(0);
    b.push(0);
    let ef = b.finish();
    assert_eq!(collect(&ef), [0, 0, 0]);
    assert_eq!(ef.rank(0), 0);
    assert_eq!(ef.rank(1), 3);
    assert_eq!(ef.index_of(0), Some(0));
}

#[test]
fn huge_universe() {
    let mut b = Builder::new(3, u64::MAX);
    b.push(0);
    b.push(1 << 40);
    b.push(u64::MAX - 1);
    let ef = b.finish();
    assert_eq!(ef.get(0), Some(0));
    assert_eq!(ef.get(1), Some(1 << 40));
    assert_eq!(ef.get(2), Some(u64::MAX - 1));
    assert_eq!(ef.geq_index(1 << 40), 1);
    assert_eq!(ef.geq_index(u64::MAX - 1), 2);
    assert_eq!(ef.index_of(12345), None);
}
