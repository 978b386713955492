//! Word-level bit primitives and the mathematical model of a bit array.
//!
//! A bit array is a sequence of 64-bit words; bit `i` of the array is bit
//! `i % 64` (least significant first) of word `i / 64`.  All structures in
//! this crate are specified against `seq_bit` (the bit at an index) and
//! `rank_of` (the number of ones in a prefix).

use vstd::prelude::*;

verus! {

/// Bit `k` (0 = least significant) of the word `w`.
pub open spec fn word_bit(w: u64, k: int) -> bool {
    ((w >> (k as u64)) & 1) == 1
}

/// Bit `i` of the bit array stored in `words`.
pub open spec fn seq_bit(words: Seq<u64>, i: int) -> bool {
    word_bit(words[i / 64], i % 64)
}

/// Number of ones among bits `[0, k)` of the word `w`.
pub open spec fn count_word(w: u64, k: int) -> int
    decreases k,
{
    if k <= 0 {
        0
    } else {
        count_word(w, k - 1) + if word_bit(w, k - 1) {
            1int
        } else {
            0int
        }
    }
}

/// Number of ones among bits `[0, i)` of the bit array stored in `words`.
pub open spec fn rank_of(words: Seq<u64>, i: int) -> int
    decreases i,
{
    if i <= 0 {
        0
    } else {
        rank_of(words, i - 1) + if seq_bit(words, i - 1) {
            1int
        } else {
            0int
        }
    }
}

/// Number of zeros among bits `[0, i)` of the bit array stored in `words`.
pub open spec fn rank0_of(words: Seq<u64>, i: int) -> int
    decreases i,
{
    if i <= 0 {
        0
    } else {
        rank0_of(words, i - 1) + if seq_bit(words, i - 1) {
            0int
        } else {
            1int
        }
    }
}

/// Rank never exceeds the prefix length and never decreases below zero.
pub proof fn lemma_rank_bounds(words: Seq<u64>, i: int)
    ensures
        0 <= rank_of(words, i),
        i >= 0 ==> rank_of(words, i) <= i,
        0 <= rank0_of(words, i),
        i >= 0 ==> rank0_of(words, i) <= i,
    decreases i,
{
    if i > 0 {
        lemma_rank_bounds(words, i - 1);
    }
}

/// Counting ones and counting zeros over the same prefix add up to its length.
pub proof fn lemma_rank_totality(words: Seq<u64>, i: int)
    requires
        i >= 0,
    ensures
        rank_of(words, i) + rank0_of(words, i) == i,
    decreases i,
{
    if i > 0 {
        lemma_rank_totality(words, i - 1);
    }
}

/// Rank is monotone and grows by at most one per bit.
pub proof fn lemma_rank_monotone(words: Seq<u64>, i: int, j: int)
    requires
        0 <= i <= j,
    ensures
        rank_of(words, i) <= rank_of(words, j),
        rank_of(words, j) - rank_of(words, i) <= j - i,
        rank0_of(words, i) <= rank0_of(words, j),
        rank0_of(words, j) - rank0_of(words, i) <= j - i,
    decreases j,
{
    if i < j {
        lemma_rank_monotone(words, i, j - 1);
    }
}

/// If a prefix extension adds no ones, every bit in the extension is zero.
pub proof fn lemma_rank_constant_means_zero(words: Seq<u64>, a: int, b: int, p: int)
    requires
        0 <= a <= p < b,
        rank_of(words, a) == rank_of(words, b),
    ensures
        !seq_bit(words, p),
    decreases b,
{
    lemma_rank_monotone(words, a, p);
    lemma_rank_monotone(words, p + 1, b);
}

/// A rank prefix decomposes into a whole-word rank plus an in-word count.
pub proof fn lemma_rank_word_split(words: Seq<u64>, w: int, k: int)
    requires
        0 <= w,
        0 <= k <= 64,
    ensures
        rank_of(words, 64 * w + k) == rank_of(words, 64 * w) + count_word(words[w], k),
    decreases k,
{
    if k > 0 {
        lemma_rank_word_split(words, w, k - 1);
        assert((64 * w + k - 1) / 64 == w) by (nonlinear_arith)
            requires 0 <= w && 0 < k <= 64;
        assert((64 * w + k - 1) % 64 == k - 1) by (nonlinear_arith)
            requires 0 <= w && 0 < k <= 64;
    }
}

/// Every rank below the total is attained: the `k`-th one exists.
pub proof fn lemma_select_exists(words: Seq<u64>, k: int, end: int)
    requires
        0 <= k < rank_of(words, end),
    ensures
        exists|p: int|
            0 <= p < end && #[trigger] seq_bit(words, p) && rank_of(words, p) == k,
    decreases end,
{
    if rank_of(words, end - 1) > k {
        lemma_select_exists(words, k, end - 1);
        let p = choose|p: int|
            0 <= p < end - 1 && #[trigger] seq_bit(words, p) && rank_of(words, p) == k;
        assert(0 <= p < end && seq_bit(words, p) && rank_of(words, p) == k);
    } else {
        lemma_rank_bounds(words, end);
        assert(seq_bit(words, end - 1) && rank_of(words, end - 1) == k);
    }
}

/// Every zero-rank below the total is attained: the `k`-th zero exists.
pub proof fn lemma_select0_exists(words: Seq<u64>, k: int, end: int)
    requires
        0 <= k < rank0_of(words, end),
    ensures
        exists|p: int|
            0 <= p < end && !#[trigger] seq_bit(words, p) && rank0_of(words, p) == k,
    decreases end,
{
    if rank0_of(words, end - 1) > k {
        lemma_select0_exists(words, k, end - 1);
        let p = choose|p: int|
            0 <= p < end - 1 && !#[trigger] seq_bit(words, p) && rank0_of(words, p) == k;
        assert(0 <= p < end && !seq_bit(words, p) && rank0_of(words, p) == k);
    } else {
        lemma_rank_bounds(words, end);
        assert(!seq_bit(words, end - 1) && rank0_of(words, end - 1) == k);
    }
}

/// Positions of set bits are unique per rank: two set bits with the same
/// number of ones before them are the same bit.  In particular any two
/// correct select implementations agree on every query.
pub proof fn lemma_select_unique(words: Seq<u64>, p1: int, p2: int)
    requires
        0 <= p1,
        0 <= p2,
        seq_bit(words, p1),
        seq_bit(words, p2),
        rank_of(words, p1) == rank_of(words, p2),
    ensures
        p1 == p2,
{
    if p1 < p2 {
        lemma_rank_monotone(words, p1 + 1, p2);
    }
    if p2 < p1 {
        lemma_rank_monotone(words, p2 + 1, p1);
    }
}

/// A prefix extension over clear bits keeps the rank: if no bit in
/// `[i, q)` is set, the rank at `q` equals the rank at `i`.  Together with
/// `lemma_select_unique` this says that select of `rank(i)` returns the
/// position of the first set bit at or after `i`.
pub proof fn lemma_select_of_rank(words: Seq<u64>, i: int, q: int)
    requires
        0 <= i <= q,
        forall|j: int| i <= j < q ==> !seq_bit(words, j),
    ensures
        rank_of(words, q) == rank_of(words, i),
    decreases q,
{
    if i < q {
        lemma_select_of_rank(words, i, q - 1);
    }
}

/// The zeros counterpart: if every bit in `[i, q)` is set, the zero-rank
/// at `q` equals the zero-rank at `i`, so select-zero of `rank0(i)`
/// returns the position of the first clear bit at or after `i`.
pub proof fn lemma_select0_of_rank(words: Seq<u64>, i: int, q: int)
    requires
        0 <= i <= q,
        forall|j: int| i <= j < q ==> seq_bit(words, j),
    ensures
        rank0_of(words, q) == rank0_of(words, i),
    decreases q,
{
    if i < q {
        lemma_select0_of_rank(words, i, q - 1);
    }
}

/// Positions of clear bits are unique per zero-rank.
pub proof fn lemma_select0_unique(words: Seq<u64>, p1: int, p2: int)
    requires
        0 <= p1,
        0 <= p2,
        !seq_bit(words, p1),
        !seq_bit(words, p2),
        rank0_of(words, p1) == rank0_of(words, p2),
    ensures
        p1 == p2,
{
    if p1 < p2 {
        lemma_rank_monotone(words, p1 + 1, p2);
    }
    if p2 < p1 {
        lemma_rank_monotone(words, p2 + 1, p1);
    }
}

/// Setting one clear bit raises by one the rank of every prefix that
/// covers it and keeps every other prefix rank.
pub proof fn lemma_rank_after_set(w1: Seq<u64>, w2: Seq<u64>, q: int, i: int)
    requires
        w1.len() == w2.len(),
        0 <= q < 64 * w1.len(),
        !seq_bit(w1, q),
        forall|j: int|
            0 <= j < 64 * w1.len() ==> seq_bit(w2, j) == (j == q || seq_bit(w1, j)),
        0 <= i <= 64 * w1.len(),
    ensures
        rank_of(w2, i) == rank_of(w1, i) + if i > q {
            1int
        } else {
            0int
        },
    decreases i,
{
    if i > 0 {
        lemma_rank_after_set(w1, w2, q, i - 1);
    }
}

/// Number of ones among bits `[0, k)` of `w`, for `k <= 64`.
pub fn count_word_prefix(w: u64, k: usize) -> (r: usize)
    requires
        k <= 64,
    ensures
        r == count_word(w, k as int),
{
    let mut r: usize = 0;
    let mut t: usize = 0;
    while t < k
        invariant
            t <= k <= 64,
            r == count_word(w, t as int),
        decreases k - t,
    {
        assert(count_word(w, t as int) <= t) by {
            lemma_count_word_bounds(w, t as int);
        }
        if (w >> (t as u64)) & 1 == 1 {
            r = r + 1;
        }
        t = t + 1;
    }
    r
}

/// The in-word count never exceeds the prefix length.
pub proof fn lemma_count_word_bounds(w: u64, k: int)
    ensures
        0 <= count_word(w, k),
        k >= 0 ==> count_word(w, k) <= k,
    decreases k,
{
    if k > 0 {
        lemma_count_word_bounds(w, k - 1);
    }
}

/// The in-word count is monotone in the prefix length.
pub proof fn lemma_count_word_monotone(w: u64, i: int, j: int)
    requires
        0 <= i <= j,
    ensures
        count_word(w, i) <= count_word(w, j),
    decreases j,
{
    if i < j {
        lemma_count_word_monotone(w, i, j - 1);
    }
}

/// Number of ones in the whole word `w`.
pub fn popcount_word(w: u64) -> (r: usize)
    ensures
        r == count_word(w, 64),
{
    count_word_prefix(w, 64)
}

/// Position of the `k`-th (0-indexed) set bit of `w`, or 64 if `w` has at
/// most `k` set bits.
pub fn select_in_word(w: u64, k: usize) -> (r: usize)
    ensures
        k < count_word(w, 64) ==> r < 64 && word_bit(w, r as int) && count_word(w, r as int)
            == k,
        k >= count_word(w, 64) ==> r == 64,
{
    let mut t: usize = 0;
    let mut c: usize = 0;
    while t < 64
        invariant
            t <= 64,
            c == count_word(w, t as int),
            k >= c,
        decreases 64 - t,
    {
        if (w >> (t as u64)) & 1 == 1 {
            if c == k {
                proof {
                    lemma_count_word_monotone(w, t as int + 1, 64);
                }
                return t;
            }
            c = c + 1;
        }
        t = t + 1;
    }
    proof {
        lemma_count_word_bounds(w, 64);
    }
    64
}

/// Complementing a word complements each of its bits.
pub proof fn lemma_word_complement_bit(w: u64, j: u64)
    requires
        j < 64,
    ensures
        word_bit(!w, j as int) == !word_bit(w, j as int),
{
    assert((((!w) >> j) & 1) == (if ((w >> j) & 1) == 1 {
        0u64
    } else {
        1u64
    })) by (bit_vector)
        requires j < 64;
}

/// Ones of the complemented word count the zeros of the word.
pub proof fn lemma_count_word_complement(w: u64, k: int)
    requires
        0 <= k <= 64,
    ensures
        count_word(!w, k) == k - count_word(w, k),
    decreases k,
{
    if k > 0 {
        lemma_count_word_complement(w, k - 1);
        lemma_word_complement_bit(w, (k - 1) as u64);
    }
}

/// Two to the power `l` as a machine word.
pub fn pow2_u64(l: u8) -> (r: u64)
    requires
        l < 64,
    ensures
        r == vstd::arithmetic::power2::pow2(l as nat),
{
    proof {
        vstd::bits::lemma_u64_pow2_no_overflow(l as nat);
        vstd::bits::lemma_u64_shl_is_mul(1u64, l as u64);
    }
    1u64 << (l as u64)
}

/// Number of ones in the bit range covered by words `[from, to)`.
pub fn count_bits_in(words: &Vec<u64>, from: usize, to: usize) -> (r: usize)
    requires
        from <= to <= words.len(),
        64 * words.len() <= usize::MAX,
    ensures
        r == rank_of(words@, 64 * (to as int)) - rank_of(words@, 64 * (from as int)),
{
    let mut r: usize = 0;
    let mut w: usize = from;
    while w < to
        invariant
            from <= w <= to <= words.len(),
            64 * words.len() <= usize::MAX,
            r == rank_of(words@, 64 * (w as int)) - rank_of(words@, 64 * (from as int)),
        decreases to - w,
    {
        proof {
            lemma_rank_word_split(words@, w as int, 64);
            lemma_rank_monotone(words@, 64 * (from as int), 64 * (w as int));
            lemma_rank_bounds(words@, 64 * (w as int));
            lemma_count_word_bounds(words[w as int], 64);
            lemma_rank_bounds(words@, 64 * (from as int));
        }
        r = r + popcount_word(words[w]);
        w = w + 1;
    }
    r
}

} // verus!
