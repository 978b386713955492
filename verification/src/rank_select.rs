//! Bit array with a two-level rank directory and select support.
//!
//! The directory follows the layout of Zhou, Andersen and Kaminsky's
//! rank/select structure: one absolute 64-bit rank entry per L1 block of
//! 2^32 bits, and one packed 64-bit entry per L2 block of 2,048 bits.  An
//! L2 entry stores, relative to the enclosing L1 block, the rank at the
//! block start on 32 bits and the ranks of its three later 512-bit
//! sub-blocks as deltas on 11, 11 and 10 bits; delta fields of sub-blocks
//! that fall outside the bit array are filled with ones.

use vstd::prelude::*;

use crate::bits::{
    count_bits_in, count_word_prefix, lemma_count_word_bounds, lemma_rank_bounds,
    lemma_rank_monotone, lemma_rank_totality, lemma_rank_word_split, rank0_of, rank_of, seq_bit,
};

verus! {

/// Ceiling of `a / b`.
pub open spec fn ceil_div(a: int, b: int) -> int {
    (a + b - 1) / b
}

/// The absolute-rank field of a packed L2 entry (low 32 bits).
pub open spec fn l2_base(e: u64) -> int {
    (e as int) % 0x100000000
}

/// The delta field of a packed L2 entry for sub-block `s` of its L2 block:
/// the rank of the sub-block start relative to the L2 block start.
pub open spec fn l2_delta(e: u64, s: int) -> int {
    if s == 1 {
        (e as int) / 0x40000000000000
    } else if s == 2 {
        ((e as int) / 0x80000000000) % 0x800
    } else if s == 3 {
        ((e as int) / 0x100000000) % 0x800
    } else {
        0
    }
}

/// Packs an L2 entry from its base rank and three sub-block deltas.
fn pack_l2(r0: u64, d1: u64, d2: u64, d3: u64) -> (e: u64)
    requires
        r0 < 0x100000000,
        d1 < 0x400,
        d2 < 0x800,
        d3 < 0x800,
    ensures
        l2_base(e) == r0,
        l2_delta(e, 1) == d1,
        l2_delta(e, 2) == d2,
        l2_delta(e, 3) == d3,
{
    let e = r0 + d3 * 0x100000000 + d2 * 0x80000000000 + d1 * 0x40000000000000;
    proof {
        let q1 = d3 + d2 * 0x800 + d1 * 0x400000;
        assert(e == q1 * 0x100000000 + r0) by (nonlinear_arith)
            requires
                e == r0 + d3 * 0x100000000 + d2 * 0x80000000000 + d1 * 0x40000000000000
                    && q1 == d3 + d2 * 0x800 + d1 * 0x400000;
        vstd::arithmetic::div_mod::lemma_fundamental_div_mod_converse(
            e as int,
            0x100000000,
            q1 as int,
            r0 as int,
        );
        let q2 = d2 + d1 * 0x800;
        vstd::arithmetic::div_mod::lemma_fundamental_div_mod_converse(
            q1 as int,
            0x800,
            q2 as int,
            d3 as int,
        );
        vstd::arithmetic::div_mod::lemma_fundamental_div_mod_converse(
            q2 as int,
            0x800,
            d1 as int,
            d2 as int,
        );
        vstd::arithmetic::div_mod::lemma_div_denominator(e as int, 0x100000000, 0x800);
        vstd::arithmetic::div_mod::lemma_div_denominator(e as int, 0x80000000000, 0x800);
        assert((e as int) / 0x80000000000 == q2);
        assert((e as int) / 0x40000000000000 == d1);
    }
    e
}

/// Reads the delta field of a packed L2 entry for sub-block `s`.
fn l2_delta_at(e: u64, s: usize) -> (d: usize)
    requires
        1 <= s <= 3,
    ensures
        d == l2_delta(e, s as int),
        d <= 0x7FF,
{
    if s == 1 {
        (e / 0x40000000000000) as usize
    } else if s == 2 {
        ((e / 0x80000000000) % 0x800) as usize
    } else {
        ((e / 0x100000000) % 0x800) as usize
    }
}

/// Select acceleration strategy for one bit kind.
#[derive(Clone, Copy, PartialEq, Eq)]
pub enum SelectStrategy {
    /// Binary search over the rank directory; no extra space.
    BinaryRankSearch,
    /// Precomputed L2-block hints for every `SELECT_SAMPLE`-th occurrence.
    CombinedSampling,
}

/// Distance between sampled occurrences of the combined-sampling policy:
/// one 64-bit hint per 16,384 occurrences keeps the sample overhead at or
/// below 0.39% of the bit payload.
pub const SELECT_SAMPLE: usize = 16384;

/// Number of ones (or zeros) in the selected bit kind over the whole array.
pub open spec fn kind_rank_of(words: Seq<u64>, i: int, ones: bool) -> int {
    if ones {
        rank_of(words, i)
    } else {
        rank0_of(words, i)
    }
}

/// Select hints: entry `t` names the L2 block that holds the
/// `t * SELECT_SAMPLE`-th occurrence of the selected bit kind.
pub open spec fn samples_wf_for(
    words: Seq<u64>,
    l2len: int,
    samples: Seq<usize>,
    ones: bool,
) -> bool {
    let n = words.len() as int;
    &&& samples.len() == ceil_div(kind_rank_of(words, 64 * n, ones), SELECT_SAMPLE as int)
    &&& forall|t: int|
        0 <= t < samples.len() ==> {
            let j = #[trigger] samples[t] as int;
            &&& 0 <= j < l2len
            &&& kind_rank_of(words, 2048 * j, ones) <= t * (SELECT_SAMPLE as int) < kind_rank_of(
                words,
                if 2048 * (j + 1) <= 64 * n {
                    2048 * (j + 1)
                } else {
                    64 * n
                },
                ones,
            )
        }
}

/// Bit array with rank directory and two select policies.
///
/// `content` stores the bits (64 per word, least significant first); the
/// array answers queries about bit positions `[0, 64 * content.len())`.
pub struct ArrayWithRankSelect101111 {
    /// The bit payload.
    pub content: Vec<u64>,
    /// One absolute rank per 2^32-bit block: `l1ranks[b]` is the number of
    /// ones before bit `b * 2^32`.
    pub l1ranks: Vec<usize>,
    /// One packed entry per 2,048-bit block; see `l2_base` and `l2_delta`.
    pub l2ranks: Vec<u64>,
    /// Total number of ones in `content`.
    pub total_ones: usize,
    /// L2-block hints for select-one, when combined sampling was chosen.
    pub ones_samples: Option<Vec<usize>>,
    /// L2-block hints for select-zero, when combined sampling was chosen.
    pub zeros_samples: Option<Vec<usize>>,
}

impl ArrayWithRankSelect101111 {
    /// Number of bit positions the array answers queries for.
    pub open spec fn bit_len(&self) -> int {
        64 * self.content@.len() as int
    }

    /// Hint array well-formedness: entry `t` names the L2 block that holds
    /// the `t * SELECT_SAMPLE`-th occurrence of the selected bit kind.
    pub open spec fn samples_wf(&self, samples: Seq<usize>, ones: bool) -> bool {
        samples_wf_for(self.content@, self.l2ranks@.len() as int, samples, ones)
    }

    /// Structural invariant: the directory entries hold the ranks the
    /// layout promises, and the select hints (if present) are correct.
    pub open spec fn wf(&self) -> bool {
        let words = self.content@;
        let n = words.len() as int;
        &&& 64 * n + 65536 <= usize::MAX
        &&& self.l1ranks@.len() == ceil_div(n, 0x4000000)
        &&& self.l2ranks@.len() == ceil_div(n, 32)
        &&& forall|b: int|
            0 <= b < self.l1ranks@.len() ==> #[trigger] self.l1ranks@[b] == rank_of(
                words,
                b * 0x100000000,
            )
        &&& forall|j: int|
            0 <= j < self.l2ranks@.len() ==> l2_base(#[trigger] self.l2ranks@[j]) == rank_of(
                words,
                2048 * j,
            ) - rank_of(words, (j / 0x200000) * 0x100000000)
        &&& forall|j: int, s: int|
            0 <= j < self.l2ranks@.len() && 1 <= s <= 3 && 32 * j + 8 * s < n ==> #[trigger] l2_delta(
                self.l2ranks@[j],
                s,
            ) == rank_of(words, 2048 * j + 512 * s) - rank_of(words, 2048 * j)
        &&& forall|j: int, s: int|
            0 <= j < self.l2ranks@.len() && 1 <= s <= 3 && 32 * j + 8 * s >= n ==> #[trigger] l2_delta(
                self.l2ranks@[j],
                s,
            ) == (if s == 1 {
                0x3FFint
            } else {
                0x7FFint
            })
        &&& self.total_ones == rank_of(words, 64 * n)
        &&& match self.ones_samples {
            Some(samples) => self.samples_wf(samples@, true),
            None => true,
        }
        &&& match self.zeros_samples {
            Some(samples) => self.samples_wf(samples@, false),
            None => true,
        }
    }

    /// Heap bytes held by the payload, the directory and the select
    /// hints.
    pub open spec fn dyn_bytes(&self) -> int {
        8 * (self.content@.len() + self.l1ranks@.len() + self.l2ranks@.len() + (
        match self.ones_samples {
            Some(s) => s@.len() as int,
            None => 0,
        }) + (match self.zeros_samples {
            Some(s) => s@.len() as int,
            None => 0,
        }))
    }

    /// Returns the number of heap bytes the structure holds.
    pub fn size_bytes_dyn(&self) -> (r: usize)
        requires
            self.wf(),
        ensures
            r == self.dyn_bytes(),
    {
        proof {
            self.lemma_dyn_bytes_fit();
        }
        let samples = match &self.ones_samples {
            Some(s) => s.len(),
            None => 0,
        } + match &self.zeros_samples {
            Some(s) => s.len(),
            None => 0,
        };
        8 * (self.content.len() + self.l1ranks.len() + self.l2ranks.len() + samples)
    }

    /// The directory and the hints are small next to the payload, so the
    /// byte count fits the machine word.
    pub proof fn lemma_dyn_bytes_fit(&self)
        requires
            self.wf(),
        ensures
            0 <= self.dyn_bytes() <= usize::MAX,
            self.dyn_bytes() <= 32 * self.content@.len() + 32,
            self.l1ranks@.len() + self.l2ranks@.len() <= self.content@.len() + 2,
            (match self.ones_samples {
                Some(s) => s@.len() as int,
                None => 0,
            }) <= self.content@.len() + 1,
            (match self.zeros_samples {
                Some(s) => s@.len() as int,
                None => 0,
            }) <= self.content@.len() + 1,
    {
        let words = self.content@;
        let n = words.len() as int;
        assert(ceil_div(n, 0x4000000) + ceil_div(n, 32) <= n + 2) by (nonlinear_arith)
            requires n >= 0;
        lemma_rank_bounds(words, 64 * n);
        lemma_rank_totality(words, 64 * n);
        assert(ceil_div(rank_of(words, 64 * n), SELECT_SAMPLE as int) <= n + 1)
            by (nonlinear_arith)
            requires 0 <= rank_of(words, 64 * n) <= 64 * n && SELECT_SAMPLE == 16384;
        assert(ceil_div(rank0_of(words, 64 * n), SELECT_SAMPLE as int) <= n + 1)
            by (nonlinear_arith)
            requires 0 <= rank0_of(words, 64 * n) <= 64 * n && SELECT_SAMPLE == 16384;
    }

    /// Number of ones in the whole array.
    pub fn count_ones(&self) -> (r: usize)
        requires
            self.wf(),
        ensures
            r == rank_of(self.content@, self.bit_len()),
    {
        self.total_ones
    }

    /// Returns the number of ones in the first `index` bits, or `None` if
    /// `index` reaches past the bit array.
    pub fn try_rank(&self, index: usize) -> (r: Option<usize>)
        requires
            self.wf(),
        ensures
            match r {
                Some(c) => index < self.bit_len() && c == rank_of(self.content@, index as int),
                None => index >= self.bit_len(),
            },
    {
        let word_idx = index / 64;
        if word_idx >= self.content.len() {
            proof {
                assert(index >= self.bit_len()) by (nonlinear_arith)
                    requires
                        index / 64 >= self.content@.len() && self.bit_len() == 64
                            * self.content@.len() && index >= 0;
            }
            return None;
        }
        proof {
            assert(index < self.bit_len()) by (nonlinear_arith)
                requires
                    index / 64 < self.content@.len() && self.bit_len() == 64
                        * self.content@.len() && index >= 0;
        }
        Some(self.rank(index))
    }

    /// Returns the number of ones in the first `index` bits.
    pub fn rank(&self, index: usize) -> (r: usize)
        requires
            self.wf(),
            index < self.bit_len(),
        ensures
            r == rank_of(self.content@, index as int),
    {
        let ghost words = self.content@;
        let ghost n = words.len() as int;
        let word_idx = index / 64;
        let block = index / 512;
        let l2i = index / 2048;
        let l1i = ((index as u64) / 0x100000000) as usize;
        proof {
            lemma_rank_index_arithmetic(n, index as int);
        }
        let e = self.l2ranks[l2i];
        let s = block % 4;
        proof {
            // The sub-block that contains `index` starts inside the bit
            // array, so its delta field is a real rank difference, and all
            // partial sums below are ranks of prefixes, hence bounded.
            lemma_rank_monotone(words, 2048 * (l2i as int), 2048 * (l2i as int) + 512 * (s as int));
            lemma_rank_monotone(
                words,
                (l2i as int / 0x200000) * 0x100000000,
                2048 * (l2i as int),
            );
            lemma_rank_bounds(words, (l2i as int / 0x200000) * 0x100000000);
            lemma_rank_bounds(words, 64 * n);
            lemma_rank_monotone(words, 2048 * (l2i as int) + 512 * (s as int), 64 * n);
        }
        let base = self.l1ranks[l1i] + ((e % 0x100000000) as usize);
        let delta: usize = if s == 0 {
            0
        } else if s == 1 {
            (e / 0x40000000000000) as usize
        } else if s == 2 {
            ((e / 0x80000000000) % 0x800) as usize
        } else {
            ((e / 0x100000000) % 0x800) as usize
        };
        let mut r = base + delta;
        proof {
            assert(delta == l2_delta(e, s as int));
            assert(base == self.l1ranks@[l1i as int] + l2_base(e));
            assert(l1i as int == (l2i as int) / 0x200000);
            assert(self.l1ranks@[l1i as int] == rank_of(words, (l1i as int) * 0x100000000));
            assert(l2_base(e) == rank_of(words, 2048 * (l2i as int)) - rank_of(
                words,
                ((l2i as int) / 0x200000) * 0x100000000,
            ));
            if s != 0 {
                assert(32 * (l2i as int) + 8 * (s as int) < n);
                assert(l2_delta(e, s as int) == rank_of(words, 2048 * (l2i as int) + 512 * (
                s as int)) - rank_of(words, 2048 * (l2i as int)));
            }
            assert(r == rank_of(words, 2048 * (l2i as int) + 512 * (s as int)));
            lemma_rank_monotone(words, 2048 * (l2i as int) + 512 * (s as int), 64 * (
            word_idx as int));
            lemma_rank_monotone(words, 64 * (word_idx as int), 64 * n);
        }
        r = r + count_bits_in(&self.content, block * 8, word_idx);
        proof {
            lemma_rank_word_split(words, word_idx as int, (index % 64) as int);
            lemma_count_word_bounds(words[word_idx as int], (index % 64) as int);
            lemma_rank_monotone(words, 64 * (word_idx as int) + (index % 64) as int, 64 * n);
            assert(index as int == 64 * (word_idx as int) + (index % 64) as int);
        }
        r + count_word_prefix(self.content[word_idx], index % 64)
    }

    /// Returns the number of zeros in the first `index` bits, or `None` if
    /// `index` reaches past the bit array.
    pub fn try_rank0(&self, index: usize) -> (r: Option<usize>)
        requires
            self.wf(),
        ensures
            match r {
                Some(c) => index < self.bit_len() && c == rank0_of(self.content@, index as int),
                None => index >= self.bit_len(),
            },
    {
        match self.try_rank(index) {
            Some(c) => {
                proof {
                    lemma_rank_totality(self.content@, index as int);
                    lemma_rank_bounds(self.content@, index as int);
                }
                Some(index - c)
            },
            None => None,
        }
    }

    /// Returns the number of zeros in the first `index` bits.
    pub fn rank0(&self, index: usize) -> (r: usize)
        requires
            self.wf(),
            index < self.bit_len(),
        ensures
            r == rank0_of(self.content@, index as int),
    {
        proof {
            lemma_rank_totality(self.content@, index as int);
            lemma_rank_bounds(self.content@, index as int);
        }
        index - self.rank(index)
    }
}

/// Ceiling of `a / b` on machine integers.
pub fn ceiling_div(a: usize, b: usize) -> (r: usize)
    requires
        b > 0,
        a + b <= usize::MAX,
    ensures
        r == ceil_div(a as int, b as int),
{
    (a + b - 1) / b
}

/// Ceiling divisions by 32 and then by 2^21 compose to a ceiling division
/// by 2^26, the number of words in an L1 block.
proof fn lemma_ceil_div_nested(n: int)
    requires
        n >= 0,
    ensures
        ceil_div(ceil_div(n, 32), 0x200000) == ceil_div(n, 0x4000000),
{
    vstd::arithmetic::div_mod::lemma_hoist_over_denominator(n + 31, 0x1FFFFF, 32);
    vstd::arithmetic::div_mod::lemma_div_denominator(n + 31 + 32 * 0x1FFFFF, 32, 0x200000);
}

/// Block arithmetic used while building the directory: the position of L2
/// block `j` relative to its L1 block, and how the directory lengths grow.
proof fn lemma_build_block_arith(ni: int, j: int, l2len: int)
    requires
        ni >= 0,
        0 <= j < l2len,
        l2len == ceil_div(ni, 32),
    ensures
        32 * j < ni,
        64 * (32 * j) == 2048 * j,
        0 <= (j / 0x200000) * 0x100000000 <= 2048 * j,
        2048 * j - (j / 0x200000) * 0x100000000 <= 0x100000000 - 2048,
        j % 0x200000 == 0 ==> ceil_div(j, 0x200000) == j / 0x200000,
        j % 0x200000 == 0 ==> 2048 * j == (j / 0x200000) * 0x100000000,
        ceil_div(j + 1, 0x200000) == (if j % 0x200000 == 0 {
            j / 0x200000 + 1
        } else {
            ceil_div(j, 0x200000)
        }),
{
    vstd::arithmetic::div_mod::lemma_fundamental_div_mod(j, 0x200000);
    let q = j / 0x200000;
    let r = j % 0x200000;
    assert(32 * j < ni) by (nonlinear_arith)
        requires 0 <= j < l2len && l2len == ceil_div(ni, 32) && ni >= 0;
    assert(0 <= q * 0x100000000 <= 2048 * j && 2048 * j - q * 0x100000000 <= 0x100000000 - 2048)
        by (nonlinear_arith)
        requires j == q * 0x200000 + r && 0 <= r < 0x200000 && q >= 0;
    assert(j % 0x200000 == 0 ==> 2048 * j == q * 0x100000000) by (nonlinear_arith)
        requires j == q * 0x200000 + r && 0 <= r < 0x200000;
    assert(ceil_div(j, 0x200000) == (if r == 0 { q } else { q + 1 })) by (nonlinear_arith)
        requires j == q * 0x200000 + r && 0 <= r < 0x200000;
    assert(ceil_div(j + 1, 0x200000) == (if r == 0 { q + 1 } else { ceil_div(j, 0x200000) }))
        by (nonlinear_arith)
        requires j == q * 0x200000 + r && 0 <= r < 0x200000 && ceil_div(j, 0x200000) == (if r == 0 { q } else { q + 1 });
}

impl ArrayWithRankSelect101111 {
    /// Builds the rank directory over `content` with the requested select
    /// policies and also returns the total number of ones.
    #[verifier::rlimit(60)]
    pub fn build_with_policies(
        content: Vec<u64>,
        ones_strategy: SelectStrategy,
        zeros_strategy: SelectStrategy,
    ) -> (r: (Self, usize))
        requires
            64 * content.len() + 65536 <= usize::MAX,
        ensures
            r.0.wf(),
            r.0.content@ == content@,
            r.1 == rank_of(content@, 64 * content@.len() as int),
    {
        let ghost words = content@;
        let n = content.len();
        let ghost ni = n as int;
        let l2len = ceiling_div(n, 32);
        let mut l1ranks: Vec<usize> = Vec::new();
        let mut l2ranks: Vec<u64> = Vec::new();
        let mut rank_total: usize = 0;
        let mut j: usize = 0;
        proof {
            lemma_rank_bounds(words, 64 * ni);
        }
        while j < l2len
            invariant
                ni == words.len(),
                content@ == words,
                n == ni,
                64 * ni + 65536 <= usize::MAX,
                l2len == ceil_div(ni, 32),
                j <= l2len,
                l2ranks@.len() == j,
                l1ranks@.len() == ceil_div(j as int, 0x200000),
                forall|b: int|
                    0 <= b < l1ranks@.len() ==> #[trigger] l1ranks@[b] == rank_of(
                        words,
                        b * 0x100000000,
                    ),
                forall|j2: int|
                    0 <= j2 < j ==> l2_base(#[trigger] l2ranks@[j2]) == rank_of(words, 2048 * j2)
                        - rank_of(words, (j2 / 0x200000) * 0x100000000),
                forall|j2: int, s: int|
                    0 <= j2 < j && 1 <= s <= 3 && 32 * j2 + 8 * s < ni ==> #[trigger] l2_delta(
                        l2ranks@[j2],
                        s,
                    ) == rank_of(words, 2048 * j2 + 512 * s) - rank_of(words, 2048 * j2),
                forall|j2: int, s: int|
                    0 <= j2 < j && 1 <= s <= 3 && 32 * j2 + 8 * s >= ni ==> #[trigger] l2_delta(
                        l2ranks@[j2],
                        s,
                    ) == (if s == 1 {
                        0x3FFint
                    } else {
                        0x7FFint
                    }),
                rank_total == rank_of(
                    words,
                    64 * (if 32 * (j as int) <= ni {
                        32 * (j as int)
                    } else {
                        ni
                    }),
                ),
            decreases l2len - j,
        {
            let w0 = 32 * j;
            proof {
                lemma_build_block_arith(ni, j as int, l2len as int);
            }
            if j % 0x200000 == 0 {
                l1ranks.push(rank_total);
            }
            proof {
                assert(l1ranks@.len() == (j as int) / 0x200000 + 1);
            }
            let e1 = if w0 + 8 < n {
                w0 + 8
            } else {
                n
            };
            let e2 = if w0 + 16 < n {
                w0 + 16
            } else {
                n
            };
            let e3 = if w0 + 24 < n {
                w0 + 24
            } else {
                n
            };
            let e4 = if w0 + 32 < n {
                w0 + 32
            } else {
                n
            };
            proof {
                lemma_rank_monotone(words, 64 * (w0 as int), 64 * (e1 as int));
                lemma_rank_monotone(words, 64 * (e1 as int), 64 * (e2 as int));
                lemma_rank_monotone(words, 64 * (e2 as int), 64 * (e3 as int));
                lemma_rank_monotone(words, 64 * (e3 as int), 64 * (e4 as int));
                lemma_rank_monotone(words, 64 * (e4 as int), 64 * ni);
                lemma_rank_bounds(words, 64 * (w0 as int));
                lemma_rank_monotone(words, ((j as int) / 0x200000) * 0x100000000, 64 * (w0 as int));
                lemma_rank_bounds(words, ((j as int) / 0x200000) * 0x100000000);
            }
            let c1 = count_bits_in(&content, w0, e1);
            let c2 = c1 + count_bits_in(&content, e1, e2);
            let c3 = c2 + count_bits_in(&content, e2, e3);
            let c4 = c3 + count_bits_in(&content, e3, e4);
            let l1_last = l1ranks[l1ranks.len() - 1];
            proof {
                assert(l1ranks@[(j as int) / 0x200000] == rank_of(
                    words,
                    ((j as int) / 0x200000) * 0x100000000,
                ));
            }
            let base = rank_total - l1_last;
            let d1 = if w0 + 8 < n {
                c1
            } else {
                0x3FF
            };
            let d2 = if w0 + 16 < n {
                c2
            } else {
                0x7FF
            };
            let d3 = if w0 + 24 < n {
                c3
            } else {
                0x7FF
            };
            let e = pack_l2(base as u64, d1 as u64, d2 as u64, d3 as u64);
            l2ranks.push(e);
            proof {
                assert(64 * (e1 as int) == (if 2048 * (j as int) + 512 <= 64 * ni {
                    2048 * (j as int) + 512
                } else {
                    64 * ni
                }) && 64 * (e2 as int) == (if 2048 * (j as int) + 1024 <= 64 * ni {
                    2048 * (j as int) + 1024
                } else {
                    64 * ni
                }) && 64 * (e3 as int) == (if 2048 * (j as int) + 1536 <= 64 * ni {
                    2048 * (j as int) + 1536
                } else {
                    64 * ni
                }) && 64 * (e4 as int) == (if 2048 * (j as int) + 2048 <= 64 * ni {
                    2048 * (j as int) + 2048
                } else {
                    64 * ni
                })) by (nonlinear_arith)
                    requires
                        w0 == 32 * (j as int) && ni >= 0 && j >= 0 && e1 == (if w0 + 8 < ni {
                            w0 + 8int
                        } else {
                            ni
                        }) && e2 == (if w0 + 16 < ni {
                            w0 + 16int
                        } else {
                            ni
                        }) && e3 == (if w0 + 24 < ni {
                            w0 + 24int
                        } else {
                            ni
                        }) && e4 == (if w0 + 32 < ni {
                            w0 + 32int
                        } else {
                            ni
                        });
                assert(ceil_div((j + 1) as int, 0x200000) == (j as int) / 0x200000 + 1)
                    by (nonlinear_arith)
                    requires
                        j >= 0;
            }
            rank_total = rank_total + c4;
            j = j + 1;
        }
        proof {
            lemma_ceil_div_nested(ni);
            assert(32 * (l2len as int) >= ni) by (nonlinear_arith)
                requires
                    l2len == ceil_div(ni, 32) && ni >= 0;
            if 32 * (l2len as int) > ni {
                lemma_rank_monotone(words, 64 * ni, 64 * ni);
            }
            assert(rank_total == rank_of(words, 64 * ni));
        }
        let ones_samples: Option<Vec<usize>> = match ones_strategy {
            SelectStrategy::BinaryRankSearch => None,
            SelectStrategy::CombinedSampling => Some(
                build_select_samples(&content, l2len, true),
            ),
        };
        let zeros_samples: Option<Vec<usize>> = match zeros_strategy {
            SelectStrategy::BinaryRankSearch => None,
            SelectStrategy::CombinedSampling => Some(
                build_select_samples(&content, l2len, false),
            ),
        };
        let result = ArrayWithRankSelect101111 {
            content,
            l1ranks,
            l2ranks,
            total_ones: rank_total,
            ones_samples,
            zeros_samples,
        };
        (result, rank_total)
    }

    /// Builds the rank directory over `content` with binary-search select
    /// for both bit kinds and also returns the total number of ones.
    pub fn build(content: Vec<u64>) -> (r: (Self, usize))
        requires
            64 * content.len() + 65536 <= usize::MAX,
        ensures
            r.0.wf(),
            r.0.content@ == content@,
            r.1 == rank_of(content@, 64 * content@.len() as int),
    {
        Self::build_with_policies(
            content,
            SelectStrategy::BinaryRankSearch,
            SelectStrategy::BinaryRankSearch,
        )
    }
}

/// Builds the select hint array for one bit kind: one entry per
/// `SELECT_SAMPLE` occurrences, naming the L2 block of the sampled
/// occurrence.
fn build_select_samples(content: &Vec<u64>, l2len: usize, ones: bool) -> (samples: Vec<usize>)
    requires
        64 * content.len() + 65536 <= usize::MAX,
        l2len == ceil_div(content.len() as int, 32),
    ensures
        samples_wf_for(content@, l2len as int, samples@, ones),
{
    let ghost words = content@;
    let ghost ni = words.len() as int;
    let ghost total = kind_rank_of(words, 64 * ni, ones);
    let ghost target = ceil_div(total, SELECT_SAMPLE as int);
    let mut samples: Vec<usize> = Vec::new();
    let mut t: usize = 0;
    let mut r: usize = 0;
    let mut j: usize = 0;
    proof {
        lemma_rank_bounds(words, 64 * ni);
        lemma_rank_totality(words, 64 * ni);
        vstd::arithmetic::div_mod::lemma_fundamental_div_mod(total + 16383, 16384);
    }
    while j < l2len
        invariant
            ni == words.len(),
            content@ == words,
            64 * ni + 65536 <= usize::MAX,
            l2len == ceil_div(ni, 32),
            j <= l2len,
            total == kind_rank_of(words, 64 * ni, ones),
            target == ceil_div(total, SELECT_SAMPLE as int),
            total <= target * (SELECT_SAMPLE as int) < total + SELECT_SAMPLE,
            0 <= total <= 64 * ni,
            r == kind_rank_of(
                words,
                64 * (if 32 * (j as int) <= ni {
                    32 * (j as int)
                } else {
                    ni
                }),
                ones,
            ),
            samples@.len() == t,
            t <= target,
            (t as int) * (SELECT_SAMPLE as int) >= r,
            forall|t2: int|
                0 <= t2 < t ==> {
                    let jj = #[trigger] samples@[t2] as int;
                    &&& 0 <= jj < l2len
                    &&& kind_rank_of(words, 2048 * jj, ones) <= t2 * (SELECT_SAMPLE as int)
                        < kind_rank_of(
                        words,
                        if 2048 * (jj + 1) <= 64 * ni {
                            2048 * (jj + 1)
                        } else {
                            64 * ni
                        },
                        ones,
                    )
                },
        decreases l2len - j,
    {
        let w0 = 32 * j;
        proof {
            assert(32 * (j as int) < ni) by (nonlinear_arith)
                requires 0 <= j < l2len && l2len == ceil_div(ni, 32) && ni >= 0;
        }
        let e4 = if w0 + 32 < content.len() {
            w0 + 32
        } else {
            content.len()
        };
        proof {
            lemma_rank_monotone(words, 64 * (w0 as int), 64 * (e4 as int));
            lemma_rank_monotone(words, 64 * (e4 as int), 64 * ni);
            lemma_rank_bounds(words, 64 * (w0 as int));
            lemma_rank_totality(words, 64 * (w0 as int));
            lemma_rank_totality(words, 64 * (e4 as int));
            assert(64 * (w0 as int) == 2048 * (j as int)) by (nonlinear_arith)
                requires w0 == 32 * (j as int);
            assert(64 * (e4 as int) == (if 2048 * ((j as int) + 1) <= 64 * ni {
                2048 * ((j as int) + 1)
            } else {
                64 * ni
            })) by (nonlinear_arith)
                requires
                    w0 == 32 * (j as int) && ni >= 0 && e4 == (if w0 + 32 < ni {
                        w0 + 32int
                    } else {
                        ni
                    });
        }
        let c_ones = count_bits_in(content, w0, e4);
        let c = if ones {
            c_ones
        } else {
            64 * (e4 - w0) - c_ones
        };
        proof {
            assert(c == kind_rank_of(words, 64 * (e4 as int), ones) - r);
        }
        while t * SELECT_SAMPLE < r + c
            invariant
                ni == words.len(),
                0 <= j < l2len,
                total == kind_rank_of(words, 64 * ni, ones),
                target == ceil_div(total, SELECT_SAMPLE as int),
                total <= target * (SELECT_SAMPLE as int) < total + SELECT_SAMPLE,
                0 <= total <= 64 * ni,
                64 * ni + 65536 <= usize::MAX,
                r == kind_rank_of(words, 2048 * (j as int), ones),
                r + c == kind_rank_of(
                    words,
                    if 2048 * ((j as int) + 1) <= 64 * ni {
                        2048 * ((j as int) + 1)
                    } else {
                        64 * ni
                    },
                    ones,
                ),
                r + c <= total,
                samples@.len() == t,
                t <= target,
                (t as int) * (SELECT_SAMPLE as int) >= r,
                forall|t2: int|
                    0 <= t2 < t ==> {
                        let jj = #[trigger] samples@[t2] as int;
                        &&& 0 <= jj < l2len
                        &&& kind_rank_of(words, 2048 * jj, ones) <= t2 * (SELECT_SAMPLE as int)
                            < kind_rank_of(
                            words,
                            if 2048 * (jj + 1) <= 64 * ni {
                                2048 * (jj + 1)
                            } else {
                                64 * ni
                            },
                            ones,
                        )
                    },
            decreases target - t,
        {
            samples.push(j);
            proof {
                assert((t as int) < target && ((t + 1) as int) * (SELECT_SAMPLE as int) >= r)
                    by (nonlinear_arith)
                    requires
                        (t as int) * (SELECT_SAMPLE as int) < r + c && r + c <= total && total
                            <= target * (SELECT_SAMPLE as int) && SELECT_SAMPLE == 16384 && t >= 0
                            && r >= 0 && (t as int) * (SELECT_SAMPLE as int) >= r;
            }
            t = t + 1;
        }
        r = r + c;
        j = j + 1;
    }
    proof {
        assert(32 * (l2len as int) >= ni) by (nonlinear_arith)
            requires l2len == ceil_div(ni, 32) && ni >= 0;
        assert(t == target) by (nonlinear_arith)
            requires
                (t as int) * (SELECT_SAMPLE as int) >= total && t <= target && target * (
                SELECT_SAMPLE as int) < total + SELECT_SAMPLE && SELECT_SAMPLE == 16384 && total
                    >= 0 && t >= 0;
    }
    samples
}

/// Index bounds used by the select searches: each L2 block lies in an L1
/// entry that exists, and covers bits inside the array.
proof fn lemma_l2_index_arith(ni: int, j: int)
    requires
        ni >= 0,
        0 <= j < ceil_div(ni, 32),
    ensures
        0 <= j / 0x200000 < ceil_div(ni, 0x4000000),
        (j / 0x200000) * 0x100000000 <= 2048 * j,
        2048 * j < 64 * ni,
        2048 * (j + 1) <= 64 * ni + 2048,
{
    lemma_ceil_div_nested(ni);
    assert(j / 0x200000 < ceil_div(ceil_div(ni, 32), 0x200000)) by (nonlinear_arith)
        requires 0 <= j < ceil_div(ni, 32);
    assert((j / 0x200000) * 0x100000000 <= 2048 * j) by (nonlinear_arith)
        requires j >= 0;
    assert(2048 * j < 64 * ni && 2048 * (j + 1) <= 64 * ni + 2048) by (nonlinear_arith)
        requires 0 <= j < ceil_div(ni, 32) && ni >= 0;
}

impl ArrayWithRankSelect101111 {
    /// Rank at the start of L2 block `j`, read from the directory.
    fn l2_rank_at(&self, j: usize) -> (r: usize)
        requires
            self.wf(),
            j < self.l2ranks@.len(),
        ensures
            r == rank_of(self.content@, 2048 * j as int),
    {
        let ghost words = self.content@;
        let ghost ni = words.len() as int;
        proof {
            lemma_l2_index_arith(ni, j as int);
            lemma_rank_bounds(words, (j as int / 0x200000) * 0x100000000);
            lemma_rank_monotone(words, (j as int / 0x200000) * 0x100000000, 2048 * (j as int));
            lemma_rank_bounds(words, 2048 * (j as int));
        }
        let l1i = ((j as u64) / 0x200000) as usize;
        self.l1ranks[l1i] + ((self.l2ranks[j] % 0x100000000) as usize)
    }

    /// Zero-rank at the start of L2 block `j`.
    fn l2_rank0_at(&self, j: usize) -> (r: usize)
        requires
            self.wf(),
            j < self.l2ranks@.len(),
        ensures
            r == rank0_of(self.content@, 2048 * j as int),
    {
        let ghost words = self.content@;
        proof {
            lemma_l2_index_arith(words.len() as int, j as int);
            lemma_rank_totality(words, 2048 * (j as int));
            lemma_rank_bounds(words, 2048 * (j as int));
        }
        2048 * j - self.l2_rank_at(j)
    }

    /// Rank at the start of L2 block `j` of the requested bit kind.
    fn l2_kind_rank_at(&self, j: usize, ones: bool) -> (r: usize)
        requires
            self.wf(),
            j < self.l2ranks@.len(),
        ensures
            r == kind_rank_of(self.content@, 2048 * j as int, ones),
    {
        if ones {
            self.l2_rank_at(j)
        } else {
            self.l2_rank0_at(j)
        }
    }

    /// Position of the `k`-th set bit, or `None` if fewer than `k + 1`
    /// bits are set.
    pub fn try_select(&self, k: usize) -> (r: Option<usize>)
        requires
            self.wf(),
        ensures
            match r {
                Some(p) => p < self.bit_len() && seq_bit(self.content@, p as int) && rank_of(
                    self.content@,
                    p as int,
                ) == k,
                None => k >= rank_of(self.content@, self.bit_len()),
            },
    {
        let ghost words = self.content@;
        let ghost ni = words.len() as int;
        if k >= self.total_ones {
            return None;
        }
        proof {
            crate::bits::lemma_select_exists(words, k as int, 64 * ni);
        }
        let ghost p = choose|p: int|
            0 <= p < 64 * ni && #[trigger] seq_bit(words, p) && rank_of(words, p) == k;
        let j = self.select_block(k, true, Ghost(p));
        self.select_scan(k, j, true, Ghost(p))
    }

    /// Position of the `k`-th set bit; `k` must be below the total count.
    pub fn select(&self, k: usize) -> (r: usize)
        requires
            self.wf(),
            k < rank_of(self.content@, self.bit_len()),
        ensures
            r < self.bit_len(),
            seq_bit(self.content@, r as int),
            rank_of(self.content@, r as int) == k,
    {
        match self.try_select(k) {
            Some(p) => p,
            None => {
                proof {
                    assert(false);
                }
                0
            },
        }
    }

    /// Position of the `k`-th clear bit, or `None` if fewer than `k + 1`
    /// bits are clear.
    pub fn try_select0(&self, k: usize) -> (r: Option<usize>)
        requires
            self.wf(),
        ensures
            match r {
                Some(p) => p < self.bit_len() && !seq_bit(self.content@, p as int) && rank0_of(
                    self.content@,
                    p as int,
                ) == k,
                None => k >= rank0_of(self.content@, self.bit_len()),
            },
    {
        let ghost words = self.content@;
        let ghost ni = words.len() as int;
        proof {
            lemma_rank_totality(words, 64 * ni);
            lemma_rank_bounds(words, 64 * ni);
        }
        let total0 = 64 * self.content.len() - self.total_ones;
        if k >= total0 {
            return None;
        }
        proof {
            crate::bits::lemma_select0_exists(words, k as int, 64 * ni);
        }
        let ghost p = choose|p: int|
            0 <= p < 64 * ni && !#[trigger] seq_bit(words, p) && rank0_of(words, p) == k;
        let j = self.select_block(k, false, Ghost(p));
        self.select_scan(k, j, false, Ghost(p))
    }

    /// Position of the `k`-th clear bit; `k` must be below the total count
    /// of zeros.
    pub fn select0(&self, k: usize) -> (r: usize)
        requires
            self.wf(),
            k < rank0_of(self.content@, self.bit_len()),
    ensures
            r < self.bit_len(),
            !seq_bit(self.content@, r as int),
            rank0_of(self.content@, r as int) == k,
    {
        match self.try_select0(k) {
            Some(p) => p,
            None => {
                proof {
                    assert(false);
                }
                0
            },
        }
    }

    /// Locates the L2 block containing the `k`-th occurrence `p` of the
    /// requested bit kind: a sampled hint bounds the search range from
    /// below when present, a binary search over the L1 entries narrows it
    /// to one L1 block, and a binary search over the L2 entries finishes.
    fn select_block(&self, k: usize, ones: bool, Ghost(p): Ghost<int>) -> (j: usize)
        requires
            self.wf(),
            0 <= p < self.bit_len(),
            seq_bit(self.content@, p) == ones,
            kind_rank_of(self.content@, p, ones) == k,
        ensures
            j < self.l2ranks@.len(),
            2048 * j <= p < 2048 * (j + 1),
    {
        let ghost words = self.content@;
        let ghost ni = words.len() as int;
        let l2len = self.l2ranks.len();
        proof {
            lemma_select_window(words, p, k as int, ones, 0, l2len as int);
            assert(l2len >= 1 && 64 * ni <= 2048 * (l2len as int)) by (nonlinear_arith)
                requires l2len == ceil_div(ni, 32) && ni >= 0 && p < 64 * ni && p >= 0;
        }
        let mut lo: usize = 0;
        let mut hi: usize = l2len;
        // Sampled lower hint: the k-th occurrence cannot lie in a block
        // before the one that holds the last sampled occurrence at or
        // below k.
        let samples_ref = if ones {
            &self.ones_samples
        } else {
            &self.zeros_samples
        };
        match samples_ref {
            Some(samples) => {
                let t = k / SELECT_SAMPLE;
                proof {
                    assert(kind_rank_of(words, p + 1, ones) == k + 1);
                    lemma_rank_monotone(words, p + 1, 64 * ni);
                    lemma_rank_totality(words, 64 * ni);
                    assert(k < kind_rank_of(words, 64 * ni, ones));
                    assert((t as int) < samples@.len() && (t as int) * (SELECT_SAMPLE as int)
                        <= k as int) by (nonlinear_arith)
                        requires
                            t == (k as int) / (SELECT_SAMPLE as int) && 0 <= (k as int)
                                < kind_rank_of(words, 64 * ni, ones) && samples@.len() == ceil_div(
                                kind_rank_of(words, 64 * ni, ones),
                                SELECT_SAMPLE as int,
                            ) && SELECT_SAMPLE == 16384;
                }
                let j0 = samples[t];
                proof {
                    lemma_select_window(words, p, k as int, ones, j0 as int, l2len as int);
                }
                lo = j0;
            },
            None => {},
        }
        // L1 narrowing by binary search for the greatest entry at or
        // below k.
        let l1len = self.l1ranks.len();
        proof {
            assert(l1len >= 1) by (nonlinear_arith)
                requires l1len == ceil_div(ni, 0x4000000) && ni >= 1;
            assert(ni >= 1) by (nonlinear_arith)
                requires 0 <= p < 64 * ni;
        }
        let mut b: usize = 0;
        let mut bhi: usize = l1len;
        while bhi - b > 1
            invariant
                self.wf(),
                words == self.content@,
                ni == words.len(),
                0 <= p < 64 * ni,
                seq_bit(words, p) == ones,
                kind_rank_of(words, p, ones) == k,
                b < bhi <= l1len,
                l1len == self.l1ranks@.len(),
                (b as int) * 0x100000000 <= p,
                p < (bhi as int) * 0x100000000 || bhi == l1len,
            decreases bhi - b,
        {
            let mid = b + (bhi - b) / 2;
            let v = if ones {
                self.l1ranks[mid]
            } else {
                proof {
                    lemma_l1_zero_value(words, ni, mid as int, l1len as int);
                }
                (((mid as u64) * 0x100000000) - (self.l1ranks[mid] as u64)) as usize
            };
            proof {
                lemma_l1_zero_value(words, ni, mid as int, l1len as int);
                assert(v == kind_rank_of(words, (mid as int) * 0x100000000, ones));
            }
            if v <= k {
                proof {
                    lemma_select_pos_ge(words, p, k as int, ones, (mid as int) * 0x100000000);
                }
                b = mid;
            } else {
                proof {
                    lemma_select_pos_lt(words, p, k as int, ones, (mid as int) * 0x100000000);
                }
                bhi = mid;
            }
        }
        proof {
            lemma_l1_block_of_p(ni, p, b as int, bhi as int, l1len as int, l2len as int);
        }
        let lob = b * 0x200000;
        if lob > lo {
            lo = lob;
        }
        if bhi < l1len {
            let hib = bhi * 0x200000;
            if hib < hi {
                hi = hib;
            }
        }
        // Binary search over the L2 entries of the remaining window.
        proof {
            assert(2048 * (lo as int) <= p < 2048 * (hi as int));
            assert(lo < hi);
        }
        while hi - lo > 1
            invariant
                self.wf(),
                words == self.content@,
                ni == words.len(),
                0 <= p < 64 * ni,
                seq_bit(words, p) == ones,
                kind_rank_of(words, p, ones) == k,
                lo < hi <= l2len,
                l2len == self.l2ranks@.len(),
                2048 * (lo as int) <= p < 2048 * (hi as int),
            decreases hi - lo,
        {
            let mid = lo + (hi - lo) / 2;
            let v = self.l2_kind_rank_at(mid, ones);
            if v <= k {
                proof {
                    lemma_select_pos_ge(words, p, k as int, ones, 2048 * (mid as int));
                }
                lo = mid;
            } else {
                proof {
                    lemma_select_pos_lt(words, p, k as int, ones, 2048 * (mid as int));
                }
                hi = mid;
            }
        }
        lo
    }

    /// Picks the 512-bit sub-block of L2 block `j` that holds the `k`-th
    /// occurrence `p`, from the packed delta fields: the last of the four
    /// candidates whose start rank does not exceed `k`.  The all-ones
    /// fill of a delta field whose sub-block lies outside the bit array
    /// exceeds every rank the block can reach, so such a field is never
    /// chosen.
    fn select_sub_block(&self, k: usize, j: usize, ones: bool, Ghost(p): Ghost<int>) -> (wr: (
        usize,
        usize,
    ))
        requires
            self.wf(),
            j < self.l2ranks@.len(),
            0 <= p < self.bit_len(),
            seq_bit(self.content@, p) == ones,
            kind_rank_of(self.content@, p, ones) == k,
            2048 * j <= p < 2048 * (j + 1),
        ensures
            wr.1 == kind_rank_of(self.content@, 64 * (wr.0 as int), ones),
            64 * (wr.0 as int) <= p,
    {
        let ghost words = self.content@;
        let ghost ni = words.len() as int;
        let n = self.content.len();
        let base = self.l2_kind_rank_at(j, ones);
        let e = self.l2ranks[j];
        proof {
            assert(64 * (32 * (j as int)) == 2048 * (j as int)) by (nonlinear_arith);
            lemma_rank_bounds(words, 2048 * (j as int));
            lemma_rank_bounds(words, 64 * ni);
            lemma_rank_totality(words, 64 * ni);
            lemma_rank_totality(words, 2048 * (j as int));
            assert(kind_rank_of(words, p + 1, ones) == k + 1);
            lemma_rank_monotone(words, p + 1, 64 * ni);
            lemma_rank_monotone(words, 2048 * (j as int), p);
            lemma_l2_index_arith(ni, j as int);
        }
        let mut s: usize = 3;
        while s >= 1
            invariant
                self.wf(),
                words == self.content@,
                ni == words.len(),
                n == ni,
                j < self.l2ranks@.len(),
                e == self.l2ranks@[j as int],
                0 <= p < 64 * ni,
                seq_bit(words, p) == ones,
                kind_rank_of(words, p, ones) == k,
                2048 * (j as int) <= p < 2048 * ((j as int) + 1),
                base == kind_rank_of(words, 2048 * (j as int), ones),
                base <= k,
                base <= 2048 * (j as int),
                2048 * (j as int) < 64 * ni,
                k < kind_rank_of(words, 64 * ni, ones),
                s <= 3,
            decreases s,
        {
            proof {
                assert(64 * (32 * (j as int) + 8 * (s as int)) == 2048 * (j as int) + 512 * (
                s as int)) by (nonlinear_arith);
            }
            let sub_present = 32 * j + 8 * s < n;
            let d = l2_delta_at(e, s);
            let take = if ones {
                proof {
                    if !sub_present && base + d <= k {
                        // An absent sub-block's field is filled with ones
                        // and exceeds every reachable rank difference.
                        lemma_rank_monotone(words, 2048 * (j as int), 64 * ni);
                        assert(64 * ni <= 2048 * (j as int) + 512 * (s as int))
                            by (nonlinear_arith)
                            requires 32 * (j as int) + 8 * (s as int) >= ni;
                        assert(k - base < 512 * (s as int));
                        assert(false);
                    }
                }
                base + d <= k
            } else {
                if sub_present {
                    proof {
                        lemma_rank_monotone(
                            words,
                            2048 * (j as int),
                            2048 * (j as int) + 512 * (s as int),
                        );
                        lemma_rank_totality(words, 2048 * (j as int) + 512 * (s as int));
                    }
                    base + (512 * s - d) <= k
                } else {
                    false
                }
            };
            if take {
                let w = 32 * j + 8 * s;
                let r = if ones {
                    base + d
                } else {
                    base + (512 * s - d)
                };
                proof {
                    assert(sub_present);
                    assert(l2_delta(e, s as int) == rank_of(
                        words,
                        2048 * (j as int) + 512 * (s as int),
                    ) - rank_of(words, 2048 * (j as int)));
                    lemma_rank_totality(words, 2048 * (j as int) + 512 * (s as int));
                    lemma_rank_totality(words, 2048 * (j as int));
                    assert(r == kind_rank_of(words, 64 * (w as int), ones));
                    lemma_select_pos_ge(words, p, k as int, ones, 64 * (w as int));
                }
                return (w, r);
            }
            s = s - 1;
        }
        proof {
            lemma_select_pos_ge(words, p, k as int, ones, 2048 * (j as int));
        }
        (32 * j, base)
    }

    /// Walks the words of the located L2 block to the word holding the
    /// `k`-th occurrence `p` and finds it with an in-word select.
    fn select_scan(&self, k: usize, j: usize, ones: bool, Ghost(p): Ghost<int>) -> (r:
        Option<usize>)
        requires
            self.wf(),
            j < self.l2ranks@.len(),
            0 <= p < self.bit_len(),
            seq_bit(self.content@, p) == ones,
            kind_rank_of(self.content@, p, ones) == k,
            2048 * j <= p < 2048 * (j + 1),
        ensures
            r == Some(p as usize),
    {
        let ghost words = self.content@;
        let ghost ni = words.len() as int;
        let n = self.content.len();
        let (mut w, mut r) = self.select_sub_block(k, j, ones, Ghost(p));
        proof {
            lemma_rank_bounds(words, 64 * ni);
            lemma_rank_totality(words, 64 * ni);
        }
        loop
            invariant
                self.wf(),
                words == self.content@,
                ni == words.len(),
                n == ni,
                0 <= p < 64 * ni,
                seq_bit(words, p) == ones,
                kind_rank_of(words, p, ones) == k,
                r == kind_rank_of(words, 64 * (w as int), ones),
                64 * (w as int) <= p,
            decreases ni - w,
        {
            proof {
                assert(w < ni) by (nonlinear_arith)
                    requires 64 * (w as int) <= p && p < 64 * ni;
                lemma_rank_word_split(words, w as int, 64);
                lemma_count_word_bounds(words[w as int], 64);
                crate::bits::lemma_count_word_complement(words[w as int], 64);
                lemma_rank_totality(words, 64 * (w as int));
                lemma_rank_totality(words, 64 * (w as int) + 64);
            }
            let word = self.content[w];
            let c = if ones {
                crate::bits::popcount_word(word)
            } else {
                64 - crate::bits::popcount_word(word)
            };
            proof {
                assert(kind_rank_of(words, 64 * (w as int) + 64, ones) == r + c);
                lemma_rank_bounds(words, p);
                lemma_select_pos_bound(words, p, k as int, ones, 64 * (w as int));
            }
            if r + c > k {
                // The occurrence lies in this word.
                proof {
                    lemma_select_pos_lt(words, p, k as int, ones, 64 * (w as int) + 64);
                }
                let s = if ones {
                    crate::bits::select_in_word(word, k - r)
                } else {
                    crate::bits::select_in_word(!word, k - r)
                };
                proof {
                    let si = s as int;
                    if !ones {
                        crate::bits::lemma_count_word_complement(word, si);
                        crate::bits::lemma_word_complement_bit(word, s as u64);
                    }
                    lemma_rank_word_split(words, w as int, si);
                    lemma_rank_totality(words, 64 * (w as int) + si);
                    assert(kind_rank_of(words, 64 * (w as int) + si, ones) == k);
                    assert(seq_bit(words, 64 * (w as int) + si) == ones) by {
                        assert((64 * (w as int) + si) / 64 == w as int && (64 * (w as int) + si)
                            % 64 == si) by (nonlinear_arith)
                            requires 0 <= si < 64 && w >= 0;
                    }
                    if ones {
                        crate::bits::lemma_select_unique(words, p, 64 * (w as int) + si);
                    } else {
                        crate::bits::lemma_select0_unique(words, p, 64 * (w as int) + si);
                    }
                }
                return Some(64 * w + s);
            }
            proof {
                lemma_select_pos_ge(words, p, k as int, ones, 64 * (w as int) + 64);
            }
            r = r + c;
            w = w + 1;
        }
    }
}

/// The `k`-th occurrence of a bit kind lies at or after any prefix with at
/// most `k` occurrences.
proof fn lemma_select_pos_ge(words: Seq<u64>, p: int, k: int, ones: bool, q: int)
    requires
        0 <= p,
        0 <= q,
        seq_bit(words, p) == ones,
        kind_rank_of(words, p, ones) == k,
        kind_rank_of(words, q, ones) <= k,
    ensures
        q <= p,
{
    if p < q {
        lemma_rank_monotone(words, p + 1, q);
    }
}

/// The `k`-th occurrence of a bit kind lies before any prefix with more
/// than `k` occurrences.
proof fn lemma_select_pos_lt(words: Seq<u64>, p: int, k: int, ones: bool, q: int)
    requires
        0 <= p,
        0 <= q,
        seq_bit(words, p) == ones,
        kind_rank_of(words, p, ones) == k,
        kind_rank_of(words, q, ones) > k,
    ensures
        p < q,
{
    if q <= p {
        lemma_rank_monotone(words, q, p);
    }
}

/// The count of a bit kind before its `k`-th occurrence never exceeds `k`.
proof fn lemma_select_pos_bound(words: Seq<u64>, p: int, k: int, ones: bool, q: int)
    requires
        0 <= q <= p,
        seq_bit(words, p) == ones,
        kind_rank_of(words, p, ones) == k,
    ensures
        kind_rank_of(words, q, ones) <= k,
{
    lemma_rank_monotone(words, q, p);
}

/// A correct sample (or any block with rank at or below `k`) bounds the
/// block of the `k`-th occurrence from below.
proof fn lemma_select_window(words: Seq<u64>, p: int, k: int, ones: bool, lo: int, l2len: int)
    requires
        0 <= p < 64 * words.len(),
        seq_bit(words, p) == ones,
        kind_rank_of(words, p, ones) == k,
        0 <= lo,
        lo == 0 || kind_rank_of(words, 2048 * lo, ones) <= k,
        l2len == ceil_div(words.len() as int, 32),
    ensures
        2048 * lo <= p < 2048 * l2len,
{
    if lo > 0 {
        lemma_select_pos_ge(words, p, k, ones, 2048 * lo);
    }
    assert(64 * words.len() <= 2048 * l2len) by (nonlinear_arith)
        requires l2len == ceil_div(words.len() as int, 32);
}

/// The zero count at the start of an L1 block is its bit position minus
/// its rank, and both fit the machine word.
proof fn lemma_l1_zero_value(words: Seq<u64>, ni: int, b: int, l1len: int)
    requires
        ni == words.len(),
        0 <= b < l1len,
        l1len == ceil_div(ni, 0x4000000),
        64 * ni + 65536 <= usize::MAX,
    ensures
        b * 0x100000000 <= 64 * ni,
        rank0_of(words, b * 0x100000000) == b * 0x100000000 - rank_of(words, b * 0x100000000),
        0 <= rank_of(words, b * 0x100000000) <= b * 0x100000000,
{
    assert(b * 0x100000000 <= 64 * ni) by (nonlinear_arith)
        requires 0 <= b < ceil_div(ni, 0x4000000) && ni >= 0;
    lemma_rank_totality(words, b * 0x100000000);
    lemma_rank_bounds(words, b * 0x100000000);
}

/// After the L1 binary search the occurrence position is bracketed by the
/// found block in L2 units, and the block indices stay in range.
proof fn lemma_l1_block_of_p(ni: int, p: int, b: int, bhi: int, l1len: int, l2len: int)
    requires
        ni >= 1,
        0 <= p < 64 * ni,
        0 <= b < bhi <= l1len,
        bhi == b + 1,
        l1len == ceil_div(ni, 0x4000000),
        l2len == ceil_div(ni, 32),
        b * 0x100000000 <= p,
        p < bhi * 0x100000000 || bhi == l1len,
        64 * ni + 65536 <= usize::MAX,
    ensures
        2048 * (b * 0x200000) <= p,
        bhi < l1len ==> p < 2048 * (bhi * 0x200000),
        b * 0x200000 < l2len,
        bhi < l1len ==> bhi * 0x200000 <= l2len,
        b * 0x200000 <= usize::MAX,
        bhi * 0x200000 <= usize::MAX,
{
    assert(2048 * (b * 0x200000) == b * 0x100000000 && 2048 * (bhi * 0x200000) == bhi
        * 0x100000000) by (nonlinear_arith);
    assert(b * 0x200000 < l2len) by (nonlinear_arith)
        requires
            b * 0x100000000 <= p && p < 64 * ni && l2len == ceil_div(ni, 32) && ni >= 1 && b >= 0;
    assert(bhi < l1len ==> bhi * 0x200000 <= l2len) by (nonlinear_arith)
        requires
            bhi < l1len ==> (bhi < ceil_div(ni, 0x4000000) && l2len == ceil_div(ni, 32) && ni >= 1
                && bhi >= 1);
    assert(bhi * 0x200000 <= usize::MAX) by (nonlinear_arith)
        requires
            bhi <= l1len && l1len == ceil_div(ni, 0x4000000) && ni >= 1 && 64 * ni + 65536
                <= usize::MAX && usize::MAX >= 0xFFFFFFFF;
    assert(usize::MAX >= 0xFFFFFFFF);
}

/// Bit array with a one-level rank directory: one absolute 32-bit rank per
/// 512-bit block.  Simpler and larger than the two-level directory, with
/// the same O(1) rank query; it offers no select acceleration.
pub struct ArrayWithRankSimple {
    /// The bit payload.
    pub content: Vec<u64>,
    /// `ranks[b]` is the number of ones before bit `512 * b`.
    pub ranks: Vec<u32>,
}

impl ArrayWithRankSimple {
    /// Number of bit positions the array answers queries for.
    pub open spec fn bit_len(&self) -> int {
        64 * self.content@.len() as int
    }

    /// Structural invariant: every directory entry holds the rank at its
    /// block start, and all ranks fit 32 bits.
    pub open spec fn wf(&self) -> bool {
        let words = self.content@;
        let n = words.len() as int;
        &&& 64 * n < 0x100000000
        &&& 64 * n + 65536 <= usize::MAX
        &&& self.ranks@.len() == ceil_div(n, 8)
        &&& forall|b: int|
            0 <= b < self.ranks@.len() ==> #[trigger] self.ranks@[b] == rank_of(words, 512 * b)
    }

    /// Builds the directory over `content` and also returns the total
    /// number of ones.
    pub fn build(content: Vec<u64>) -> (r: (Self, u32))
        requires
            64 * content.len() < 0x100000000,
            64 * content.len() + 65536 <= usize::MAX,
        ensures
            r.0.wf(),
            r.0.content@ == content@,
            r.1 == rank_of(content@, 64 * content@.len() as int),
    {
        let ghost words = content@;
        let ghost ni = words.len() as int;
        let n = content.len();
        let mut ranks: Vec<u32> = Vec::new();
        let mut current_rank: u32 = 0;
        let mut seg: usize = 0;
        while seg < n
            invariant
                ni == words.len(),
                content@ == words,
                n == ni,
                64 * ni < 0x100000000,
                64 * ni + 65536 <= usize::MAX,
                seg <= n,
                ranks@.len() == ceil_div(seg as int, 8),
                forall|b: int|
                    0 <= b < ranks@.len() ==> #[trigger] ranks@[b] == rank_of(words, 512 * b),
                current_rank == rank_of(words, 64 * (seg as int)),
            decreases n - seg,
        {
            proof {
                vstd::arithmetic::div_mod::lemma_fundamental_div_mod(seg as int, 8);
                assert(seg as int % 8 == 0 ==> (ceil_div(seg as int, 8) == seg as int / 8 && 512 * (
                (seg as int) / 8) == 64 * (seg as int))) by (nonlinear_arith)
                    requires seg >= 0;
                assert(ceil_div((seg + 1) as int, 8) == (if seg as int % 8 == 0 {
                    (seg as int) / 8 + 1
                } else {
                    ceil_div(seg as int, 8)
                })) by (nonlinear_arith)
                    requires seg >= 0;
                lemma_rank_word_split(words, seg as int, 64);
                lemma_count_word_bounds(words[seg as int], 64);
                lemma_rank_bounds(words, 64 * (seg as int) + 64);
                lemma_rank_monotone(words, 64 * (seg as int) + 64, 64 * ni);
                lemma_rank_bounds(words, 64 * (seg as int));
            }
            if seg % 8 == 0 {
                ranks.push(current_rank);
            }
            current_rank = current_rank + (crate::bits::popcount_word(content[seg]) as u32);
            seg = seg + 1;
        }
        (ArrayWithRankSimple { content, ranks }, current_rank)
    }

    /// Heap bytes held by the payload and the directory.
    pub open spec fn dyn_bytes(&self) -> int {
        8 * self.content@.len() as int + 4 * self.ranks@.len() as int
    }

    /// Returns the number of heap bytes the structure holds.
    pub fn size_bytes_dyn(&self) -> (r: usize)
        requires
            self.wf(),
        ensures
            r == self.dyn_bytes(),
    {
        proof {
            assert(ceil_div(self.content@.len() as int, 8) <= self.content@.len() + 1)
                by (nonlinear_arith);
        }
        8 * self.content.len() + 4 * self.ranks.len()
    }

    /// Returns the number of ones in the first `index` bits, or `None` if
    /// `index` reaches past the bit array.
    pub fn try_rank(&self, index: usize) -> (r: Option<u32>)
        requires
            self.wf(),
        ensures
            match r {
                Some(c) => index < self.bit_len() && c == rank_of(self.content@, index as int),
                None => index >= self.bit_len(),
            },
    {
        let word_idx = index / 64;
        if word_idx >= self.content.len() {
            proof {
                assert(index >= self.bit_len()) by (nonlinear_arith)
                    requires
                        index / 64 >= self.content@.len() && self.bit_len() == 64
                            * self.content@.len() && index >= 0;
            }
            return None;
        }
        proof {
            assert(index < self.bit_len()) by (nonlinear_arith)
                requires
                    index / 64 < self.content@.len() && self.bit_len() == 64 * self.content@.len()
                        && index >= 0;
        }
        Some(self.rank(index))
    }

    /// Returns the number of ones in the first `index` bits.
    pub fn rank(&self, index: usize) -> (r: u32)
        requires
            self.wf(),
            index < self.bit_len(),
        ensures
            r == rank_of(self.content@, index as int),
    {
        let ghost words = self.content@;
        let ghost ni = words.len() as int;
        let word_idx = index / 64;
        let block = index / 512;
        proof {
            vstd::arithmetic::div_mod::lemma_div_denominator(index as int, 64, 8);
            assert((block as int) < ceil_div(ni, 8) && 8 * (block as int) <= word_idx as int
                && word_idx < ni && 512 * (block as int) == 64 * (8 * (block as int)) && 64 * (
            word_idx as int) <= index && index as int == 64 * (word_idx as int) + (index as int)
                % 64) by (nonlinear_arith)
                requires
                    0 <= index < 64 * ni && word_idx == (index as int) / 64 && block == (
                    index as int) / 512 && block == (word_idx as int) / 8;
            lemma_rank_monotone(words, 512 * (block as int), 64 * (word_idx as int));
            lemma_rank_monotone(words, 64 * (word_idx as int), 64 * ni);
            lemma_rank_bounds(words, 512 * (block as int));
            lemma_rank_word_split(words, word_idx as int, (index % 64) as int);
            lemma_count_word_bounds(words[word_idx as int], (index % 64) as int);
            lemma_rank_monotone(words, 64 * (word_idx as int) + (index % 64) as int, 64 * ni);
        }
        let mut r: u32 = self.ranks[block];
        r = r + (count_bits_in(&self.content, block * 8, word_idx) as u32);
        r + (count_word_prefix(self.content[word_idx], index % 64) as u32)
    }
}

/// Div/mod facts tying a bit index to its word, sub-block, L2 and L1
/// blocks, and the directory lengths needed to read them.
proof fn lemma_rank_index_arithmetic(n: int, index: int)
    requires
        n >= 0,
        0 <= index < 64 * n,
    ensures
        index / 64 < n,
        index / 2048 < ceil_div(n, 32),
        (index / 0x100000000) < ceil_div(n, 0x4000000),
        index / 2048 == (index / 512) / 4,
        (index / 512) % 4 < 4,
        8 * (index / 512) == 32 * (index / 2048) + 8 * ((index / 512) % 4),
        (index / 512) * 8 <= index / 64,
        64 * (index / 64) <= index,
        (index / 2048) / 0x200000 == index / 0x100000000,
        2048 * (index / 2048) + 512 * ((index / 512) % 4) == 512 * (index / 512),
        512 * (index / 512) <= 64 * (index / 64),
        32 * (index / 2048) + 8 * ((index / 512) % 4) <= index / 64,
{
    vstd::arithmetic::div_mod::lemma_div_denominator(index, 512, 4);
    vstd::arithmetic::div_mod::lemma_div_denominator(index, 64, 8);
    vstd::arithmetic::div_mod::lemma_div_denominator(index, 64, 32);
    vstd::arithmetic::div_mod::lemma_div_denominator(index, 2048, 0x200000);
    assert(index / 64 < n) by (nonlinear_arith)
        requires 0 <= index < 64 * n;
    assert(index / 2048 < ceil_div(n, 32)) by (nonlinear_arith)
        requires 0 <= index < 64 * n && n >= 0;
    assert(index / 0x100000000 < ceil_div(n, 0x4000000)) by (nonlinear_arith)
        requires 0 <= index < 64 * n && n >= 0;
    assert(8 * (index / 512) == 32 * (index / 2048) + 8 * ((index / 512) % 4)) by (nonlinear_arith)
        requires index >= 0 && index / 2048 == (index / 512) / 4;
    assert((index / 512) * 8 <= index / 64) by (nonlinear_arith)
        requires index >= 0 && index / 512 == (index / 64) / 8;
    assert(64 * (index / 64) <= index) by (nonlinear_arith)
        requires index >= 0;
    assert(2048 * (index / 2048) + 512 * ((index / 512) % 4) == 512 * (index / 512))
        by (nonlinear_arith)
        requires index >= 0 && index / 2048 == (index / 512) / 4;
    assert(512 * (index / 512) <= 64 * (index / 64)) by (nonlinear_arith)
        requires index >= 0 && index / 512 == (index / 64) / 8;
}

} // verus!
