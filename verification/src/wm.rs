//! Wavelet matrix over fixed-width symbols.
//!
//! A sequence of `len` symbols of `b` bits each is stored as `b` levels of
//! rank/select bit arrays.  Level `t` holds bit `b - 1 - t` of each symbol
//! in the order produced by stably partitioning the previous level by its
//! bit: symbols whose bit was zero first, then the others.  Each level
//! records its zero count, the offset of the one-partition.  Access, rank
//! and select queries descend the levels by rank and climb back by select.

use vstd::arithmetic::power2::{lemma_pow2_adds, lemma_pow2_pos, pow2};
use vstd::prelude::*;

use crate::bits::{
    lemma_rank_bounds, lemma_rank_monotone, lemma_rank_totality, lemma_select_of_rank, rank0_of,
    rank_of, seq_bit, word_bit,
};
use crate::rank_select::{ArrayWithRankSelect101111, SelectStrategy};

verus! {

/// The low `w` bits of a symbol.
pub open spec fn low_bits(v: u64, w: nat) -> int {
    (v as int) % (pow2(w) as int)
}

/// Number of indices below `upto` whose symbol has bit `t` equal to `b`.
pub open spec fn count_kind(s: Seq<u64>, t: nat, upto: int, b: bool) -> int
    decreases upto,
{
    if upto <= 0 {
        0
    } else {
        count_kind(s, t, upto - 1, b) + if word_bit(s[upto - 1], t as int) == b {
            1int
        } else {
            0int
        }
    }
}

/// Number of occurrences of `w` among `s[a..b]`.
pub open spec fn count_val(s: Seq<u64>, w: int, a: int, b: int) -> int
    decreases b - a,
{
    if b <= a {
        0
    } else {
        count_val(s, w, a, b - 1) + if s[b - 1] == w {
            1int
        } else {
            0int
        }
    }
}

/// Index of element `i` after stably partitioning `s` by bit `t`: elements
/// with a zero bit first, in order, then those with a one bit.
pub open spec fn child_index(s: Seq<u64>, t: nat, i: int) -> int {
    if word_bit(s[i], t as int) {
        count_kind(s, t, s.len() as int, false) + count_kind(s, t, i, true)
    } else {
        count_kind(s, t, i, false)
    }
}

/// Index any range endpoint maps to under the stable partition, following
/// the branch chosen by `b`.
pub open spec fn map_index(s: Seq<u64>, t: nat, i: int, b: bool) -> int {
    if b {
        count_kind(s, t, s.len() as int, false) + count_kind(s, t, i, true)
    } else {
        count_kind(s, t, i, false)
    }
}

/// `next` is the stable partition of `cur` by bit `t`, with each element
/// reduced to its low `t` bits.
pub open spec fn is_partition(cur: Seq<u64>, next: Seq<u64>, t: nat) -> bool {
    &&& next.len() == cur.len()
    &&& forall|i: int|
        0 <= i < cur.len() ==> next[#[trigger] child_index(cur, t, i)] == low_bits(cur[i], t)
}

/// Kind counts are monotone and bounded by the prefix length.
pub proof fn lemma_count_kind_bounds(s: Seq<u64>, t: nat, i: int, j: int)
    requires
        0 <= i <= j,
    ensures
        0 <= count_kind(s, t, i, true),
        0 <= count_kind(s, t, i, false),
        count_kind(s, t, i, true) <= count_kind(s, t, j, true) <= count_kind(s, t, i, true) + (j
            - i),
        count_kind(s, t, i, false) <= count_kind(s, t, j, false) <= count_kind(s, t, i, false) + (
        j - i),
    decreases j,
{
    if j > 0 {
        if i < j {
            lemma_count_kind_bounds(s, t, i, j - 1);
        } else {
            lemma_count_kind_bounds(s, t, 0, j - 1);
        }
    }
}

/// The two kind counts of a prefix add up to its length.
pub proof fn lemma_count_kind_total(s: Seq<u64>, t: nat, i: int)
    requires
        0 <= i,
    ensures
        count_kind(s, t, i, true) + count_kind(s, t, i, false) == i,
    decreases i,
{
    if i > 0 {
        lemma_count_kind_total(s, t, i - 1);
    }
}

/// Occurrence counts are monotone in the right endpoint.
pub proof fn lemma_count_val_monotone(s: Seq<u64>, w: int, a: int, b1: int, b2: int)
    requires
        b1 <= b2,
    ensures
        count_val(s, w, a, b1) <= count_val(s, w, a, b2),
    decreases b2 - b1,
{
    if b1 < b2 {
        lemma_count_val_monotone(s, w, a, b1, b2 - 1);
    }
}

/// A value below two to the `t + 1` splits into its bit `t` and its low
/// `t` bits, and two such values are equal exactly when both parts agree.
pub proof fn lemma_split_value(v: u64, t: nat)
    requires
        t < 64,
        (v as int) < pow2(t + 1),
    ensures
        v as int == (if word_bit(v, t as int) {
            pow2(t) as int
        } else {
            0int
        }) + low_bits(v, t),
        0 <= low_bits(v, t) < pow2(t),
        word_bit(v, t as int) == ((v as int) / (pow2(t) as int) == 1),
{
    lemma_pow2_pos(t);
    lemma_pow2_pos(t + 1);
    vstd::bits::lemma_u64_shr_is_div(v, t as u64);
    vstd::bits::lemma_u64_low_bits_mask_is_mod(v >> (t as u64), 1);
    vstd::bits::lemma_u64_low_bits_mask_is_mod(v, t);
    assert(vstd::bits::low_bits_mask(1) == 1) by {
        vstd::bits::lemma_low_bits_mask_values();
    }
    assert(pow2(1) == 2) by {
        vstd::arithmetic::power2::lemma2_to64();
    }
    let p = pow2(t) as int;
    assert(pow2(t + 1) == 2 * p) by {
        lemma_pow2_adds(t, 1);
        vstd::arithmetic::power2::lemma2_to64();
    }
    vstd::arithmetic::div_mod::lemma_fundamental_div_mod(v as int, p);
    assert((v as int) / p < 2) by (nonlinear_arith)
        requires (v as int) < pow2(t + 1) && pow2(t + 1) == 2 * p && p > 0 && v >= 0;
    vstd::arithmetic::div_mod::lemma_div_pos_is_pos(v as int, p);
    assert((v >> (t as u64)) as int == (v as int) / p);
    assert(((v >> (t as u64)) & 1) as int == ((v >> (t as u64)) as int) % 2);
    assert(((v as int) / p) % 2 == (v as int) / p) by (nonlinear_arith)
        requires 0 <= (v as int) / p < 2;
    assert(word_bit(v, t as int) == ((v as int) / p == 1));
    assert(v as int == p * ((v as int) / p) + (v as int) % p);
    assert(p * ((v as int) / p) == (if word_bit(v, t as int) {
        p
    } else {
        0int
    })) by (nonlinear_arith)
        requires (v as int) / p == (if word_bit(v, t as int) {
            1int
        } else {
            0int
        });
}

/// The heart of every wavelet-matrix query: a stable partition maps the
/// occurrence count of a value over a range to the occurrence count of
/// its low bits over the mapped range, on the side of the value's bit.
pub proof fn lemma_partition_counts(
    cur: Seq<u64>,
    next: Seq<u64>,
    t: nat,
    w: int,
    a: int,
    b: int,
)
    requires
        t < 64,
        is_partition(cur, next, t),
        forall|i: int| 0 <= i < cur.len() ==> (#[trigger] cur[i] as int) < pow2(t + 1),
        0 <= w < pow2(t + 1),
        0 <= a <= b <= cur.len(),
    ensures
        count_val(cur, w, a, b) == count_val(
            next,
            w % (pow2(t) as int),
            map_index(cur, t, a, word_bit(w as u64, t as int)),
            map_index(cur, t, b, word_bit(w as u64, t as int)),
        ),
    decreases b,
{
    lemma_pow2_pos(t + 1);
    if t + 1 < 64 {
        vstd::arithmetic::power2::lemma_pow2_strictly_increases(t + 1, 64);
    }
    assert(pow2(64) == 0x10000000000000000) by {
        vstd::arithmetic::power2::lemma2_to64_rest();
    }
    let beta = word_bit(w as u64, t as int);
    let wl = w % (pow2(t) as int);
    if b > a {
        lemma_partition_counts(cur, next, t, w, a, b - 1);
        let mb = map_index(cur, t, b - 1, beta);
        lemma_map_index_bounds(cur, t, a, b - 1, beta);
        lemma_map_index_bounds(cur, t, b - 1, b, beta);
        lemma_map_index_bounds(cur, t, b, cur.len() as int, beta);
        if word_bit(cur[b - 1], t as int) == beta {
            // The partition writes the reduced element exactly at the
            // mapped endpoint, which advances by one.
            assert(child_index(cur, t, b - 1) == mb);
            assert(next[mb] == low_bits(cur[b - 1], t));
            assert(map_index(cur, t, b, beta) == mb + 1);
            lemma_split_value(cur[b - 1] as u64, t);
            lemma_split_value(w as u64, t);
            lemma_count_kind_bounds(cur, t, 0, b - 1);
            lemma_count_kind_bounds(cur, t, b - 1, cur.len() as int);
            assert(word_bit(w as u64, t as int) == beta);
            assert(w == (if beta {
                pow2(t) as int
            } else {
                0int
            }) + wl);
            assert(cur[b - 1] as int == (if beta {
                pow2(t) as int
            } else {
                0int
            }) + low_bits(cur[b - 1], t));
            assert((cur[b - 1] == w) == (next[mb] == wl));
            assert(count_val(next, wl, map_index(cur, t, a, beta), mb + 1) == count_val(
                next,
                wl,
                map_index(cur, t, a, beta),
                mb,
            ) + (if next[mb] == wl {
                1int
            } else {
                0int
            }));
        } else {
            assert(map_index(cur, t, b, beta) == mb);
            lemma_split_value(cur[b - 1] as u64, t);
            lemma_split_value(w as u64, t);
            assert(cur[b - 1] != w);
        }
    }
}

/// Mapped endpoints stay ordered and inside the next level.
pub proof fn lemma_map_index_bounds(cur: Seq<u64>, t: nat, a: int, b: int, beta: bool)
    requires
        0 <= a <= b <= cur.len(),
    ensures
        map_index(cur, t, a, beta) <= map_index(cur, t, b, beta),
        0 <= map_index(cur, t, a, beta),
        map_index(cur, t, b, beta) <= cur.len(),
        !beta ==> map_index(cur, t, b, beta) <= count_kind(cur, t, cur.len() as int, false),
        beta ==> map_index(cur, t, a, beta) >= count_kind(cur, t, cur.len() as int, false),
{
    let n = cur.len() as int;
    lemma_count_kind_bounds(cur, t, 0, a);
    lemma_count_kind_bounds(cur, t, a, b);
    lemma_count_kind_bounds(cur, t, b, n);
    lemma_count_kind_total(cur, t, n);
}

/// A level's bit array mirrors the current residuals' top bits, so its
/// ranks count residual kinds.
pub proof fn lemma_rank_counts_kinds(words: Seq<u64>, cur: Seq<u64>, t: nat, i: int)
    requires
        0 <= i <= cur.len(),
        forall|j: int|
            0 <= j < cur.len() ==> #[trigger] seq_bit(words, j) == word_bit(cur[j], t as int),
    ensures
        rank_of(words, i) == count_kind(cur, t, i, true),
        rank0_of(words, i) == count_kind(cur, t, i, false),
    decreases i,
{
    if i > 0 {
        lemma_rank_counts_kinds(words, cur, t, i - 1);
    }
}

/// Counting a zero value over an all-zero sequence counts the range.
pub proof fn lemma_count_val_zeros(s: Seq<u64>, a: int, b: int)
    requires
        0 <= a <= b <= s.len(),
        forall|i: int| 0 <= i < s.len() ==> s[i] == 0,
    ensures
        count_val(s, 0, a, b) == b - a,
    decreases b - a,
{
    if b > a {
        lemma_count_val_zeros(s, a, b - 1);
    }
}

/// One level of the wavelet matrix.
pub struct WaveletMatrixLevel {
    /// The level's bits with rank/select support.
    pub content: ArrayWithRankSelect101111,
    /// Number of zero bits among the level's first `len` bits.
    pub number_of_zeros: usize,
}

/// Wavelet matrix over a sequence of fixed-width symbols, supporting
/// random access and per-symbol rank and select.
pub struct WaveletMatrix {
    /// One level per symbol bit, most significant first.
    pub levels: Vec<WaveletMatrixLevel>,
    /// Number of stored symbols.
    pub len: usize,
    /// Residual sequences: entry `t` is the stable-partition reordering of
    /// the symbols' low `b - t` bits at depth `t`; entry `0` is the symbol
    /// sequence itself.
    pub residuals: Ghost<Seq<Seq<u64>>>,
}

impl View for WaveletMatrix {
    type V = Seq<u64>;

    open spec fn view(&self) -> Seq<u64> {
        self.residuals@[0]
    }
}

impl WaveletMatrix {
    /// `x` is some symbol the source callable can return for index `i`,
    /// reduced to its low `w` bits.
    pub open spec fn masked_from<F: Fn(usize) -> u64>(content: F, w: nat, i: int, x: u64) -> bool {
        exists|v: u64|
            #[trigger] content.ensures(((i as usize),), v) && x as int == (v as int) % (pow2(
                w,
            ) as int)
    }

    /// Structural invariant: every level mirrors the top bit of its
    /// residual sequence, knows its zero count, and partitions into the
    /// next residual sequence.
    pub open spec fn wf(&self) -> bool {
        let b = self.levels@.len() as int;
        let n = self.len as int;
        let gl = self.residuals@;
        &&& 1 <= b <= 64
        &&& n + 65536 <= usize::MAX / 64
        &&& gl.len() == b + 1
        &&& forall|t: int| 0 <= t <= b ==> (#[trigger] gl[t]).len() == n
        &&& forall|t: int, i: int|
            0 <= t <= b && 0 <= i < n ==> (#[trigger] gl[t][i] as int) < pow2((b - t) as nat)
        &&& forall|t: int| 0 <= t < b ==> (#[trigger] self.levels@[t]).content.wf()
        &&& forall|t: int|
            0 <= t < b ==> n <= 64 * (#[trigger] self.levels@[t]).content.content@.len()
        &&& forall|t: int|
            0 <= t < b ==> 64 * (#[trigger] self.levels@[t]).content.content@.len() <= n + 64
        &&& forall|t: int, i: int|
            0 <= t < b && 0 <= i < n ==> #[trigger] seq_bit(self.levels@[t].content.content@, i)
                == word_bit(gl[t][i], b - 1 - t)
        &&& forall|t: int|
            0 <= t < b ==> rank_of(
                (#[trigger] self.levels@[t]).content.content@,
                64 * self.levels@[t].content.content@.len() as int,
            ) == count_kind(gl[t], (b - 1 - t) as nat, n, true)
        &&& forall|t: int|
            0 <= t < b ==> (#[trigger] self.levels@[t]).number_of_zeros == count_kind(
                gl[t],
                (b - 1 - t) as nat,
                n,
                false,
            )
        &&& forall|t: int|
            0 <= t < b ==> is_partition(gl[t], #[trigger] gl[t + 1], (b - 1 - t) as nat)
    }

    /// Returns the number of stored symbols.
    pub fn len(&self) -> (r: usize)
        requires
            self.wf(),
        ensures
            r == self@.len(),
    {
        self.len
    }

    /// Returns whether the matrix is empty.
    pub fn is_empty(&self) -> (r: bool)
        requires
            self.wf(),
        ensures
            r == (self@.len() == 0),
    {
        self.len == 0
    }

    /// Returns the symbol width in bits.
    pub fn bits_per_value(&self) -> (r: u8)
        requires
            self.wf(),
        ensures
            r == self.levels@.len(),
    {
        self.levels.len() as u8
    }

    /// Builds a wavelet matrix over `content_len` symbols of
    /// `bits_per_value` bits, reading symbol `i` as `content(i)`; symbols
    /// are reduced to their low `bits_per_value` bits.
    pub fn from_fn<F: Fn(usize) -> u64>(
        content: F,
        content_len: usize,
        bits_per_value: u8,
    ) -> (r: WaveletMatrix)
        requires
            1 <= bits_per_value <= 64,
            content_len + 65536 <= usize::MAX / 64,
            forall|i: usize| i < content_len ==> content.requires((i,)),
        ensures
            r.wf(),
            r@.len() == content_len,
            r.levels@.len() == bits_per_value as int,
            forall|i: int|
                0 <= i < content_len ==> #[trigger] Self::masked_from(
                    content,
                    bits_per_value as nat,
                    i,
                    r@[i],
                ),
    {
        let n = content_len;
        let b = bits_per_value as usize;
        let mut vals: Vec<u64> = Vec::new();
        let ghost mut origs: Seq<u64> = Seq::empty();
        let mut i: usize = 0;
        proof {
            lemma_pow2_pos(bits_per_value as nat);
        }
        while i < n
            invariant
                i <= n,
                vals@.len() == i,
                origs.len() == i,
                1 <= b <= 64,
                b == bits_per_value as int,
                pow2(bits_per_value as nat) >= 1,
                forall|k: usize| k < n ==> content.requires((k,)),
                forall|k: int|
                    0 <= k < i ==> content.ensures(((k as usize),), #[trigger] origs[k]),
                forall|k: int|
                    0 <= k < i ==> (#[trigger] vals@[k] as int) == (origs[k] as int) % (pow2(
                        bits_per_value as nat,
                    ) as int),
                forall|k: int|
                    0 <= k < i ==> (#[trigger] vals@[k] as int) < pow2(bits_per_value as nat),
            decreases n - i,
        {
            let v0 = content(i);
            let v = mask_low(v0, bits_per_value);
            vals.push(v);
            proof {
                lemma_pow2_pos(bits_per_value as nat);
                vstd::arithmetic::div_mod::lemma_mod_bound(
                    v0 as int,
                    pow2(bits_per_value as nat) as int,
                );
                origs = origs.push(v0);
            }
            i = i + 1;
        }
        let ghost vs = vals@;
        let r = Self::from_values(vals, bits_per_value);
        proof {
            assert forall|i2: int|
                0 <= i2 < content_len implies #[trigger] Self::masked_from(
                content,
                bits_per_value as nat,
                i2,
                r@[i2],
            ) by {
                assert(r@[i2] == vs[i2]);
                assert(content.ensures(((i2 as usize),), origs[i2]) && r@[i2] as int == (
                origs[i2] as int) % (pow2(bits_per_value as nat) as int));
            }
        }
        r
    }

    /// Builds a wavelet matrix over `content_len` symbols of
    /// `bits_per_value` bits packed back to back in `content`.
    pub fn from_bits(content: &Vec<u64>, content_len: usize, bits_per_value: u8) -> (r:
        WaveletMatrix)
        requires
            1 <= bits_per_value <= 64,
            content_len + 65536 <= usize::MAX / 64,
            content_len * (bits_per_value as int) <= 64 * content.len(),
            64 * content.len() <= usize::MAX,
        ensures
            r.wf(),
            r@.len() == content_len,
            r.levels@.len() == bits_per_value as int,
            forall|i: int|
                0 <= i < content_len ==> r@[i] == crate::bitv::fragment_value(
                    content@,
                    i,
                    bits_per_value as int,
                ),
    {
        let n = content_len;
        let mut vals: Vec<u64> = Vec::new();
        let mut i: usize = 0;
        proof {
            lemma_pow2_pos(bits_per_value as nat);
        }
        while i < n
            invariant
                i <= n,
                vals@.len() == i,
                1 <= bits_per_value <= 64,
                content_len * (bits_per_value as int) <= 64 * content.len(),
                64 * content.len() <= usize::MAX,
                n == content_len,
                forall|k: int|
                    0 <= k < i ==> #[trigger] vals@[k] == crate::bitv::fragment_value(
                        content@,
                        k,
                        bits_per_value as int,
                    ),
                forall|k: int|
                    0 <= k < i ==> (#[trigger] vals@[k] as int) < pow2(bits_per_value as nat),
            decreases n - i,
        {
            proof {
                assert((i as int) * (bits_per_value as int) + bits_per_value <= content_len * (
                bits_per_value as int)) by (nonlinear_arith)
                    requires 0 <= i < content_len && bits_per_value >= 1;
                crate::bitv::lemma_bits_value_bound(
                    content@,
                    (i as int) * (bits_per_value as int),
                    bits_per_value as int,
                );
            }
            let v = crate::bitv::get_fragment(content, i, bits_per_value as usize);
            vals.push(v);
            i = i + 1;
        }
        let ghost vs = vals@;
        let r = Self::from_values(vals, bits_per_value);
        proof {
            assert forall|k: int| 0 <= k < content_len implies r@[k]
                == crate::bitv::fragment_value(content@, k, bits_per_value as int) by {
                assert(r@[k] == vs[k]);
            }
        }
        r
    }

    /// Builds the level structure over already-masked symbols.
    fn from_values(vals: Vec<u64>, bits_per_value: u8) -> (r: WaveletMatrix)
        requires
            1 <= bits_per_value <= 64,
            vals.len() + 65536 <= usize::MAX / 64,
            forall|k: int|
                0 <= k < vals.len() ==> (#[trigger] vals@[k] as int) < pow2(bits_per_value as nat),
        ensures
            r.wf(),
            r@ == vals@,
            r.levels@.len() == bits_per_value as int,
    {
        let n = vals.len();
        let ghost vs0 = vals@;
        let b = bits_per_value as usize;
        let ghost bi = b as int;
        let mut levels: Vec<WaveletMatrixLevel> = Vec::new();
        let mut cur = vals;
        let ghost gl0 = seq![cur@];
        let mut gl: Ghost<Seq<Seq<u64>>> = Ghost(gl0);
        let mut t: usize = 0;
        while t < b
            invariant
                1 <= b <= 64,
                bi == b,
                n + 65536 <= usize::MAX / 64,
                t <= b,
                levels@.len() == t,
                gl@.len() == t + 1,
                gl@[0] == vs0,
                cur@ == gl@[t as int],
                forall|k: int| 0 <= k <= t ==> (#[trigger] gl@[k]).len() == n,
                forall|k: int, i: int|
                    0 <= k <= t && 0 <= i < n ==> (#[trigger] gl@[k][i] as int) < pow2(
                        (bi - k) as nat,
                    ),
                forall|k: int| 0 <= k < t ==> (#[trigger] levels@[k]).content.wf(),
                forall|k: int|
                    0 <= k < t ==> n <= 64 * (#[trigger] levels@[k]).content.content@.len(),
                forall|k: int|
                    0 <= k < t ==> 64 * (#[trigger] levels@[k]).content.content@.len() <= n + 64,
                forall|k: int, i: int|
                    0 <= k < t && 0 <= i < n ==> #[trigger] seq_bit(
                        levels@[k].content.content@,
                        i,
                    ) == word_bit(gl@[k][i], bi - 1 - k),
                forall|k: int|
                    0 <= k < t ==> rank_of(
                        (#[trigger] levels@[k]).content.content@,
                        64 * levels@[k].content.content@.len() as int,
                    ) == count_kind(gl@[k], (bi - 1 - k) as nat, n as int, true),
                forall|k: int|
                    0 <= k < t ==> (#[trigger] levels@[k]).number_of_zeros == count_kind(
                        gl@[k],
                        (bi - 1 - k) as nat,
                        n as int,
                        false,
                    ),
                forall|k: int|
                    0 <= k < t ==> is_partition(gl@[k], #[trigger] gl@[k + 1], (bi - 1 - k) as nat),
            decreases b - t,
        {
            let tb = (b - 1 - t) as u8;
            let ghost tbn = tb as nat;
            let ghost curs = cur@;
            // Count the zeros of the level bit.
            let mut z: usize = 0;
            let mut i: usize = 0;
            while i < n
                invariant
                    i <= n,
                    cur@ == curs,
                    cur@.len() == n,
                    tbn == tb as nat,
                    tb < 64,
                    z == count_kind(curs, tbn, i as int, false),
                decreases n - i,
            {
                proof {
                    lemma_count_kind_bounds(curs, tbn, 0, i as int);
                }
                if (cur[i] >> (tb as u64)) & 1 != 1 {
                    z = z + 1;
                }
                i = i + 1;
            }
            // Write the level's bit array and stably partition the
            // residuals through two cursors, zeros from the region start
            // and ones from the zero count.
            let words = crate::bitv::words_for_bits(n);
            let mut upper = crate::bitv::with_zeroed_words(words);
            let mut next: Vec<u64> = Vec::new();
            let mut i2: usize = 0;
            while i2 < n
                invariant
                    i2 <= n,
                    next@.len() == i2,
                    forall|k: int| 0 <= k < i2 ==> (#[trigger] next@[k]) == 0u64,
                decreases n - i2,
            {
                next.push(0u64);
                i2 = i2 + 1;
            }
            let mut zero_idx: usize = 0;
            let mut one_idx: usize = z;
            let mut i3: usize = 0;
            proof {
                lemma_pow2_pos(tbn);
            }
            while i3 < n
                invariant
                    i3 <= n,
                    cur@ == curs,
                    cur@.len() == n,
                    tbn == tb as nat,
                    next@.len() == n,
                    upper@.len() == words,
                    64 * (words as int) >= n,
                    64 * (words as int) <= usize::MAX,
                    tb < 64,
                    z == count_kind(curs, tbn, n as int, false),
                    zero_idx == count_kind(curs, tbn, i3 as int, false),
                    one_idx == z + count_kind(curs, tbn, i3 as int, true),
                    forall|k: int|
                        0 <= k < i3 ==> next@[#[trigger] child_index(curs, tbn, k)] == low_bits(
                            curs[k],
                            tbn,
                        ),
                    forall|k: int|
                        0 <= k < n ==> (#[trigger] next@[k] as int) < pow2(tbn),
                    forall|k: int|
                        0 <= k < i3 ==> #[trigger] seq_bit(upper@, k) == word_bit(
                            curs[k],
                            tb as int,
                        ),
                    forall|k: int| i3 <= k < 64 * words ==> !seq_bit(upper@, k),
                decreases n - i3,
            {
                let ghost ii = i3 as int;
                proof {
                    lemma_count_kind_bounds(curs, tbn, 0, ii);
                    lemma_count_kind_bounds(curs, tbn, ii, n as int);
                    lemma_count_kind_total(curs, tbn, n as int);
                }
                let v = cur[i3];
                let beta = (v >> (tb as u64)) & 1 == 1;
                crate::bitv::init_bit(&mut upper, i3, beta);
                proof {
                    lemma_pow2_pos(tbn);
                }
                let low = v & (crate::bits::pow2_u64(tb) - 1);
                proof {
                    vstd::bits::lemma_u64_low_bits_mask_is_mod(v, tbn);
                    assert((pow2(tbn) - 1) as u64 == vstd::bits::low_bits_mask(tbn) as u64);
                    assert(low as int == low_bits(v, tbn));
                    crate::bits::lemma_count_word_bounds(v, 0);
                }
                if beta {
                    proof {
                        assert(child_index(curs, tbn, ii) == one_idx);
                        lemma_count_kind_bounds(curs, tbn, ii + 1, n as int);
                        assert(count_kind(curs, tbn, ii + 1, true) == count_kind(
                            curs,
                            tbn,
                            ii,
                            true,
                        ) + 1);
                        assert(one_idx < n);
                        assert forall|k: int| 0 <= k < ii implies child_index(curs, tbn, k) != (
                        one_idx as int) && 0 <= child_index(curs, tbn, k) < n by {
                            lemma_count_kind_bounds(curs, tbn, k + 1, ii);
                            lemma_count_kind_bounds(curs, tbn, 0, k);
                            lemma_count_kind_bounds(curs, tbn, k + 1, n as int);
                            assert(count_kind(curs, tbn, k + 1, word_bit(curs[k], tb as int))
                                == count_kind(curs, tbn, k, word_bit(curs[k], tb as int)) + 1);
                        }
                    }
                    next.set(one_idx, low);
                    proof {
                        assert forall|k: int|
                            0 <= k < ii + 1 implies next@[#[trigger] child_index(curs, tbn, k)]
                            == low_bits(curs[k], tbn) by {}
                    }
                    one_idx = one_idx + 1;
                } else {
                    proof {
                        assert(child_index(curs, tbn, ii) == zero_idx);
                        lemma_count_kind_bounds(curs, tbn, ii + 1, n as int);
                        assert(count_kind(curs, tbn, ii + 1, false) == zero_idx + 1);
                        assert(zero_idx < n) by {
                            lemma_count_kind_bounds(curs, tbn, 0, n as int);
                        }
                        assert forall|k: int| 0 <= k < ii implies child_index(curs, tbn, k) != (
                        zero_idx as int) && 0 <= child_index(curs, tbn, k) < n by {
                            lemma_count_kind_bounds(curs, tbn, k + 1, ii);
                            lemma_count_kind_bounds(curs, tbn, 0, k);
                            lemma_count_kind_bounds(curs, tbn, k + 1, n as int);
                            assert(count_kind(curs, tbn, k + 1, word_bit(curs[k], tb as int))
                                == count_kind(curs, tbn, k, word_bit(curs[k], tb as int)) + 1);
                        }
                    }
                    next.set(zero_idx, low);
                    proof {
                        assert forall|k: int|
                            0 <= k < ii + 1 implies next@[#[trigger] child_index(curs, tbn, k)]
                            == low_bits(curs[k], tbn) by {}
                    }
                    zero_idx = zero_idx + 1;
                }
                i3 = i3 + 1;
            }
            proof {
                lemma_count_kind_total(curs, tbn, n as int);
            }
            let (arr, _ones) = ArrayWithRankSelect101111::build_with_policies(
                upper,
                SelectStrategy::CombinedSampling,
                SelectStrategy::CombinedSampling,
            );
            proof {
                lemma_rank_counts_kinds(arr.content@, curs, tbn, n as int);
                lemma_select_of_rank(arr.content@, n as int, 64 * arr.content@.len() as int);
            }
            levels.push(WaveletMatrixLevel { content: arr, number_of_zeros: z });
            proof {
                gl@ = gl@.push(next@);
                assert(gl@[t as int + 1] == next@);
                assert((bi - (t as int + 1)) as nat == tbn);
            }
            cur = next;
            t = t + 1;
        }
        let r = WaveletMatrix { levels, len: n, residuals: Ghost(gl@) };
        proof {
            assert(r@ == gl@[0]);
            assert(gl0[0] == vs0);
        }
        r
    }
}

/// How one division step relates a value's halves: the residual modulo
/// `2^(w+1)` has the same bit `w` and the same low `w` bits as the value,
/// and the quotient by `2^w` extends the quotient by `2^(w+1)` by that bit.
proof fn lemma_descend_step(x: int, w: nat)
    requires
        0 <= x,
    ensures
        (x % (pow2(w + 1) as int)) / (pow2(w) as int) == (x / (pow2(w) as int)) % 2,
        x / (pow2(w) as int) == 2 * (x / (pow2(w + 1) as int)) + (x / (pow2(w) as int)) % 2,
        (x % (pow2(w + 1) as int)) % (pow2(w) as int) == x % (pow2(w) as int),
{
    let p = pow2(w) as int;
    let p2 = pow2(w + 1) as int;
    lemma_pow2_pos(w);
    lemma_pow2_pos(w + 1);
    assert(p2 == 2 * p) by {
        lemma_pow2_adds(w, 1);
        vstd::arithmetic::power2::lemma2_to64();
    }
    vstd::arithmetic::div_mod::lemma_mod_breakdown(x, p, 2);
    vstd::arithmetic::div_mod::lemma_fundamental_div_mod(x, p);
    vstd::arithmetic::div_mod::lemma_fundamental_div_mod(x / p, 2);
    vstd::arithmetic::div_mod::lemma_div_denominator(x, p, 2);
    vstd::arithmetic::div_mod::lemma_fundamental_div_mod(x, p2);
    // x % 2p == p * ((x / p) % 2) + x % p, so dividing by p and reducing
    // modulo p read off the two parts.
    vstd::arithmetic::div_mod::lemma_fundamental_div_mod_converse(
        x % p2,
        p,
        (x / p) % 2,
        x % p,
    );
}

/// A stable partition keeps indices inside the sequence.
proof fn lemma_child_in_range(cur: Seq<u64>, t: nat, i: int)
    requires
        0 <= i < cur.len(),
    ensures
        0 <= child_index(cur, t, i) < cur.len(),
        word_bit(cur[i], t as int) ==> child_index(cur, t, i) >= count_kind(
            cur,
            t,
            cur.len() as int,
            false,
        ),
        !word_bit(cur[i], t as int) ==> child_index(cur, t, i) < count_kind(
            cur,
            t,
            cur.len() as int,
            false,
        ),
{
    let n = cur.len() as int;
    lemma_count_kind_bounds(cur, t, 0, i);
    lemma_count_kind_bounds(cur, t, i + 1, n);
    lemma_count_kind_total(cur, t, n);
    assert(count_kind(cur, t, i + 1, word_bit(cur[i], t as int)) == count_kind(
        cur,
        t,
        i,
        word_bit(cur[i], t as int),
    ) + 1);
}

/// Rank over the first `i` bits of a level, where `i` may reach the end
/// of the level's bit array.
fn kind_rank_upto(arr: &ArrayWithRankSelect101111, i: usize, ones: bool) -> (r: usize)
    requires
        arr.wf(),
        i <= arr.bit_len(),
    ensures
        r == crate::rank_select::kind_rank_of(arr.content@, i as int, ones),
{
    let total_bits = 64 * arr.content.len();
    let ones_count = if i == total_bits {
        arr.count_ones()
    } else {
        arr.rank(i)
    };
    if ones {
        ones_count
    } else {
        proof {
            lemma_rank_totality(arr.content@, i as int);
            lemma_rank_bounds(arr.content@, i as int);
        }
        i - ones_count
    }
}

impl WaveletMatrix {
    /// Returns the symbol at `index`, or `None` if `index` is out of
    /// bounds.
    pub fn get(&self, index: usize) -> (r: Option<u64>)
        requires
            self.wf(),
        ensures
            match r {
                Some(v) => index < self@.len() && v == self@[index as int],
                None => index >= self@.len(),
            },
    {
        if index >= self.len {
            return None;
        }
        Some(self.get_or_panic(index))
    }

    /// Returns the symbol at `index`; the index must be in bounds.
    pub fn get_or_panic(&self, index: usize) -> (r: u64)
        requires
            self.wf(),
            index < self@.len(),
        ensures
            r == self@[index as int],
    {
        let ghost gl = self.residuals@;
        let ghost orig = self@[index as int] as int;
        let ghost bi = self.levels@.len() as int;
        let n = self.len;
        let b = self.levels.len();
        let mut idx = index;
        let mut acc: u64 = 0;
        let mut t: usize = 0;
        proof {
            lemma_pow2_pos(bi as nat);
            assert(pow2(0) == 1) by {
                vstd::arithmetic::power2::lemma2_to64();
            }
            assert(gl[0][index as int] == self@[index as int]);
            assert(0 <= orig < pow2(bi as nat));
            vstd::arithmetic::div_mod::lemma_fundamental_div_mod_converse(
                orig,
                pow2(bi as nat) as int,
                0,
                orig,
            );
        }
        while t < b
            invariant
                self.wf(),
                gl == self.residuals@,
                bi == self.levels@.len(),
                b == bi,
                n == self.len,
                t <= b,
                idx < n,
                0 <= orig < pow2(bi as nat),
                orig == self@[index as int],
                index < n,
                gl[t as int][idx as int] as int == orig % (pow2((bi - t) as nat) as int),
                acc as int == orig / (pow2((bi - t) as nat) as int),
                acc < pow2(t as nat),
            decreases b - t,
        {
            let ghost w = (bi - 1 - t) as nat;
            let ghost cur = gl[t as int];
            let ghost rt = cur[idx as int];
            let ghost idx0 = idx as int;
            let level = &self.levels[t];
            proof {
                lemma_pow2_pos(w);
                lemma_pow2_pos((bi - t) as nat);
                lemma_pow2_pos(t as nat);
                assert((bi - t) as nat == w + 1);
                lemma_split_value(rt, w);
                lemma_descend_step(orig, w);
                lemma_rank_counts_kinds(level.content.content@, cur, w, idx as int);
                lemma_child_in_range(cur, w, idx as int);
                assert(seq_bit(level.content.content@, idx as int) == word_bit(rt, w as int));
                // The accumulator stays below the machine word.
                if t as nat <= 63 {
                    if (t as nat) < 63 {
                        vstd::arithmetic::power2::lemma_pow2_strictly_increases(t as nat, 63);
                    }
                    assert(pow2(63) == 0x8000000000000000) by {
                        vstd::arithmetic::power2::lemma2_to64_rest();
                    }
                }
            }
            let bit = crate::bitv::get_bit(&level.content.content, idx);
            if bit {
                idx = level.content.rank(idx) + level.number_of_zeros;
                acc = acc * 2 + 1;
            } else {
                idx = level.content.rank0(idx);
                acc = acc * 2;
            }
            t = t + 1;
            proof {
                assert(idx as int == child_index(cur, w, idx0));
                assert(gl[t as int][idx as int] == low_bits(rt, w));
                // The residual keeps the value's low bits and the
                // accumulator extends its high bits by the level's bit.
                assert(low_bits(rt, w) == orig % (pow2(w) as int));
                assert(word_bit(rt, w as int) == ((orig / (pow2(w) as int)) % 2 == 1)) by {
                    assert(rt as int == orig % (pow2(w + 1) as int));
                    assert(rt as int / (pow2(w) as int) == (orig / (pow2(w) as int)) % 2);
                    assert(word_bit(rt, w as int) == (rt as int / (pow2(w) as int) == 1));
                }
                assert(acc as int == orig / (pow2(w) as int));
                assert(pow2(bi as nat) == pow2(w) * pow2(t as nat)) by {
                    lemma_pow2_adds(w, t as nat);
                }
                lemma_pow2_pos(t as nat);
                assert(acc < pow2((t) as nat)) by (nonlinear_arith)
                    requires
                        acc as int == orig / (pow2(w) as int) && 0 <= orig < pow2(bi as nat)
                            && pow2(bi as nat) == pow2(w) * pow2(t as nat) && pow2(w) >= 1 && pow2(
                            t as nat,
                        ) >= 1;
            }
        }
        proof {
            assert(pow2(0) == 1) by {
                vstd::arithmetic::power2::lemma2_to64();
            }
            assert(orig / 1int == orig);
            assert(acc as int == orig);
        }
        acc
    }
}

/// The suffix of a value one bit longer than `w` splits into the value's
/// bit `w` and the value's `w`-bit suffix.
proof fn lemma_suffix_split(value: u64, w: nat)
    requires
        w < 64,
    ensures
        0 <= low_bits(value, w + 1) < pow2(w + 1),
        low_bits(value, w + 1) < 0x10000000000000000,
        word_bit(low_bits(value, w + 1) as u64, w as int) == word_bit(value, w as int),
        low_bits(value, w + 1) % (pow2(w) as int) == low_bits(value, w),
        low_bits(value, w + 1) == (if word_bit(value, w as int) {
            pow2(w) as int
        } else {
            0int
        }) + low_bits(value, w),
        0 <= low_bits(value, w) < pow2(w),
{
    lemma_pow2_pos(w);
    lemma_pow2_pos(w + 1);
    if w + 1 < 64 {
        vstd::arithmetic::power2::lemma_pow2_strictly_increases(w + 1, 64);
    }
    assert(pow2(64) == 0x10000000000000000) by {
        vstd::arithmetic::power2::lemma2_to64_rest();
    }
    vstd::arithmetic::div_mod::lemma_mod_bound(value as int, pow2(w + 1) as int);
    vstd::arithmetic::div_mod::lemma_mod_bound(value as int, pow2(w) as int);
    let wt = low_bits(value, w + 1);
    lemma_descend_step(value as int, w);
    lemma_split_value(wt as u64, w);
    lemma_word_bit_is_parity(value, w);
    assert(wt as int / (pow2(w) as int) == ((value as int) / (pow2(w) as int)) % 2);
    assert((value as int / (pow2(w) as int)) % 2 == 0 || (value as int / (pow2(w) as int)) % 2
        == 1) by (nonlinear_arith);
    assert(word_bit(wt as u64, w as int) == word_bit(value, w as int));
    assert(low_bits(wt as u64, w) == wt % (pow2(w) as int));
}

/// A word's bit is the parity of its shifted-down value.
proof fn lemma_word_bit_is_parity(v: u64, w: nat)
    requires
        w < 64,
    ensures
        word_bit(v, w as int) == (((v as int) / (pow2(w) as int)) % 2 == 1),
{
    lemma_pow2_pos(w);
    vstd::bits::lemma_u64_shr_is_div(v, w as u64);
    vstd::bits::lemma_u64_low_bits_mask_is_mod(v >> (w as u64), 1);
    assert(vstd::bits::low_bits_mask(1) == 1) by {
        vstd::bits::lemma_low_bits_mask_values();
    }
    assert(pow2(1) == 2) by {
        vstd::arithmetic::power2::lemma2_to64();
    }
}

impl WaveletMatrix {
    /// Number of occurrences of the low `bits_per_value` bits of `value`
    /// among the symbols with indices in `[start, end)`.
    fn count_range(&self, start: usize, end: usize, value: u64) -> (r: usize)
        requires
            self.wf(),
            start <= end,
            end <= self@.len(),
        ensures
            r == count_val(
                self@,
                low_bits(value, self.levels@.len() as nat),
                start as int,
                end as int,
            ),
    {
        let ghost gl = self.residuals@;
        let ghost bi = self.levels@.len() as int;
        let ghost target = count_val(self@, low_bits(value, bi as nat), start as int, end as int);
        let n = self.len;
        let b = self.levels.len();
        let mut a = start;
        let mut bnd = end;
        let mut t: usize = 0;
        while t < b
            invariant
                self.wf(),
                gl == self.residuals@,
                bi == self.levels@.len(),
                b == bi,
                n == self.len,
                t <= b,
                a <= bnd <= n,
                count_val(gl[t as int], low_bits(value, (bi - t) as nat), a as int, bnd as int)
                    == target,
            decreases b - t,
        {
            let ghost w = (bi - 1 - t) as nat;
            let ghost cur = gl[t as int];
            let ghost wt = low_bits(value, (bi - t) as nat);
            let level = &self.levels[t];
            proof {
                lemma_pow2_pos(w);
                lemma_pow2_pos(w + 1);
                assert((bi - t) as nat == w + 1);
                lemma_suffix_split(value, w);
                lemma_word_bit_is_parity(value, w);
                lemma_rank_counts_kinds(level.content.content@, cur, w, a as int);
                lemma_rank_counts_kinds(level.content.content@, cur, w, bnd as int);
                lemma_rank_counts_kinds(level.content.content@, cur, w, n as int);
                lemma_partition_counts(
                    cur,
                    gl[t as int + 1],
                    w,
                    wt,
                    a as int,
                    bnd as int,
                );
                lemma_map_index_bounds(cur, w, a as int, bnd as int, word_bit(value, w as int));
                lemma_map_index_bounds(
                    cur,
                    w,
                    bnd as int,
                    cur.len() as int,
                    word_bit(value, w as int),
                );
                lemma_count_kind_total(cur, w, n as int);
            }
            let bit = (value >> ((b - 1 - t) as u64)) & 1 == 1;
            if bit {
                let z = level.number_of_zeros;
                a = kind_rank_upto(&level.content, a, true) + z;
                bnd = kind_rank_upto(&level.content, bnd, true) + z;
            } else {
                a = kind_rank_upto(&level.content, a, false);
                bnd = kind_rank_upto(&level.content, bnd, false);
            }
            t = t + 1;
            proof {
                assert(low_bits(value, (bi - t) as nat) == wt % (pow2(w) as int));
            }
        }
        proof {
            assert(pow2(0) == 1) by {
                vstd::arithmetic::power2::lemma2_to64();
            }
            assert(low_bits(value, 0) == 0);
            lemma_count_val_zeros(gl[bi], a as int, bnd as int);
        }
        bnd - a
    }

    /// Number of occurrences of the low `bits_per_value` bits of `value`
    /// among the symbols with indices in `range`, or `None` if the range
    /// reaches past the sequence.
    pub fn try_count_in_range(&self, range: core::ops::Range<usize>, value: u64) -> (r: Option<
        usize,
    >)
        requires
            self.wf(),
            range.start <= range.end,
        ensures
            match r {
                Some(c) => range.end <= self@.len() && c == count_val(
                    self@,
                    low_bits(value, self.levels@.len() as nat),
                    range.start as int,
                    range.end as int,
                ),
                None => range.end > self@.len(),
            },
    {
        if self.len < range.end {
            return None;
        }
        Some(self.count_range(range.start, range.end, value))
    }

    /// Number of occurrences of the low `bits_per_value` bits of `value`
    /// among the first `index` symbols, or `None` if `index` reaches past
    /// the sequence.
    pub fn try_rank(&self, index: usize, value: u64) -> (r: Option<usize>)
        requires
            self.wf(),
        ensures
            match r {
                Some(c) => index <= self@.len() && c == count_val(
                    self@,
                    low_bits(value, self.levels@.len() as nat),
                    0,
                    index as int,
                ),
                None => index > self@.len(),
            },
    {
        if self.len < index {
            return None;
        }
        Some(self.count_range(0, index, value))
    }

    /// Start of the region that the occurrences of `value`'s remaining
    /// suffix occupy at `depth`, reached by mapping the full range start
    /// down through the levels along `value`'s bits.
    pub open spec fn region_start(&self, value: u64, depth: nat) -> int
        decreases depth,
    {
        if depth == 0 {
            0
        } else {
            let t = (depth - 1) as nat;
            let b = self.levels@.len() as nat;
            let w = (b - 1 - t) as nat;
            map_index(
                self.residuals@[t as int],
                w,
                self.region_start(value, t),
                word_bit(value, w as int),
            )
        }
    }

    /// Recursive select: finds the position, in the residual sequence at
    /// `depth`, of the occurrence of `value`'s remaining suffix that has
    /// `k` occurrences between the region start `index` and it, then maps
    /// it back up one level per return.
    fn sel(&self, k: usize, value: u64, index: usize, depth: usize) -> (r: Option<usize>)
        requires
            self.wf(),
            depth <= self.levels@.len(),
            index as int == self.region_start(value, depth as nat),
            index <= self@.len(),
        ensures
            match r {
                Some(p) => index <= p < self@.len() && self.residuals@[depth as int][p as int]
                    as int == low_bits(value, (self.levels@.len() - depth) as nat) && count_val(
                    self.residuals@[depth as int],
                    low_bits(value, (self.levels@.len() - depth) as nat),
                    index as int,
                    p as int,
                ) == k,
                None => k >= count_val(
                    self.residuals@[depth as int],
                    low_bits(value, (self.levels@.len() - depth) as nat),
                    index as int,
                    self@.len() as int,
                ),
            },
        decreases self.levels@.len() - depth,
    {
        let ghost gl = self.residuals@;
        let ghost bi = self.levels@.len() as int;
        let n = self.len;
        let b = self.levels.len();
        if depth == b {
            proof {
                assert(pow2(0) == 1) by {
                    vstd::arithmetic::power2::lemma2_to64();
                }
                assert(low_bits(value, 0) == 0);
            }
            if k < n - index {
                proof {
                    lemma_count_val_zeros(gl[bi], index as int, (index + k) as int);
                }
                return Some(index + k);
            }
            proof {
                lemma_count_val_zeros(gl[bi], index as int, n as int);
            }
            return None;
        }
        let ghost w = (bi - 1 - depth) as nat;
        let ghost cur = gl[depth as int];
        let ghost wt = low_bits(value, (bi - depth) as nat);
        let ghost beta = word_bit(value, w as int);
        let level = &self.levels[depth];
        proof {
            lemma_pow2_pos(w);
            lemma_pow2_pos(w + 1);
            assert((bi - depth) as nat == w + 1);
            lemma_suffix_split(value, w);
            lemma_word_bit_is_parity(value, w);
            assert(word_bit(wt as u64, w as int) == beta);
            lemma_rank_counts_kinds(level.content.content@, cur, w, index as int);
            lemma_rank_counts_kinds(level.content.content@, cur, w, n as int);
            lemma_map_index_bounds(cur, w, index as int, n as int, beta);
            lemma_count_kind_total(cur, w, n as int);
            lemma_partition_counts(cur, gl[depth as int + 1], w, wt, index as int, n as int);
            assert(low_bits(value, w) == wt % (pow2(w) as int));
        }
        let bit = (value >> ((b - 1 - depth) as u64)) & 1 == 1;
        let z = level.number_of_zeros;
        let child = if bit {
            kind_rank_upto(&level.content, index, true) + z
        } else {
            kind_rank_upto(&level.content, index, false)
        };
        let inner = self.sel(k, value, child, depth + 1);
        let pp = match inner {
            Some(pp) => pp,
            None => {
                proof {
                    lemma_count_val_monotone(
                        gl[depth as int + 1],
                        low_bits(value, w),
                        child as int,
                        map_index(cur, w, n as int, beta),
                        n as int,
                    );
                }
                return None;
            },
        };
        let ghost words = level.content.content@;
        if bit {
            // Climb back through the one-partition: the parent is the bit
            // whose one-rank equals the child offset.
            proof {
                lemma_rank_counts_kinds(words, cur, w, n as int);
                assert(rank_of(words, 64 * words.len() as int) == count_kind(
                    cur,
                    w,
                    n as int,
                    true,
                ));
                assert(pp - z < count_kind(cur, w, n as int, true));
            }
            let q = match level.content.try_select(pp - z) {
                Some(q) => q,
                None => {
                    proof {
                        assert(false);
                    }
                    return None;
                },
            };
            proof {
                self.lemma_climb(depth as int, q as int, pp as int, k as int, value, true,
                    index as int);
            }
            Some(q)
        } else {
            if pp >= z {
                // The child position fell in the one-partition, so fewer
                // than `k + 1` occurrences remain on the zero side.
                proof {
                    lemma_count_val_monotone(
                        gl[depth as int + 1],
                        low_bits(value, w),
                        child as int,
                        map_index(cur, w, n as int, beta),
                        pp as int,
                    );
                }
                return None;
            }
            proof {
                lemma_rank_counts_kinds(words, cur, w, n as int);
                lemma_rank_totality(words, 64 * words.len() as int);
                lemma_rank_totality(words, n as int);
                lemma_rank_monotone(words, n as int, 64 * words.len() as int);
                assert(rank0_of(words, n as int) == count_kind(cur, w, n as int, false));
                assert(pp < rank0_of(words, 64 * words.len() as int));
            }
            let q = match level.content.try_select0(pp) {
                Some(q) => q,
                None => {
                    proof {
                        assert(false);
                    }
                    return None;
                },
            };
            proof {
                self.lemma_climb(depth as int, q as int, pp as int, k as int, value, false,
                    index as int);
            }
            Some(q)
        }
    }

    /// Climbing one level: the bit position found by the level's select
    /// is the parent of the child position `pp`, so it carries the same
    /// suffix occurrence and the same occurrence count from the region
    /// start.
    proof fn lemma_climb(
        &self,
        depth: int,
        q: int,
        pp: int,
        k: int,
        value: u64,
        beta: bool,
        index: int,
    )
        requires
            self.wf(),
            0 <= depth < self.levels@.len(),
            ({
                let bi = self.levels@.len() as int;
                let w = (bi - 1 - depth) as nat;
                let cur = self.residuals@[depth];
                let n = self@.len() as int;
                let words = self.levels@[depth].content.content@;
                let z = count_kind(cur, w, n, false);
                &&& 0 <= index <= n
                &&& index as int == self.region_start(value, depth as nat)
                &&& word_bit(value, w as int) == beta
                &&& 0 <= q < 64 * words.len()
                &&& (beta ==> seq_bit(words, q) && rank_of(words, q) == pp - z && z <= pp)
                &&& (!beta ==> !seq_bit(words, q) && rank0_of(words, q) == pp && pp < z)
                &&& map_index(cur, w, index, beta) <= pp < n
                &&& self.residuals@[depth + 1][pp] as int == low_bits(
                    value,
                    (bi - depth - 1) as nat,
                )
                &&& count_val(
                    self.residuals@[depth + 1],
                    low_bits(value, (bi - depth - 1) as nat),
                    map_index(cur, w, index, beta),
                    pp,
                ) == k
            }),
        ensures
            ({
                let bi = self.levels@.len() as int;
                let w = (bi - 1 - depth) as nat;
                &&& index <= q < self@.len()
                &&& self.residuals@[depth][q] as int == low_bits(value, (bi - depth) as nat)
                &&& count_val(
                    self.residuals@[depth],
                    low_bits(value, (bi - depth) as nat),
                    index,
                    q,
                ) == k
            }),
    {
        let bi = self.levels@.len() as int;
        let w = (bi - 1 - depth) as nat;
        let cur = self.residuals@[depth];
        let next = self.residuals@[depth + 1];
        let n = self@.len() as int;
        let words = self.levels@[depth].content.content@;
        let z = count_kind(cur, w, n, false);
        let wt = low_bits(value, (bi - depth) as nat);
        lemma_pow2_pos(w);
        lemma_pow2_pos(w + 1);
        assert((bi - depth) as nat == w + 1);
        lemma_suffix_split(value, w);
        lemma_word_bit_is_parity(value, w);
        assert(word_bit(wt as u64, w as int) == beta);
        lemma_rank_counts_kinds(words, cur, w, n);
        lemma_rank_totality(words, n);
        // The select result lies inside the sequence: ranks past it would
        // otherwise exceed the level's totals.
        if q >= n {
            lemma_rank_monotone(words, n, q);
            lemma_rank_totality(words, q);
            if beta {
                lemma_count_kind_total(cur, w, n);
                assert(rank_of(words, q) >= rank_of(words, n));
                assert(rank_of(words, q) == pp - z < n - z);
                assert(seq_bit(words, q) && rank_of(words, q) == pp - z);
                assert(rank_of(words, q + 1) == pp - z + 1);
                lemma_rank_monotone(words, q + 1, 64 * words.len() as int);
                assert(rank_of(words, 64 * words.len() as int) == count_kind(cur, w, n, true));
                lemma_count_kind_total(cur, w, n);
                assert(false);
            } else {
                assert(rank0_of(words, q) >= rank0_of(words, n));
                assert(false);
            }
        }
        // The parent index: its kind-rank matches the child offset.
        let qk = if beta {
            count_kind(cur, w, q, true)
        } else {
            count_kind(cur, w, q, false)
        };
        lemma_rank_counts_kinds(words, cur, w, q);
        assert(word_bit(cur[q], w as int) == beta);
        assert(child_index(cur, w, q) == pp);
        assert(next[pp] as int == low_bits(cur[q], w));
        // Same bit and same low bits mean the same suffix.
        assert((cur[q] as int) < pow2(w + 1));
        lemma_split_value(cur[q], w);
        assert(low_bits(cur[q], w) == low_bits(value, w));
        assert(wt == (if beta {
            pow2(w) as int
        } else {
            0int
        }) + low_bits(value, w));
        assert(cur[q] as int == wt);
        // The parent lies at or after the region start.
        if q < index {
            lemma_count_kind_bounds(cur, w, q + 1, index);
            assert(count_kind(cur, w, q + 1, word_bit(cur[q], w as int)) == count_kind(
                cur,
                w,
                q,
                word_bit(cur[q], w as int),
            ) + 1);
            assert(map_index(cur, w, index, beta) > pp);
            assert(false);
        }
        // The occurrence count transfers through the partition.
        lemma_map_index_bounds(cur, w, index, q, beta);
        assert(map_index(cur, w, q, beta) == pp);
        lemma_partition_counts(cur, next, w, wt, index, q);
    }

    /// Position of the `k`-th occurrence of the low `bits_per_value` bits
    /// of `value`, or `None` if the symbol occurs at most `k` times.
    pub fn try_select(&self, k: usize, value: u64) -> (r: Option<usize>)
        requires
            self.wf(),
        ensures
            match r {
                Some(p) => p < self@.len() && self@[p as int] as int == low_bits(
                    value,
                    self.levels@.len() as nat,
                ) && count_val(
                    self@,
                    low_bits(value, self.levels@.len() as nat),
                    0,
                    p as int,
                ) == k,
                None => k >= count_val(
                    self@,
                    low_bits(value, self.levels@.len() as nat),
                    0,
                    self@.len() as int,
                ),
            },
    {
        let r = self.sel(k, value, 0, 0);
        proof {
            if r is Some {
                let p = r->0;
                assert(self.residuals@[0][p as int] == self@[p as int]);
            }
        }
        r
    }

    /// Position of the `k`-th occurrence of the low `bits_per_value` bits
    /// of `value`; the symbol must occur more than `k` times.
    pub fn select(&self, k: usize, value: u64) -> (r: usize)
        requires
            self.wf(),
            k < count_val(self@, low_bits(value, self.levels@.len() as nat), 0, self@.len() as int),
        ensures
            r < self@.len(),
            self@[r as int] as int == low_bits(value, self.levels@.len() as nat),
            count_val(self@, low_bits(value, self.levels@.len() as nat), 0, r as int) == k,
    {
        match self.try_select(k, value) {
            Some(p) => p,
            None => {
                proof {
                    assert(false);
                }
                0
            },
        }
    }
}

/// Heap bytes held by a prefix of the levels.
pub open spec fn levels_dyn_bytes(levels: Seq<WaveletMatrixLevel>) -> int
    decreases levels.len(),
{
    if levels.len() == 0 {
        0
    } else {
        levels_dyn_bytes(levels.drop_last()) + levels.last().content.dyn_bytes()
    }
}

impl WaveletMatrix {
    /// Heap bytes held by all levels.
    pub open spec fn dyn_bytes(&self) -> int {
        levels_dyn_bytes(self.levels@)
    }

    /// Returns the number of heap bytes the structure holds.
    pub fn size_bytes_dyn(&self) -> (r: usize)
        requires
            self.wf(),
        ensures
            r == self.dyn_bytes(),
    {
        let ghost n = self.len as int;
        let mut acc: usize = 0;
        let mut t: usize = 0;
        while t < self.levels.len()
            invariant
                self.wf(),
                n == self.len,
                t <= self.levels@.len(),
                acc == levels_dyn_bytes(self.levels@.subrange(0, t as int)),
                acc <= (t as int) * (n + 64),
            decreases self.levels@.len() - t,
        {
            let level_bytes = self.levels[t].content.size_bytes_dyn();
            proof {
                self.levels@[t as int].content.lemma_dyn_bytes_fit();
                let w = self.levels@[t as int].content.content@.len() as int;
                let lb = self.levels@[t as int].content.dyn_bytes();
                assert(lb <= n + 64) by (nonlinear_arith)
                    requires lb <= 32 * w + 32 && 64 * w <= n + 64 && w >= 0 && n >= 0;
                assert(((t as int) + 1) * (n + 64) == (t as int) * (n + 64) + (n + 64))
                    by (nonlinear_arith);
                assert(((t as int) + 1) * (n + 64) <= 64 * (n + 64)) by (nonlinear_arith)
                    requires (t as int) + 1 <= 64 && n >= 0;
                assert(self.levels@.subrange(0, t as int + 1).drop_last() =~= self.levels@.subrange(
                    0,
                    t as int,
                ));
                assert(self.levels@.subrange(0, t as int + 1).last() == self.levels@[t as int]);
            }
            acc = acc + level_bytes;
            t = t + 1;
        }
        proof {
            assert(self.levels@.subrange(0, self.levels@.len() as int) =~= self.levels@);
        }
        acc
    }
}

/// Rank/select inversion for the wavelet matrix: the position of the
/// `k`-th occurrence of a symbol, where `k` counts the occurrences before
/// some index `i`, lies at or after `i`; and an occurrence position is
/// recovered exactly by the count of occurrences before it.
pub proof fn lemma_wm_select_after_rank(s: Seq<u64>, w: int, i: int, p: int)
    requires
        0 <= i <= s.len(),
        0 <= p < s.len(),
        s[p] == w,
        count_val(s, w, 0, p) == count_val(s, w, 0, i),
    ensures
        p >= i,
{
    if p < i {
        lemma_count_val_monotone(s, w, 0, p + 1, i);
    }
}

/// Reduces a symbol to its low `w` bits.
fn mask_low(v: u64, w: u8) -> (r: u64)
    requires
        1 <= w <= 64,
    ensures
        r as int == (v as int) % (pow2(w as nat) as int),
{
    if w == 64 {
        proof {
            lemma_pow2_pos(64);
            assert(pow2(64) == 0x10000000000000000) by {
                vstd::arithmetic::power2::lemma2_to64_rest();
            }
            vstd::arithmetic::div_mod::lemma_small_mod(v as nat, pow2(64));
        }
        v
    } else {
        proof {
            lemma_pow2_pos(w as nat);
        }
        let m = crate::bits::pow2_u64(w) - 1;
        proof {
            vstd::bits::lemma_u64_low_bits_mask_is_mod(v, w as nat);
            assert((pow2(w as nat) - 1) as u64 == vstd::bits::low_bits_mask(w as nat) as u64);
        }
        v & m
    }
}

} // verus!
