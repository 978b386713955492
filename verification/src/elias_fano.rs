//! Elias-Fano representation of a non-decreasing sequence of integers.
//!
//! Each stored value `v` splits into an upper part `v >> l` and a lower
//! part `v & (2^l - 1)`, with `l` chosen from the declared universe and
//! length.  The lower parts sit in a bit-packed vector of `l`-bit fields;
//! the upper parts are inverse-unary coded in a bit array `hi`: the bit at
//! position `(v_i >> l) + i` is set for the `i`-th value.  A rank/select
//! directory over `hi` gives random access, and a select-zero gives
//! predecessor/successor queries.

use vstd::arithmetic::power2::{lemma_pow2_adds, lemma_pow2_pos, pow2};
use vstd::prelude::*;

use crate::bits::{
    pow2_u64, lemma_rank_after_set, lemma_rank_bounds, lemma_rank_constant_means_zero, lemma_rank_monotone,
    lemma_rank_totality, lemma_select_of_rank, lemma_select_unique, rank0_of, rank_of, seq_bit,
};
use crate::bitv::{
    bits_value, fragment_value, get_bit, get_fragment, init_successive_bits,
    lemma_bits_value_frame, set_bit, with_zeroed_words, words_for_bits,
};
use crate::rank_select::{ArrayWithRankSelect101111, SelectStrategy};

verus! {

/// Bit position in the upper stream that encodes value `i`: the value's
/// upper part plus its index.
pub open spec fn hi_pos(vals: Seq<u64>, l: int, i: int) -> int {
    i + (vals[i] as int) / (pow2(l as nat) as int)
}

/// The sequence is non-decreasing.
pub open spec fn non_decreasing(vals: Seq<u64>) -> bool {
    forall|i: int, j: int| 0 <= i <= j < vals.len() ==> vals[i] <= vals[j]
}

/// The upper stream `hi` and the lower stream `lo` encode `vals` with
/// `l`-bit lower parts: value `i` has its upper-stream bit set at
/// `hi_pos` with exactly `i` ones before it, the upper stream holds no
/// further ones, and lower-stream field `i` holds the value's low bits.
pub open spec fn encodes(hi: Seq<u64>, lo: Seq<u64>, l: int, vals: Seq<u64>) -> bool {
    let n = vals.len() as int;
    &&& forall|i: int| 0 <= i < n ==> seq_bit(hi, #[trigger] hi_pos(vals, l, i))
    &&& forall|i: int| 0 <= i < n ==> rank_of(hi, #[trigger] hi_pos(vals, l, i)) == i
    &&& forall|i: int| 0 <= i < n ==> #[trigger] hi_pos(vals, l, i) < 64 * hi.len()
    &&& rank_of(hi, 64 * hi.len() as int) == n
    &&& forall|i: int|
        0 <= i < n ==> #[trigger] fragment_value(lo, i, l) == (vals[i] as int) % (pow2(
            l as nat,
        ) as int)
}

/// Floor of the base-two logarithm.
fn floor_log2(x: u64) -> (r: u8)
    requires
        x >= 1,
    ensures
        r < 64,
        pow2(r as nat) <= x < pow2(r as nat + 1),
{
    let mut v = x;
    let mut r: u8 = 0;
    proof {
        vstd::arithmetic::power2::lemma2_to64();
        vstd::arithmetic::power2::lemma2_to64_rest();
    }
    while v >= 2
        invariant
            1 <= v,
            r < 64,
            v as int == x as int / (pow2(r as nat) as int),
            pow2(r as nat) <= x,
        decreases v,
    {
        proof {
            lemma_pow2_pos(r as nat);
            lemma_pow2_adds(r as nat, 1);
            vstd::arithmetic::power2::lemma2_to64();
            vstd::arithmetic::div_mod::lemma_div_denominator(
                x as int,
                pow2(r as nat) as int,
                2,
            );
            assert(pow2(r as nat + 1) <= x) by (nonlinear_arith)
                requires
                    v as int == x as int / (pow2(r as nat) as int) && v >= 2 && pow2(r as nat + 1)
                        == 2 * pow2(r as nat) && pow2(r as nat) >= 1;
            assert(r as nat + 1 < 64) by {
                if r as nat + 1 >= 64 {
                    vstd::arithmetic::power2::lemma_pow2_strictly_increases(
                        64,
                        r as nat + 1,
                    );
                    assert(pow2(64) == 0x10000000000000000);
                    assert(false);
                }
            }
        }
        v = v / 2;
        r = r + 1;
    }
    proof {
        lemma_pow2_pos(r as nat);
        lemma_pow2_adds(r as nat, 1);
        vstd::arithmetic::div_mod::lemma_fundamental_div_mod(x as int, pow2(r as nat) as int);
        assert(x < pow2(r as nat + 1)) by (nonlinear_arith)
            requires
                x as int / (pow2(r as nat) as int) == 1 && x as int == (pow2(r as nat) as int) * (
                x as int / (pow2(r as nat) as int)) + (x as int) % (pow2(r as nat) as int) && 0
                    <= (x as int) % (pow2(r as nat) as int) < pow2(r as nat) && pow2(
                    r as nat + 1,
                ) == 2 * pow2(r as nat);
    }
    r
}

/// Builds a [`Sequence`] from values pushed in non-decreasing order.
///
/// The builder is constructed for a declared number of values and an
/// exclusive upper bound (the universe); once every declared value has
/// been pushed, [`Builder::finish`] turns it into a queryable sequence.
pub struct Builder {
    /// Upper-part stream under construction (inverse-unary coded).
    pub hi: Vec<u64>,
    /// Lower-part stream under construction (`bits_per_lo`-bit fields).
    pub lo: Vec<u64>,
    /// Width of one lower-part field.
    pub bits_per_lo: u8,
    /// Number of values pushed so far.
    pub current_len: usize,
    /// Declared number of values.
    pub target_len: usize,
    /// The most recently pushed value, or zero before the first push.
    pub last_added: u64,
    /// Exclusive upper bound on every pushed value.
    pub universe: u64,
    /// The values pushed so far.
    pub values: Ghost<Seq<u64>>,
}

impl View for Builder {
    type V = Seq<u64>;

    open spec fn view(&self) -> Seq<u64> {
        self.values@
    }
}

impl Builder {
    /// Structural invariant of a builder under construction.
    pub open spec fn wf(&self) -> bool {
        let vals = self.values@;
        let l = self.bits_per_lo as int;
        let n = vals.len() as int;
        &&& l < 64
        &&& n == self.current_len as int
        &&& self.current_len <= self.target_len
        &&& 64 * self.hi@.len() + 65536 <= usize::MAX
        &&& 64 * self.lo@.len() <= usize::MAX
        &&& (self.target_len as int) * l <= 64 * self.lo@.len()
        &&& (self.target_len > 0 ==> self.universe > 0)
        &&& (self.target_len > 0 ==> (self.target_len - 1) + ((self.universe - 1) as int) / (
        pow2(l as nat) as int) < 64 * self.hi@.len())
        &&& non_decreasing(vals)
        &&& forall|i: int| 0 <= i < n ==> (#[trigger] vals[i]) < self.universe
        &&& (n > 0 ==> self.last_added == vals[n - 1])
        &&& (n == 0 ==> self.last_added == 0)
        &&& encodes(self.hi@, self.lo@, l, vals)
        &&& forall|j: int| n * l <= j < 64 * self.lo@.len() ==> !seq_bit(self.lo@, j)
    }

    /// Returns the declared universe; every pushed value must be below it.
    pub fn universe(&self) -> (r: u64)
        ensures
            r == self.universe,
    {
        self.universe
    }

    /// Returns the number of values pushed so far.
    pub fn current_len(&self) -> (r: usize)
        ensures
            r == self.current_len,
    {
        self.current_len
    }

    /// Returns the declared number of values.
    pub fn target_len(&self) -> (r: usize)
        ensures
            r == self.target_len,
    {
        self.target_len
    }

    /// Returns the most recently pushed value (zero before any push).
    pub fn last_added(&self) -> (r: u64)
        ensures
            r == self.last_added,
    {
        self.last_added
    }

    /// Constructs a builder for `final_len` values below `universe`.
    /// When either is zero the builder is complete immediately and yields
    /// an empty sequence.
    pub fn new(final_len: usize, universe: u64) -> (r: Builder)
        requires
            final_len <= usize::MAX / 640,
        ensures
            r.wf(),
            r@ == Seq::<u64>::empty(),
            r.universe == universe,
            r.current_len == 0,
            r.last_added == 0,
            r.target_len == (if final_len == 0 || universe == 0 {
                0int
            } else {
                final_len as int
            }),
            (final_len > 0 && universe > 0 && universe >= final_len) ==> (pow2(
                r.bits_per_lo as nat,
            ) <= (universe as int) / (final_len as int) && (universe as int) / (
            final_len as int) < pow2(r.bits_per_lo as nat + 1)),
            (final_len > 0 && universe > 0 && universe < final_len) ==> r.bits_per_lo == 0,
    {
        if final_len == 0 || universe == 0 {
            let r = Builder {
                hi: Vec::new(),
                lo: Vec::new(),
                bits_per_lo: 0,
                current_len: 0,
                target_len: 0,
                last_added: 0,
                universe,
                values: Ghost(Seq::empty()),
            };
            proof {
                vstd::arithmetic::power2::lemma2_to64();
                assert(r.hi@.len() == 0 && r.lo@.len() == 0);
                assert(rank_of(r.hi@, 0) == 0);
            }
            return r;
        }
        let q = universe / (final_len as u64);
        let bits_per_lo: u8 = if q == 0 {
            0
        } else {
            floor_log2(q)
        };
        let ghost l = bits_per_lo as nat;
        proof {
            vstd::arithmetic::power2::lemma2_to64();
            lemma_pow2_pos(l);
            lemma_pow2_adds(l, 1);
            vstd::arithmetic::div_mod::lemma_fundamental_div_mod(
                universe as int,
                final_len as int,
            );
            // The number of distinct upper parts is below twice the
            // declared length, so the upper stream needs fewer than
            // three bits per value.
            assert((universe - 1) as int / (pow2(l) as int) < 2 * final_len) by (nonlinear_arith)
                requires
                    universe >= 1 && final_len >= 1 && pow2(l) >= 1 && universe as int == (
                    final_len as int) * (q as int) + (universe as int) % (final_len as int) && 0
                        <= (universe as int) % (final_len as int) < final_len as int && (q == 0
                        ==> pow2(l) == 1) && (q >= 1 ==> (q < pow2(l + 1) && pow2(l + 1) == 2
                        * pow2(l)));
            vstd::bits::lemma_u64_shr_is_div((universe - 1) as u64, bits_per_lo as u64);
            assert(final_len * (bits_per_lo as int) <= 63 * final_len) by (nonlinear_arith)
                requires bits_per_lo < 64 && final_len >= 0;
        }
        let hi_extra = ((universe - 1) >> (bits_per_lo as u64)) as usize;
        let hi_bits = final_len + hi_extra;
        let lo_bits_raw = final_len * (bits_per_lo as usize);
        let lo_bits = if lo_bits_raw == 0 {
            1
        } else {
            lo_bits_raw
        };
        let hi = with_zeroed_words(words_for_bits(hi_bits));
        let lo = with_zeroed_words(words_for_bits(lo_bits));
        let r = Builder {
            hi,
            lo,
            bits_per_lo,
            current_len: 0,
            target_len: final_len,
            last_added: 0,
            universe,
            values: Ghost(Seq::empty()),
        };
        proof {
            lemma_select_of_rank(r.hi@, 0, 64 * r.hi@.len() as int);
            assert(rank_of(r.hi@, 64 * r.hi@.len() as int) == 0);
            assert((universe >= final_len ==> q >= 1) && (universe < final_len ==> q == 0))
                by (nonlinear_arith)
                requires
                    universe as int == (final_len as int) * (q as int) + (universe as int) % (
                    final_len as int) && 0 <= (universe as int) % (final_len as int) < (
                    final_len as int) && final_len >= 1 && q >= 0;
        }
        r
    }

    /// Pushes a value onto the sequence.  The value must be at least the
    /// previously pushed value, below the universe, and within the
    /// declared length.
    pub fn push(&mut self, value: u64)
        requires
            old(self).wf(),
            value < old(self).universe,
            old(self).last_added <= value,
            old(self).current_len < old(self).target_len,
        ensures
            final(self).wf(),
            final(self)@ == old(self)@.push(value),
            final(self).universe == old(self).universe,
            final(self).target_len == old(self).target_len,
            final(self).current_len == old(self).current_len + 1,
            final(self).last_added == value,
            final(self).bits_per_lo == old(self).bits_per_lo,
    {
        let ghost vals0 = self.values@;
        let ghost l = self.bits_per_lo as int;
        let ghost p2l = pow2(l as nat) as int;
        let ghost hi0 = self.hi@;
        let cur = self.current_len;
        let lw = self.bits_per_lo as u64;
        proof {
            lemma_pow2_pos(l as nat);
            vstd::bits::lemma_u64_shr_is_div(value, lw);
            assert((value as int) / p2l <= ((self.universe - 1) as int) / p2l) by {
                vstd::arithmetic::div_mod::lemma_div_is_ordered(
                    value as int,
                    (self.universe - 1) as int,
                    p2l,
                );
            }
        }
        let h = (value >> lw) as usize;
        let q = h + cur;
        let ghost qi = q as int;
        proof {
            // The new upper-stream position lies past every existing one
            // and is still clear.
            assert(qi < 64 * hi0.len());
            if cur > 0 {
                let ghost prev = hi_pos(vals0, l, cur as int - 1);
                assert(vals0[cur as int - 1] <= value);
                vstd::arithmetic::div_mod::lemma_div_is_ordered(
                    vals0[cur as int - 1] as int,
                    value as int,
                    p2l,
                );
                assert(prev < qi);
                assert(rank_of(hi0, prev + 1) == cur as int);
                lemma_rank_monotone(hi0, prev + 1, qi);
                lemma_rank_monotone(hi0, qi, 64 * hi0.len() as int);
                assert(rank_of(hi0, qi) == cur as int);
            } else {
                lemma_rank_bounds(hi0, qi);
                lemma_rank_monotone(hi0, qi, 64 * hi0.len() as int);
                assert(rank_of(hi0, qi) == 0);
            }
            lemma_rank_constant_means_zero(hi0, qi, 64 * hi0.len() as int, qi);
        }
        set_bit(&mut self.hi, q);
        proof {
            let hi1 = self.hi@;
            assert forall|i: int| 0 <= i <= 64 * hi1.len() implies rank_of(hi1, i) == rank_of(
                hi0,
                i,
            ) + (if i > qi {
                1int
            } else {
                0int
            }) by {
                lemma_rank_after_set(hi0, hi1, qi, i);
            }
        }
        proof {
            assert((cur as int) * l + l <= (self.target_len as int) * l) by (nonlinear_arith)
                requires (cur as int) + 1 <= self.target_len as int && l >= 0;
            assert((cur as int) * l + l <= 64 * self.lo@.len());
        }
        let mut cursor = cur * (self.bits_per_lo as usize);
        init_successive_bits(&mut self.lo, &mut cursor, value, self.bits_per_lo as usize);
        self.current_len = cur + 1;
        self.last_added = value;
        proof {
            self.values = Ghost(vals0.push(value));
        }
        proof {
            let vals1 = self.values@;
            let hi1 = self.hi@;
            let lo1 = self.lo@;
            let n1 = vals1.len() as int;
            vstd::arithmetic::div_mod::lemma_fundamental_div_mod(value as int, p2l);
            assert(hi_pos(vals1, l, cur as int) == qi);
            assert forall|i: int| 0 <= i < n1 implies seq_bit(hi1, #[trigger] hi_pos(vals1, l, i))
                && rank_of(hi1, hi_pos(vals1, l, i)) == i && hi_pos(vals1, l, i) < 64
                * hi1.len() by {
                if i < cur as int {
                    assert(hi_pos(vals1, l, i) == hi_pos(vals0, l, i));
                    vstd::arithmetic::div_mod::lemma_div_is_ordered(
                        vals0[i] as int,
                        value as int,
                        p2l,
                    );
                    assert(hi_pos(vals0, l, i) <= qi);
                }
            }
            assert(rank_of(hi1, 64 * hi1.len() as int) == n1);
            // Lower-stream fields below the cursor are framed by the
            // initializing write; the new field holds the low bits.
            assert forall|i: int| 0 <= i < n1 implies #[trigger] fragment_value(lo1, i, l) == (
            vals1[i] as int) % p2l by {
                if i < cur as int {
                    let tl = old(self).target_len as int;
                    assert((i + 1) * l == i * l + l && (i + 1) * l <= (cur as int) * l && i * l
                        >= 0 && (cur as int) * l <= tl * l) by (nonlinear_arith)
                        requires 0 <= i && i + 1 <= cur as int && l >= 0 && cur as int <= tl;
                    assert(tl * l <= 64 * lo1.len());
                    assert forall|j: int| i * l <= j < i * l + l implies seq_bit(
                        old(self).lo@,
                        j,
                    ) == seq_bit(lo1, j) by {
                        assert(0 <= j < 64 * lo1.len() && !((cur as int) * l <= j < (cur as int)
                            * l + l));
                    }
                    lemma_bits_value_frame(old(self).lo@, lo1, i * l, l);
                    assert(fragment_value(old(self).lo@, i, l) == (vals0[i] as int) % p2l);
                    assert(vals1[i] == vals0[i]);
                    assert(fragment_value(lo1, i, l) == bits_value(lo1, i * l, l));
                    assert(bits_value(old(self).lo@, i * l, l) == fragment_value(
                        old(self).lo@,
                        i,
                        l,
                    ));
                } else {
                    assert(i == cur as int && vals1[i] == value);
                    assert(fragment_value(lo1, cur as int, l) == bits_value(
                        lo1,
                        (cur as int) * l,
                        l,
                    ));
                }
            }
            assert forall|j: int| n1 * l <= j < 64 * lo1.len() implies !seq_bit(lo1, j) by {
                assert(n1 * l == (cur as int) * l + l) by (nonlinear_arith)
                    requires n1 == cur as int + 1 && l >= 0;
            }
            assert(non_decreasing(vals1));
        }
    }

    /// Pushes a value `diff` greater than the previous one (or than zero
    /// before the first push).
    pub fn push_diff(&mut self, diff: u64)
        requires
            old(self).wf(),
            old(self).last_added + diff < old(self).universe,
            old(self).current_len < old(self).target_len,
        ensures
            final(self).wf(),
            final(self)@ == old(self)@.push((old(self).last_added + diff) as u64),
            final(self).universe == old(self).universe,
            final(self).target_len == old(self).target_len,
            final(self).current_len == old(self).current_len + 1,
            final(self).last_added == old(self).last_added + diff,
            final(self).bits_per_lo == old(self).bits_per_lo,
    {
        let v = self.last_added + diff;
        self.push(v);
    }

    /// Pushes every value of `values` in order.
    pub fn push_all(&mut self, values: &Vec<u64>)
        requires
            old(self).wf(),
            old(self).current_len + values.len() <= old(self).target_len,
            forall|i: int| 0 <= i < values.len() ==> (#[trigger] values[i]) < old(self).universe,
            forall|i: int, j: int| 0 <= i <= j < values.len() ==> values[i] <= values[j],
            values.len() > 0 ==> old(self).last_added <= values[0],
        ensures
            final(self).wf(),
            final(self)@ == old(self)@ + values@,
            final(self).universe == old(self).universe,
            final(self).target_len == old(self).target_len,
            final(self).current_len == old(self).current_len + values.len(),
            final(self).bits_per_lo == old(self).bits_per_lo,
    {
        let mut i: usize = 0;
        while i < values.len()
            invariant
                self.wf(),
                i <= values.len(),
                self.universe == old(self).universe,
                self.target_len == old(self).target_len,
                self.bits_per_lo == old(self).bits_per_lo,
                self.current_len == old(self).current_len + i,
                self@ == old(self)@ + values@.subrange(0, i as int),
                old(self).current_len + values.len() <= old(self).target_len,
                forall|k: int| 0 <= k < values.len() ==> (#[trigger] values[k]) < self.universe,
                forall|k: int, j: int| 0 <= k <= j < values.len() ==> values[k] <= values[j],
                i < values.len() ==> self.last_added <= values[i as int],
            decreases values.len() - i,
        {
            self.push(values[i]);
            proof {
                assert(self@ == old(self)@ + values@.subrange(0, i as int + 1)) by {
                    assert(values@.subrange(0, i as int + 1) == values@.subrange(0, i as int).push(
                        values@[i as int],
                    ));
                }
            }
            i = i + 1;
        }
        proof {
            assert(values@.subrange(0, values.len() as int) == values@);
        }
    }
}

/// The value reached after adding the first `i` differences to `base`.
pub open spec fn diff_value(base: int, diffs: Seq<u64>, i: int) -> int
    decreases i,
{
    if i <= 0 {
        base
    } else {
        diff_value(base, diffs, i - 1) + diffs[i - 1]
    }
}

/// Partial difference sums grow with the number of differences taken.
pub proof fn lemma_diff_value_monotone(base: int, diffs: Seq<u64>, i: int, j: int)
    requires
        0 <= i <= j,
    ensures
        base <= diff_value(base, diffs, i) <= diff_value(base, diffs, j),
    decreases j,
{
    if j > 0 {
        if i < j {
            lemma_diff_value_monotone(base, diffs, i, j - 1);
        } else {
            lemma_diff_value_monotone(base, diffs, 0, j - 1);
        }
    }
}

impl Builder {
    /// Pushes, for each difference in order, a value that much greater
    /// than the previous one (starting from the last pushed value, or
    /// zero).
    pub fn push_diffs(&mut self, diffs: &Vec<u64>)
        requires
            old(self).wf(),
            old(self).current_len + diffs.len() <= old(self).target_len,
            diff_value(old(self).last_added as int, diffs@, diffs.len() as int) < old(self).universe,
        ensures
            final(self).wf(),
            final(self)@.len() == old(self)@.len() + diffs.len(),
            forall|k: int| 0 <= k < old(self)@.len() ==> final(self)@[k] == old(self)@[k],
            forall|k: int|
                0 <= k < diffs.len() ==> final(self)@[old(self)@.len() + k] == #[trigger] diff_value(
                    old(self).last_added as int,
                    diffs@,
                    k + 1,
                ),
            final(self).universe == old(self).universe,
            final(self).target_len == old(self).target_len,
            final(self).current_len == old(self).current_len + diffs.len(),
            final(self).bits_per_lo == old(self).bits_per_lo,
    {
        let ghost base = old(self).last_added as int;
        let mut i: usize = 0;
        while i < diffs.len()
            invariant
                self.wf(),
                i <= diffs.len(),
                self.universe == old(self).universe,
                self.target_len == old(self).target_len,
                self.bits_per_lo == old(self).bits_per_lo,
                self.current_len == old(self).current_len + i,
                old(self).current_len + diffs.len() <= old(self).target_len,
                diff_value(base, diffs@, diffs.len() as int) < self.universe,
                self.last_added == diff_value(base, diffs@, i as int),
                self@.len() == old(self)@.len() + i,
                forall|k: int| 0 <= k < old(self)@.len() ==> self@[k] == old(self)@[k],
                forall|k: int|
                    0 <= k < i ==> self@[old(self)@.len() + k] == #[trigger] diff_value(
                        base,
                        diffs@,
                        k + 1,
                    ),
            decreases diffs.len() - i,
        {
            proof {
                lemma_diff_value_monotone(base, diffs@, i as int + 1, diffs.len() as int);
                lemma_diff_value_monotone(base, diffs@, 0, i as int);
            }
            self.push_diff(diffs[i]);
            i = i + 1;
        }
    }

    /// Finishes building without checking that every declared value was
    /// pushed; the sequence holds exactly the values pushed so far.
    pub fn finish_unchecked(self) -> (r: Sequence)
        requires
            self.wf(),
        ensures
            r.wf(),
            r@ == self@,
            r.len == self.current_len,
    {
        let (hi, _ones) = ArrayWithRankSelect101111::build_with_policies(
            self.hi,
            SelectStrategy::CombinedSampling,
            SelectStrategy::BinaryRankSearch,
        );
        proof {
            assert((self.current_len as int) * (self.bits_per_lo as int) <= (
            self.target_len as int) * (self.bits_per_lo as int)) by (nonlinear_arith)
                requires
                    self.current_len as int <= self.target_len as int && self.bits_per_lo as int
                        >= 0;
        }
        Sequence {
            hi,
            lo: self.lo,
            bits_per_lo: self.bits_per_lo,
            len: self.current_len,
            values: self.values,
        }
    }

    /// Finishes building; every declared value must have been pushed.
    pub fn finish(self) -> (r: Sequence)
        requires
            self.wf(),
            self.current_len == self.target_len,
        ensures
            r.wf(),
            r@ == self@,
            r.len == self.current_len,
    {
        self.finish_unchecked()
    }
}

/// Elias-Fano representation of a non-decreasing sequence of integers,
/// supporting random access, predecessor/successor search and iteration.
pub struct Sequence {
    /// Upper-part stream with its rank/select directory.
    pub hi: ArrayWithRankSelect101111,
    /// Lower-part stream: `len` fields of `bits_per_lo` bits.
    pub lo: Vec<u64>,
    /// Width of one lower-part field.
    pub bits_per_lo: u8,
    /// Number of stored values.
    pub len: usize,
    /// The stored values.
    pub values: Ghost<Seq<u64>>,
}

impl View for Sequence {
    type V = Seq<u64>;

    open spec fn view(&self) -> Seq<u64> {
        self.values@
    }
}

impl Sequence {
    /// Structural invariant of a finished sequence.
    pub open spec fn wf(&self) -> bool {
        let vals = self.values@;
        let l = self.bits_per_lo as int;
        &&& self.hi.wf()
        &&& l < 64
        &&& vals.len() == self.len as int
        &&& 64 * self.lo@.len() <= usize::MAX
        &&& (self.len as int) * l <= 64 * self.lo@.len()
        &&& non_decreasing(vals)
        &&& encodes(self.hi.content@, self.lo@, l, vals)
    }

    /// Returns the number of stored values.
    pub fn len(&self) -> (r: usize)
        requires
            self.wf(),
        ensures
            r == self@.len(),
    {
        self.len
    }

    /// Returns whether the sequence is empty.
    pub fn is_empty(&self) -> (r: bool)
        requires
            self.wf(),
        ensures
            r == (self@.len() == 0),
    {
        self.len == 0
    }

    /// Heap bytes held by the two streams and the upper stream's
    /// directory.
    pub open spec fn dyn_bytes(&self) -> int {
        self.hi.dyn_bytes() + 8 * self.lo@.len()
    }

    /// Returns the number of heap bytes the structure holds.
    pub fn size_bytes_dyn(&self) -> (r: usize)
        requires
            self.wf(),
        ensures
            r == self.dyn_bytes(),
    {
        proof {
            self.hi.lemma_dyn_bytes_fit();
        }
        self.hi.size_bytes_dyn() + 8 * self.lo.len()
    }

    /// Returns the value at `index`, or `None` if `index` is out of
    /// bounds.
    pub fn get(&self, index: usize) -> (r: Option<u64>)
        requires
            self.wf(),
        ensures
            match r {
                Some(v) => index < self@.len() && v == self@[index as int],
                None => index >= self@.len(),
            },
    {
        if index >= self.len {
            return None;
        }
        Some(self.get_or_panic(index))
    }

    /// Returns the value at `index`; the index must be in bounds.
    pub fn get_or_panic(&self, index: usize) -> (r: u64)
        requires
            self.wf(),
            index < self@.len(),
        ensures
            r == self@[index as int],
    {
        let ghost vals = self.values@;
        let ghost l = self.bits_per_lo as int;
        let ghost words = self.hi.content@;
        let p = self.hi.select(index);
        proof {
            lemma_pow2_pos(l as nat);
            vstd::arithmetic::div_mod::lemma_div_pos_is_pos(
                vals[index as int] as int,
                pow2(l as nat) as int,
            );
            lemma_select_unique(words, p as int, hi_pos(vals, l, index as int));
            lemma_rank_bounds(words, p as int);
        }
        self.value_from(p, index)
    }

    /// Reassembles the value with index `index` from its upper-stream
    /// position `p` and its lower-stream field.
    fn value_from(&self, p: usize, index: usize) -> (r: u64)
        requires
            self.wf(),
            index < self@.len(),
            p as int == hi_pos(self.values@, self.bits_per_lo as int, index as int),
        ensures
            r == self@[index as int],
    {
        let ghost vals = self.values@;
        let ghost l = self.bits_per_lo as int;
        let ghost p2l = pow2(l as nat) as int;
        proof {
            lemma_pow2_pos(l as nat);
            vstd::arithmetic::div_mod::lemma_div_pos_is_pos(vals[index as int] as int, p2l);
            vstd::arithmetic::div_mod::lemma_fundamental_div_mod(
                vals[index as int] as int,
                p2l,
            );
            assert((index as int) * l + l <= (self.len as int) * l) by (nonlinear_arith)
                requires index as int + 1 <= self.len as int && l >= 0;
        }
        let hi_part = (p - index) as u64;
        let lo_part = get_fragment(&self.lo, index, self.bits_per_lo as usize);
        let p2: u64 = pow2_u64(self.bits_per_lo);
        proof {
            let v = vals[index as int] as int;
            assert(hi_part as int == v / p2l);
            assert(lo_part as int == v % p2l);
            assert((hi_part as int) * p2l + (lo_part as int) == v) by (nonlinear_arith)
                requires
                    hi_part as int == v / p2l && lo_part as int == v % p2l && p2l > 0 && v == p2l
                        * (v / p2l) + v % p2l;
        }
        hi_part * p2 + lo_part
    }
}

/// A location in the sequence: the index of a value (`lo`) paired with
/// its bit position in the upper stream (`hi`); past-the-end is the
/// sequence length paired with the end of the upper stream.
#[derive(Clone, Copy)]
pub struct Position {
    /// Index of the value (equals the sequence length past the end).
    pub hi: usize,
    /// Bit index in the upper stream.
    pub lo: usize,
}

impl Sequence {
    /// `p` addresses index `i`: its value index is `i`, and its upper
    /// bit index is the encoding position of value `i`, or the end of
    /// the upper stream when `i` equals the length.
    pub open spec fn at_index(&self, p: Position, i: int) -> bool {
        &&& p.lo as int == i
        &&& 0 <= i <= self@.len()
        &&& p.hi as int == (if i < self@.len() {
            hi_pos(self.values@, self.bits_per_lo as int, i)
        } else {
            64 * self.hi.content@.len() as int
        })
    }

    /// Encoding positions strictly increase with the index.
    proof fn lemma_pos_increasing(&self, i: int, j: int)
        requires
            self.wf(),
            0 <= i <= j < self@.len(),
        ensures
            hi_pos(self.values@, self.bits_per_lo as int, i) + (j - i) <= hi_pos(
                self.values@,
                self.bits_per_lo as int,
                j,
            ),
            0 <= hi_pos(self.values@, self.bits_per_lo as int, i),
    {
        let l = self.bits_per_lo as int;
        let p2l = pow2(l as nat) as int;
        lemma_pow2_pos(l as nat);
        vstd::arithmetic::div_mod::lemma_div_pos_is_pos(self.values@[i] as int, p2l);
        vstd::arithmetic::div_mod::lemma_div_is_ordered(
            self.values@[i] as int,
            self.values@[j] as int,
            p2l,
        );
    }

    /// Between two consecutive encoding positions the upper stream is
    /// all zeros, and past the last one as well.
    proof fn lemma_no_ones_between(&self, i: int, q: int)
        requires
            self.wf(),
            0 <= i <= self@.len(),
            i > 0 ==> hi_pos(self.values@, self.bits_per_lo as int, i - 1) < q,
            i < self@.len() ==> q < hi_pos(self.values@, self.bits_per_lo as int, i),
            i == self@.len() ==> q < 64 * self.hi.content@.len(),
            0 <= q,
        ensures
            !seq_bit(self.hi.content@, q),
            rank_of(self.hi.content@, q) == i,
    {
        let words = self.hi.content@;
        let vals = self.values@;
        let l = self.bits_per_lo as int;
        let n = self@.len() as int;
        if i > 0 {
            let prev = hi_pos(vals, l, i - 1);
            self.lemma_pos_increasing(i - 1, i - 1);
            assert(seq_bit(words, prev));
            assert(rank_of(words, prev) == i - 1);
            assert(rank_of(words, prev + 1) == i);
            lemma_rank_monotone(words, prev + 1, q);
        } else {
            lemma_rank_bounds(words, q);
        }
        if i < n {
            let next = hi_pos(vals, l, i);
            lemma_rank_monotone(words, q, next);
            assert(rank_of(words, q) == i);
            lemma_rank_constant_means_zero(words, q, next, q);
        } else {
            lemma_rank_monotone(words, q, 64 * words.len() as int);
            assert(rank_of(words, q) == i);
            lemma_rank_constant_means_zero(words, q, 64 * words.len() as int, q);
        }
    }

    /// Position of the first value, or past the end when empty.
    fn begin_position(&self) -> (p: Position)
        requires
            self.wf(),
        ensures
            self.at_index(p, 0),
            p.lo == 0,
    {
        let ghost words = self.hi.content@;
        let ghost vals = self.values@;
        let ghost l = self.bits_per_lo as int;
        match crate::bitv::find_bit_one(&self.hi.content, 0) {
            Some(q) => {
                proof {
                    lemma_select_of_rank(words, 0, q as int);
                    assert(rank_of(words, q as int + 1) == 1);
                    lemma_rank_monotone(words, q as int + 1, 64 * words.len() as int);
                    assert(self@.len() > 0);
                    self.lemma_pos_increasing(0, 0);
                    lemma_select_unique(words, q as int, hi_pos(vals, l, 0));
                }
                Position { hi: q, lo: 0 }
            },
            None => {
                proof {
                    if self@.len() > 0 {
                        assert(seq_bit(words, hi_pos(vals, l, 0)));
                        self.lemma_pos_increasing(0, 0);
                        assert(false);
                    }
                }
                Position { hi: 64 * self.hi.content.len(), lo: 0 }
            },
        }
    }

    /// Position past the end.
    fn end_position(&self) -> (p: Position)
        requires
            self.wf(),
        ensures
            self.at_index(p, self@.len() as int),
    {
        Position { hi: 64 * self.hi.content.len(), lo: self.len }
    }

    /// Advances a position one index forward.
    fn advance_position(&self, p: &mut Position)
        requires
            self.wf(),
            self.at_index(*old(p), old(p).lo as int),
            old(p).lo < self@.len(),
    ensures
            self.at_index(*final(p), old(p).lo as int + 1),
    {
        let ghost words = self.hi.content@;
        let ghost vals = self.values@;
        let ghost l = self.bits_per_lo as int;
        let ghost i = p.lo as int;
        let from = p.hi + 1;
        p.lo = p.lo + 1;
        if p.lo != self.len {
            proof {
                self.lemma_pos_increasing(i, i + 1);
                assert forall|q: int| from <= q < hi_pos(vals, l, i + 1) implies !seq_bit(
                    words,
                    q,
                ) by {
                    self.lemma_no_ones_between(i + 1, q);
                }
            }
            match crate::bitv::find_bit_one(&self.hi.content, from) {
                Some(q) => {
                    proof {
                        assert(seq_bit(words, hi_pos(vals, l, i + 1)));
                        assert(q as int == hi_pos(vals, l, i + 1));
                    }
                    p.hi = q;
                },
                None => {
                    proof {
                        assert(seq_bit(words, hi_pos(vals, l, i + 1)));
                        assert(false);
                    }
                },
            }
        } else {
            p.hi = 64 * self.hi.content.len();
        }
    }

    /// Moves a position one index backward.
    fn advance_position_back(&self, p: &mut Position)
        requires
            self.wf(),
            self.at_index(*old(p), old(p).lo as int),
            old(p).lo >= 1,
        ensures
            self.at_index(*final(p), old(p).lo as int - 1),
    {
        let ghost words = self.hi.content@;
        let ghost vals = self.values@;
        let ghost l = self.bits_per_lo as int;
        let ghost i = p.lo as int;
        proof {
            self.lemma_pos_increasing(i - 1, i - 1);
            if i < self@.len() {
                self.lemma_pos_increasing(i - 1, i);
            }
            assert forall|q: int|
                hi_pos(vals, l, i - 1) < q <= p.hi as int - 1 implies !seq_bit(words, q) by {
                self.lemma_no_ones_between(i, q);
            }
        }
        p.lo = p.lo - 1;
        match crate::bitv::rfind_bit_one(&self.hi.content, p.hi - 1) {
            Some(q) => {
                proof {
                    assert(seq_bit(words, hi_pos(vals, l, i - 1)));
                    assert(hi_pos(vals, l, i - 1) <= p.hi as int - 1);
                    assert(q as int == hi_pos(vals, l, i - 1));
                }
                p.hi = q;
            },
            None => {
                proof {
                    assert(seq_bit(words, hi_pos(vals, l, i - 1)));
                    assert(hi_pos(vals, l, i - 1) <= p.hi as int - 1);
                    assert(false);
                }
            },
        }
    }

    /// Value addressed by a position.
    fn value_at_position(&self, p: Position) -> (r: u64)
        requires
            self.wf(),
            self.at_index(p, p.lo as int),
            p.lo < self@.len(),
        ensures
            r == self@[p.lo as int],
    {
        self.value_from(p.hi, p.lo)
    }

    /// Difference between the value at a position and its predecessor
    /// (the value itself at index zero).
    fn diff_at_position(&self, p: Position) -> (r: u64)
        requires
            self.wf(),
            self.at_index(p, p.lo as int),
            p.lo < self@.len(),
        ensures
            r as int == self@[p.lo as int] - (if p.lo == 0 {
                0int
            } else {
                self@[p.lo as int - 1] as int
            }),
    {
        let current = self.value_at_position(p);
        if p.lo == 0 {
            return current;
        }
        let mut prev = p;
        self.advance_position_back(&mut prev);
        let prev_value = self.value_at_position(prev);
        current - prev_value
    }
}

impl Sequence {
    /// Returns an iterator over the stored values, walkable from both
    /// ends.
    pub fn iter(&self) -> (r: Iter<'_>)
        requires
            self.wf(),
        ensures
            r.wf(),
            r.sequence == self,
            r.begin.lo == 0,
            r.end.lo == self@.len(),
    {
        Iter { sequence: self, begin: self.begin_position(), end: self.end_position() }
    }

    /// Returns an iterator over the first value followed by the
    /// differences between subsequent values.
    pub fn diffs(&self) -> (r: DiffIterator<'_>)
        requires
            self.wf(),
        ensures
            r.wf(),
            r.sequence == self,
            r.position.lo == 0,
    {
        DiffIterator { sequence: self, position: self.begin_position(), prev_value: 0 }
    }

    /// Returns the difference between the value at `index` and its
    /// predecessor (the value itself at index zero), or `None` out of
    /// bounds.
    pub fn diff(&self, index: usize) -> (r: Option<u64>)
        requires
            self.wf(),
        ensures
            match r {
                Some(d) => index < self@.len() && d as int == self@[index as int] - (if index == 0 {
                    0int
                } else {
                    self@[index as int - 1] as int
                }),
                None => index >= self@.len(),
            },
    {
        if index >= self.len {
            return None;
        }
        Some(self.diff_or_panic(index))
    }

    /// Returns the difference between the value at `index` and its
    /// predecessor; the index must be in bounds.
    pub fn diff_or_panic(&self, index: usize) -> (r: u64)
        requires
            self.wf(),
            index < self@.len(),
        ensures
            r as int == self@[index as int] - (if index == 0 {
                0int
            } else {
                self@[index as int - 1] as int
            }),
    {
        let ghost vals = self.values@;
        let ghost l = self.bits_per_lo as int;
        let p = self.hi.select(index);
        proof {
            lemma_pow2_pos(l as nat);
            vstd::arithmetic::div_mod::lemma_div_pos_is_pos(
                vals[index as int] as int,
                pow2(l as nat) as int,
            );
            lemma_select_unique(self.hi.content@, p as int, hi_pos(vals, l, index as int));
        }
        self.diff_at_position(Position { hi: p, lo: index })
    }

    /// Returns a cursor at the first value (or past the end when empty).
    pub fn begin(&self) -> (r: Cursor<'_>)
        requires
            self.wf(),
        ensures
            r.wf(),
            r.sequence == self,
            r.position.lo == 0,
    {
        Cursor { sequence: self, position: self.begin_position() }
    }

    /// Returns a cursor past the end.
    pub fn end(&self) -> (r: Cursor<'_>)
        requires
            self.wf(),
        ensures
            r.wf(),
            r.sequence == self,
            r.position.lo == self@.len(),
    {
        Cursor { sequence: self, position: self.end_position() }
    }

    /// Locates the first index whose value is at least `value`, returning
    /// its position with the upper bit index still pointing at the spot
    /// where the backward walk stopped (one rank step before the value's
    /// own bit).
    fn geq_position_uncorrected(&self, value: u64) -> (p: Position)
        requires
            self.wf(),
        ensures
            p.lo <= self@.len(),
            forall|i: int| 0 <= i < p.lo ==> self@[i] < value,
            forall|i: int| p.lo <= i < self@.len() ==> self@[i] >= value,
            rank_of(self.hi.content@, p.hi as int) == p.lo,
            p.hi <= 64 * self.hi.content@.len(),
    {
        let ghost words = self.hi.content@;
        let ghost vals = self.values@;
        let ghost l = self.bits_per_lo as int;
        let ghost p2l = pow2(l as nat) as int;
        let ghost n = self@.len() as int;
        let lw = self.bits_per_lo as u64;
        proof {
            lemma_pow2_pos(l as nat);
            vstd::bits::lemma_u64_shr_is_div(value, lw);
            lemma_rank_totality(words, 64 * words.len() as int);
            lemma_rank_bounds(words, 64 * words.len() as int);
        }
        let h64 = value >> lw;
        let total_bits = 64 * self.hi.content.len();
        let zeros = total_bits - self.hi.count_ones();
        proof {
            // Each stored value's upper part equals the count of zeros
            // before its bit in the upper stream.
            assert forall|i: int| 0 <= i < n implies (self@[i] as int) / p2l == rank0_of(
                words,
                hi_pos(vals, l, i),
            ) by {
                self.lemma_pos_increasing(i, i);
                lemma_rank_totality(words, hi_pos(vals, l, i));
            }
        }
        let mut hi_index: usize;
        let mut lo_index: usize;
        if h64 >= zeros as u64 {
            if h64 > zeros as u64 {
                // Every upper part is at most the total zero count, hence
                // strictly below the queried upper part.
                proof {
                    assert forall|i: int| 0 <= i < n implies self@[i] < value by {
                        lemma_rank_monotone(words, hi_pos(vals, l, i), 64 * words.len() as int);
                        if self@[i] >= value {
                            vstd::arithmetic::div_mod::lemma_div_is_ordered(
                                value as int,
                                self@[i] as int,
                                p2l,
                            );
                            assert(false);
                        }
                    }
                }
                return Position { hi: total_bits, lo: self.len };
            }
            hi_index = total_bits;
            lo_index = self.len;
        } else {
            let z = self.hi.select0(h64 as usize);
            proof {
                lemma_rank_totality(words, z as int);
                lemma_rank_bounds(words, z as int);
                lemma_rank_monotone(words, z as int, 64 * words.len() as int);
                vstd::arithmetic::div_mod::lemma_fundamental_div_mod(value as int, p2l);
                // Values at or after the found index have upper parts
                // strictly above the queried one.
                assert forall|i: int| rank_of(words, z as int) <= i < n implies self@[i]
                    >= value by {
                    let pi = hi_pos(vals, l, i);
                    if pi < z as int {
                        lemma_rank_monotone(words, pi + 1, z as int);
                        assert(false);
                    }
                    assert(pi > z as int);
                    lemma_rank_totality(words, z as int + 1);
                    lemma_rank_monotone(words, z as int + 1, pi);
                    assert(rank0_of(words, pi) >= h64 + 1);
                    vstd::arithmetic::div_mod::lemma_fundamental_div_mod(self@[i] as int, p2l);
                    assert(self@[i] >= value) by (nonlinear_arith)
                        requires
                            (self@[i] as int) / p2l >= (h64 as int) + 1 && p2l >= 1 && value as int
                                == p2l * (h64 as int) + (value as int) % p2l && 0 <= (
                            value as int) % p2l < p2l && self@[i] as int == p2l * ((
                            self@[i] as int) / p2l) + (self@[i] as int) % p2l && 0 <= (
                            self@[i] as int) % p2l;
                }
            }
            hi_index = z;
            lo_index = z - (h64 as usize);
        }
        let ghost h = h64 as int;
        proof {
            assert(rank0_of(words, hi_index as int) == h);
            assert(rank_of(words, hi_index as int) == lo_index);
            assert(lo_index <= n);
            vstd::arithmetic::div_mod::lemma_fundamental_div_mod(value as int, p2l);
        }
        let value_lo = value & (pow2_u64(self.bits_per_lo) - 1);
        proof {
            vstd::bits::lemma_u64_low_bits_mask_is_mod(value, l as nat);
            assert((pow2(l as nat) - 1) as u64 == vstd::bits::low_bits_mask(l as nat) as u64);
            assert(value_lo == (value as int) % p2l);
        }
        // Walk back over values that share the queried upper part but
        // have lower parts at or above the queried one.
        loop
            invariant
                self.wf(),
                words == self.hi.content@,
                vals == self.values@,
                l == self.bits_per_lo as int,
                p2l == pow2(l as nat) as int,
                p2l >= 1,
                n == self@.len(),
                lo_index <= n,
                hi_index <= 64 * words.len(),
                rank_of(words, hi_index as int) == lo_index,
                rank0_of(words, hi_index as int) == h,
                h == (value as int) / p2l,
                value_lo == (value as int) % p2l,
                value == h * p2l + value_lo,
                forall|i: int| lo_index <= i < n ==> self@[i] >= value,
                forall|i: int|
                    0 <= i < n ==> (#[trigger] self@[i] as int) / p2l == rank0_of(
                        words,
                        hi_pos(vals, l, i),
                    ),
            ensures
                lo_index <= n,
                hi_index <= 64 * words.len(),
                rank_of(words, hi_index as int) == lo_index,
                forall|i: int| lo_index <= i < n ==> self@[i] >= value,
                forall|i: int| 0 <= i < lo_index ==> self@[i] < value,
            decreases lo_index,
        {
            if lo_index == 0 {
                break;
            }
            let ghost j = lo_index as int - 1;
            proof {
                lemma_rank_bounds(words, hi_index as int);
                assert(hi_index >= 1);
                self.lemma_pos_increasing(j, j);
                lemma_rank_totality(words, hi_index as int - 1);
                vstd::arithmetic::div_mod::lemma_fundamental_div_mod(self@[j] as int, p2l);
            }
            if !get_bit(&self.hi.content, hi_index - 1) {
                proof {
                    // The previous upper-stream bit is a zero: the
                    // previous value has a smaller upper part.
                    assert(rank_of(words, hi_index as int - 1) == lo_index);
                    let pj = hi_pos(vals, l, j);
                    if pj >= hi_index as int - 1 {
                        lemma_rank_monotone(words, hi_index as int - 1, pj);
                        assert(rank_of(words, pj + 1) == j + 1);
                        lemma_rank_monotone(words, hi_index as int - 1, pj + 1);
                        assert(false);
                    }
                    lemma_rank_totality(words, pj);
                    lemma_rank_monotone(words, pj, hi_index as int - 1);
                    assert(rank0_of(words, hi_index as int - 1) == h - 1);
                    assert((self@[j] as int) / p2l <= h - 1);
                    assert(self@[j] < value) by (nonlinear_arith)
                        requires
                            (self@[j] as int) / p2l <= h - 1 && value == h * p2l + value_lo
                                && value_lo >= 0 && p2l >= 1 && self@[j] as int == p2l * ((
                            self@[j] as int) / p2l) + (self@[j] as int) % p2l && 0 <= (
                            self@[j] as int) % p2l < p2l;
                    assert forall|i: int| 0 <= i < lo_index implies self@[i] < value by {
                        assert(self@[i] <= self@[j]);
                    }
                }
                break;
            }
            proof {
                // The previous bit is the encoding bit of the previous
                // value, whose upper part therefore equals the queried
                // one.
                assert(rank_of(words, hi_index as int - 1) == j);
                lemma_select_unique(words, hi_index as int - 1, hi_pos(vals, l, j));
                assert(hi_index as int - 1 == hi_pos(vals, l, j));
                assert((self@[j] as int) / p2l == h);
                assert((j + 1) * l <= n * l && j * l >= 0 && (j + 1) * l == j * l + l)
                    by (nonlinear_arith)
                    requires 0 <= j && j + 1 <= n && l >= 0;
                assert(n * l <= 64 * self.lo@.len());
            }
            let fj = get_fragment(&self.lo, lo_index - 1, self.bits_per_lo as usize);
            if value_lo > fj {
                proof {
                    assert((self@[j] as int) % p2l < value_lo);
                    assert(self@[j] < value) by (nonlinear_arith)
                        requires
                            (self@[j] as int) / p2l == h && (self@[j] as int) % p2l < value_lo
                                && value == h * p2l + value_lo && self@[j] as int == p2l * ((
                            self@[j] as int) / p2l) + (self@[j] as int) % p2l;
                    assert forall|i: int| 0 <= i < lo_index implies self@[i] < value by {
                        assert(self@[i] <= self@[j]);
                    }
                }
                break;
            }
            proof {
                assert((self@[j] as int) % p2l >= value_lo);
                assert(self@[j] >= value) by (nonlinear_arith)
                    requires
                        (self@[j] as int) / p2l == h && (self@[j] as int) % p2l >= value_lo
                            && value == h * p2l + value_lo && self@[j] as int == p2l * ((
                        self@[j] as int) / p2l) + (self@[j] as int) % p2l;
            }
            lo_index = lo_index - 1;
            hi_index = hi_index - 1;
        }
        Position { hi: hi_index, lo: lo_index }
    }

    /// Position of the first value greater than or equal to `value`, or
    /// past the end if every value is smaller.
    fn geq_position(&self, value: u64) -> (p: Position)
        requires
            self.wf(),
        ensures
            self.at_index(p, p.lo as int),
            forall|i: int| 0 <= i < p.lo ==> self@[i] < value,
            forall|i: int| p.lo <= i < self@.len() ==> self@[i] >= value,
    {
        let ghost words = self.hi.content@;
        let ghost vals = self.values@;
        let ghost l = self.bits_per_lo as int;
        let ghost n = self@.len() as int;
        let u = self.geq_position_uncorrected(value);
        let ghost j = u.lo as int;
        if u.lo == self.len {
            return Position { hi: 64 * self.hi.content.len(), lo: u.lo };
        }
        proof {
            self.lemma_pos_increasing(j, j);
            let pj = hi_pos(vals, l, j);
            assert(rank_of(words, pj) == j && seq_bit(words, pj));
            if pj < u.hi as int {
                lemma_rank_monotone(words, pj + 1, u.hi as int);
                assert(false);
            }
            assert forall|q: int| u.hi as int <= q < pj implies !seq_bit(words, q) by {
                lemma_rank_monotone(words, u.hi as int, q);
                lemma_rank_monotone(words, q + 1, pj);
                if seq_bit(words, q) {
                    assert(rank_of(words, q + 1) == rank_of(words, q) + 1);
                    assert(false);
                }
            }
        }
        match crate::bitv::find_bit_one(&self.hi.content, u.hi) {
            Some(q) => {
                proof {
                    assert(q as int == hi_pos(vals, l, j));
                }
                Position { hi: q, lo: u.lo }
            },
            None => {
                proof {
                    assert(seq_bit(words, hi_pos(vals, l, j)));
                    assert(false);
                }
                u
            },
        }
    }

    /// Returns a cursor at the first value greater than or equal to
    /// `value` (past the end if there is none).
    pub fn geq_cursor(&self, value: u64) -> (r: Cursor<'_>)
        requires
            self.wf(),
        ensures
            r.wf(),
            r.sequence == self,
            forall|i: int| 0 <= i < r.position.lo ==> self@[i] < value,
            forall|i: int| r.position.lo <= i < self@.len() ==> self@[i] >= value,
    {
        Cursor { sequence: self, position: self.geq_position(value) }
    }

    /// Returns the number of stored values strictly below `value`, which
    /// is also the index of the first value at or above it.
    pub fn geq_index(&self, value: u64) -> (r: usize)
        requires
            self.wf(),
        ensures
            r <= self@.len(),
            forall|i: int| 0 <= i < r ==> self@[i] < value,
            forall|i: int| r <= i < self@.len() ==> self@[i] >= value,
    {
        self.geq_position_uncorrected(value).lo
    }

    /// Returns the number of stored values strictly below `value`.
    pub fn rank(&self, value: u64) -> (r: usize)
        requires
            self.wf(),
        ensures
            r <= self@.len(),
            forall|i: int| 0 <= i < r ==> self@[i] < value,
            forall|i: int| r <= i < self@.len() ==> self@[i] >= value,
    {
        self.geq_index(value)
    }

    /// Returns the number of stored values strictly below `value`; the
    /// query never fails.
    pub fn try_rank(&self, value: u64) -> (r: Option<usize>)
        requires
            self.wf(),
        ensures
            match r {
                Some(c) => c <= self@.len() && (forall|i: int| 0 <= i < c ==> self@[i] < value)
                    && (forall|i: int| c <= i < self@.len() ==> self@[i] >= value),
                None => false,
            },
    {
        Some(self.geq_index(value))
    }

    /// Returns the `k`-th smallest stored value, or `None` if `k` is out
    /// of bounds.
    pub fn try_select(&self, k: usize) -> (r: Option<u64>)
        requires
            self.wf(),
        ensures
            match r {
                Some(v) => k < self@.len() && v == self@[k as int],
                None => k >= self@.len(),
            },
    {
        self.get(k)
    }

    /// Returns a cursor at the first occurrence of `value`, or `None` if
    /// the sequence does not contain it.
    pub fn cursor_of(&self, value: u64) -> (r: Option<Cursor<'_>>)
        requires
            self.wf(),
        ensures
            match r {
                Some(c) => c.wf() && c.sequence == self && c.position.lo < self@.len()
                    && self@[c.position.lo as int] == value && forall|i: int|
                    0 <= i < c.position.lo ==> self@[i] < value,
                None => forall|i: int| 0 <= i < self@.len() ==> self@[i] != value,
            },
    {
        let p = self.geq_position(value);
        if p.lo < self.len {
            let v = self.value_at_position(p);
            if v == value {
                return Some(Cursor { sequence: self, position: p });
            }
            proof {
                assert forall|i: int| 0 <= i < self@.len() implies self@[i] != value by {
                    if i >= p.lo {
                        assert(self@[p.lo as int] <= self@[i]);
                    }
                }
            }
            return None;
        }
        None
    }

    /// Returns the index of the first occurrence of `value`, or `None`
    /// if the sequence does not contain it.
    pub fn index_of(&self, value: u64) -> (r: Option<usize>)
        requires
            self.wf(),
        ensures
            match r {
                Some(i) => i < self@.len() && self@[i as int] == value && forall|k: int|
                    0 <= k < i ==> self@[k] < value,
                None => forall|k: int| 0 <= k < self@.len() ==> self@[k] != value,
            },
    {
        match self.cursor_of(value) {
            Some(c) => Some(c.position.lo),
            None => None,
        }
    }
}

/// Double-ended iterator over the values of a [`Sequence`].
pub struct Iter<'a> {
    /// The sequence being iterated.
    pub sequence: &'a Sequence,
    /// Position of the next value yielded from the front.
    pub begin: Position,
    /// Position one past the next value yielded from the back.
    pub end: Position,
}

impl<'a> Iter<'a> {
    /// Structural invariant: both ends address valid indices in order.
    pub open spec fn wf(&self) -> bool {
        &&& self.sequence.wf()
        &&& self.sequence.at_index(self.begin, self.begin.lo as int)
        &&& self.sequence.at_index(self.end, self.end.lo as int)
        &&& self.begin.lo <= self.end.lo
    }

    /// Yields the next value from the front, if any remains.
    pub fn next(&mut self) -> (r: Option<u64>)
        requires
            old(self).wf(),
        ensures
            final(self).wf(),
            final(self).sequence == old(self).sequence,
            final(self).end == old(self).end,
            match r {
                Some(v) => old(self).begin.lo < old(self).end.lo && v
                    == old(self).sequence@[old(self).begin.lo as int] && final(self).begin.lo
                    == old(self).begin.lo + 1,
                None => old(self).begin.lo == old(self).end.lo && final(self).begin == old(self).begin,
            },
    {
        if self.begin.lo != self.end.lo {
            let v = self.sequence.value_at_position(self.begin);
            let mut b = self.begin;
            self.sequence.advance_position(&mut b);
            self.begin = b;
            Some(v)
        } else {
            None
        }
    }

    /// Yields the next value from the back, if any remains.
    pub fn next_back(&mut self) -> (r: Option<u64>)
        requires
            old(self).wf(),
        ensures
            final(self).wf(),
            final(self).sequence == old(self).sequence,
            final(self).begin == old(self).begin,
            match r {
                Some(v) => old(self).begin.lo < old(self).end.lo && v
                    == old(self).sequence@[old(self).end.lo as int - 1] && final(self).end.lo
                    == old(self).end.lo - 1,
                None => old(self).begin.lo == old(self).end.lo && final(self).end == old(self).end,
            },
    {
        if self.begin.lo != self.end.lo {
            let mut e = self.end;
            self.sequence.advance_position_back(&mut e);
            self.end = e;
            Some(self.sequence.value_at_position(self.end))
        } else {
            None
        }
    }
}

/// Iterator yielding the first value of a [`Sequence`] followed by the
/// differences between subsequent values.
pub struct DiffIterator<'a> {
    /// The sequence being iterated.
    pub sequence: &'a Sequence,
    /// Position of the next value.
    pub position: Position,
    /// The previously yielded position's value (zero at the start).
    pub prev_value: u64,
}

impl<'a> DiffIterator<'a> {
    /// Structural invariant: the position is valid and the previous
    /// value matches the predecessor of the current index.
    pub open spec fn wf(&self) -> bool {
        &&& self.sequence.wf()
        &&& self.sequence.at_index(self.position, self.position.lo as int)
        &&& (self.position.lo == 0 ==> self.prev_value == 0)
        &&& (self.position.lo > 0 ==> self.prev_value == self.sequence@[self.position.lo as int
            - 1])
    }

    /// Yields the next difference, if any value remains.
    pub fn next(&mut self) -> (r: Option<u64>)
        requires
            old(self).wf(),
        ensures
            final(self).wf(),
            final(self).sequence == old(self).sequence,
            match r {
                Some(d) => old(self).position.lo < old(self).sequence@.len() && d as int == old(self).sequence@[old(self).position.lo as int] - old(self).prev_value && final(self).position.lo == old(self).position.lo + 1,
                None => old(self).position.lo == old(self).sequence@.len() && final(self).position
                    == old(self).position,
            },
    {
        if self.position.lo != self.sequence.len {
            let v = self.sequence.value_at_position(self.position);
            let d = v - self.prev_value;
            self.prev_value = v;
            let mut p = self.position;
            self.sequence.advance_position(&mut p);
            self.position = p;
            Some(d)
        } else {
            None
        }
    }
}

/// A location in a [`Sequence`], usable both as a pointer to a value and
/// as an iterator in either direction.
pub struct Cursor<'a> {
    /// The sequence pointed into.
    pub sequence: &'a Sequence,
    /// The addressed location.
    pub position: Position,
}

impl<'a> Cursor<'a> {
    /// Structural invariant: the position addresses a valid index.
    pub open spec fn wf(&self) -> bool {
        &&& self.sequence.wf()
        &&& self.sequence.at_index(self.position, self.position.lo as int)
    }

    /// Returns whether the cursor points past the last value.
    pub fn is_end(&self) -> (r: bool)
        requires
            self.wf(),
        ensures
            r == (self.position.lo == self.sequence@.len()),
    {
        self.position.lo == self.sequence.len
    }

    /// Returns whether the cursor points at a value.
    pub fn is_valid(&self) -> (r: bool)
        requires
            self.wf(),
        ensures
            r == (self.position.lo < self.sequence@.len()),
    {
        self.position.lo != self.sequence.len
    }

    /// Returns the index the cursor points at.
    pub fn index(&self) -> (r: usize)
        ensures
            r == self.position.lo,
    {
        self.position.lo
    }

    /// Returns the value pointed at, or `None` past the end.
    pub fn value(&self) -> (r: Option<u64>)
        requires
            self.wf(),
        ensures
            match r {
                Some(v) => self.position.lo < self.sequence@.len() && v
                    == self.sequence@[self.position.lo as int],
                None => self.position.lo == self.sequence@.len(),
            },
    {
        if self.position.lo < self.sequence.len {
            Some(self.sequence.value_at_position(self.position))
        } else {
            None
        }
    }

    /// Advances one position forward; returns whether it moved.
    pub fn advance(&mut self) -> (r: bool)
        requires
            old(self).wf(),
        ensures
            final(self).wf(),
            final(self).sequence == old(self).sequence,
            r == (old(self).position.lo < old(self).sequence@.len()),
            r ==> final(self).position.lo == old(self).position.lo + 1,
            !r ==> final(self).position == old(self).position,
    {
        if self.position.lo == self.sequence.len {
            return false;
        }
        let mut p = self.position;
        self.sequence.advance_position(&mut p);
        self.position = p;
        true
    }

    /// Moves one position backward; returns whether it moved.
    pub fn advance_back(&mut self) -> (r: bool)
        requires
            old(self).wf(),
        ensures
            final(self).wf(),
            final(self).sequence == old(self).sequence,
            r == (old(self).position.lo > 0),
            r ==> final(self).position.lo == old(self).position.lo - 1,
            !r ==> final(self).position == old(self).position,
    {
        if self.position.lo == 0 {
            return false;
        }
        let mut p = self.position;
        self.sequence.advance_position_back(&mut p);
        self.position = p;
        true
    }

    /// Yields the value pointed at and advances, front to back.
    pub fn next(&mut self) -> (r: Option<u64>)
        requires
            old(self).wf(),
        ensures
            final(self).wf(),
            final(self).sequence == old(self).sequence,
            match r {
                Some(v) => old(self).position.lo < old(self).sequence@.len() && v == old(self).sequence@[old(self).position.lo as int] && final(self).position.lo == old(self).position.lo + 1,
                None => old(self).position.lo == old(self).sequence@.len() && final(self).position
                    == old(self).position,
            },
    {
        if self.position.lo != self.sequence.len {
            let v = self.sequence.value_at_position(self.position);
            let mut p = self.position;
            self.sequence.advance_position(&mut p);
            self.position = p;
            Some(v)
        } else {
            None
        }
    }

    /// Moves one position backward and yields the value there.
    pub fn next_back(&mut self) -> (r: Option<u64>)
        requires
            old(self).wf(),
        ensures
            final(self).wf(),
            final(self).sequence == old(self).sequence,
            match r {
                Some(v) => old(self).position.lo > 0 && v == old(self).sequence@[old(self).position.lo as int - 1] && final(self).position.lo == old(self).position.lo - 1,
                None => old(self).position.lo == 0 && final(self).position == old(self).position,
            },
    {
        if self.position.lo != 0 {
            let mut p = self.position;
            self.sequence.advance_position_back(&mut p);
            self.position = p;
            Some(self.sequence.value_at_position(self.position))
        } else {
            None
        }
    }

    /// Returns the difference between the value pointed at and its
    /// predecessor, or `None` past the end.
    pub fn diff(&self) -> (r: Option<u64>)
        requires
            self.wf(),
        ensures
            match r {
                Some(d) => self.position.lo < self.sequence@.len() && d as int
                    == self.sequence@[self.position.lo as int] - (if self.position.lo == 0 {
                    0int
                } else {
                    self.sequence@[self.position.lo as int - 1] as int
                }),
                None => self.position.lo == self.sequence@.len(),
            },
    {
        if self.position.lo < self.sequence.len {
            Some(self.sequence.diff_at_position(self.position))
        } else {
            None
        }
    }

    /// Returns an iterator over the differences of subsequent values,
    /// starting at this cursor.
    pub fn diffs(&self) -> (r: DiffIterator<'a>)
        requires
            self.wf(),
        ensures
            r.wf(),
            r.sequence == self.sequence,
            r.position.lo == self.position.lo,
    {
        if self.position.lo == 0 {
            return self.sequence.diffs();
        }
        let mut prev = self.position;
        self.sequence.advance_position_back(&mut prev);
        let prev_value = self.sequence.value_at_position(prev);
        DiffIterator { sequence: self.sequence, position: self.position, prev_value }
    }
}

} // verus!
