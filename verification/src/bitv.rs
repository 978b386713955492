//! A bit vector over 64-bit words with fixed-width field access.
//!
//! Fields of `width` bits are stored back to back, least significant bit
//! first; field `i` occupies bits `[i * width, (i + 1) * width)` of the bit
//! array and may straddle a word boundary.  Writes follow an
//! initialize-once discipline: the target bits are required to be zero, so
//! a write never corrupts neighbouring fields.

use vstd::arithmetic::power2::{lemma_pow2_adds, lemma_pow2_pos, lemma_pow2_strictly_increases, pow2};
use vstd::prelude::*;

use crate::bits::{seq_bit, word_bit};

verus! {

/// The value encoded by bits `[start, start + width)`, least significant
/// bit first.
pub open spec fn bits_value(words: Seq<u64>, start: int, width: int) -> int
    decreases width,
{
    if width <= 0 {
        0
    } else {
        (if seq_bit(words, start) {
            1int
        } else {
            0int
        }) + 2 * bits_value(words, start + 1, width - 1)
    }
}

/// The value of the `index`-th `width`-bit field.
pub open spec fn fragment_value(words: Seq<u64>, index: int, width: int) -> int {
    bits_value(words, index * width, width)
}

/// A field value is bounded by two to the field width.
pub proof fn lemma_bits_value_bound(words: Seq<u64>, start: int, width: int)
    requires
        width >= 0,
    ensures
        0 <= bits_value(words, start, width) < pow2(width as nat),
    decreases width,
{
    if width == 0 {
        assert(pow2(0) == 1) by {
            vstd::arithmetic::power2::lemma2_to64();
        }
    } else {
        lemma_bits_value_bound(words, start + 1, width - 1);
        assert(pow2(width as nat) == 2 * pow2((width - 1) as nat)) by {
            lemma_pow2_adds(1, (width - 1) as nat);
            vstd::arithmetic::power2::lemma2_to64();
        }
    }
}

/// Two word sequences that agree on a bit range encode the same value there.
pub proof fn lemma_bits_value_frame(w1: Seq<u64>, w2: Seq<u64>, start: int, width: int)
    requires
        forall|j: int| start <= j < start + width ==> seq_bit(w1, j) == seq_bit(w2, j),
    ensures
        bits_value(w1, start, width) == bits_value(w2, start, width),
    decreases width,
{
    if width > 0 {
        lemma_bits_value_frame(w1, w2, start + 1, width - 1);
    }
}

/// Shifting a word right by one shifts its bit indices down by one.
proof fn lemma_word_bit_shift(v: u64, j: u64)
    requires
        j < 63,
    ensures
        word_bit(v, j as int + 1) == word_bit(v >> 1, j as int),
{
    assert(((v >> (j + 1)) & 1) == (((v >> 1) >> j) & 1)) by (bit_vector)
        requires j < 63;
}

/// Bit zero of a word is its parity.
proof fn lemma_word_bit_zero(v: u64)
    ensures
        word_bit(v, 0) == (v % 2 == 1),
        (v >> 1) == v / 2,
{
    assert(((v >> 0) & 1) == v % 2) by (bit_vector);
    assert((v >> 1) == v / 2) by (bit_vector);
}

/// Bits that mirror the low bits of a word encode that word modulo the
/// field width.
pub proof fn lemma_bits_value_of_word(words: Seq<u64>, start: int, v: u64, width: int)
    requires
        0 <= width <= 64,
        forall|j: int| 0 <= j < width ==> seq_bit(words, start + j) == word_bit(v, j),
    ensures
        bits_value(words, start, width) == (v as int) % (pow2(width as nat) as int),
    decreases width,
{
    if width == 0 {
        assert(pow2(0) == 1) by {
            vstd::arithmetic::power2::lemma2_to64();
        }
    } else {
        assert forall|j: int| 0 <= j < width - 1 implies seq_bit(words, start + 1 + j) == word_bit(
            v >> 1,
            j,
        ) by {
            assert(seq_bit(words, start + (j + 1)) == word_bit(v, j + 1));
            lemma_word_bit_shift(v, j as u64);
        }
        lemma_bits_value_of_word(words, start + 1, v >> 1, width - 1);
        lemma_word_bit_zero(v);
        assert(seq_bit(words, start) == word_bit(v, 0));
        // v % 2^width == v % 2 + 2 * ((v / 2) % 2^(width - 1))
        let p = pow2((width - 1) as nat) as int;
        assert(pow2(width as nat) == 2 * p) by {
            lemma_pow2_adds(1, (width - 1) as nat);
            vstd::arithmetic::power2::lemma2_to64();
        }
        lemma_pow2_pos((width - 1) as nat);
        assert((v as int) % (2 * p) == (v as int) % 2 + 2 * ((v as int / 2) % p)) by {
            vstd::arithmetic::div_mod::lemma_mod_breakdown(v as int, 2, p);
            vstd::arithmetic::div_mod::lemma_mod_mod(v as int, 2, p);
        }
    }
}

/// Reads bit `index` of the bit vector.
pub fn get_bit(words: &Vec<u64>, index: usize) -> (r: bool)
    requires
        index < 64 * words.len(),
    ensures
        r == seq_bit(words@, index as int),
{
    (words[index / 64] >> ((index % 64) as u64)) & 1 == 1
}

/// Setting one bit of a word leaves every other bit of it unchanged.
proof fn lemma_word_set_bit(w: u64, k: u64, j: u64)
    requires
        k < 64,
        j < 64,
    ensures
        ((w | (1u64 << k)) >> j) & 1 == (if j == k {
            1u64
        } else {
            (w >> j) & 1
        }),
{
    assert(((w | (1u64 << k)) >> j) & 1 == (if j == k {
        1u64
    } else {
        (w >> j) & 1
    })) by (bit_vector)
        requires k < 64 && j < 64;
}

/// Sets bit `index` of the bit vector to one.
pub fn set_bit(words: &mut Vec<u64>, index: usize)
    requires
        index < 64 * old(words).len(),
    ensures
        final(words).len() == old(words).len(),
        forall|j: int|
            0 <= j < 64 * final(words).len() ==> seq_bit(final(words)@, j) == (j == index as int
                || seq_bit(old(words)@, j)),
{
    let w = index / 64;
    let k = (index % 64) as u64;
    let updated = words[w] | (1u64 << k);
    words.set(w, updated);
    proof {
        assert forall|j: int| 0 <= j < 64 * words@.len() implies seq_bit(words@, j) == (j
            == index as int || seq_bit(old(words)@, j)) by {
            let jw = j / 64;
            let jk = j % 64;
            if jw == w as int {
                lemma_word_set_bit(old(words)@[jw], k, jk as u64);
                assert(index as int == 64 * (w as int) + (k as int));
                assert(j == 64 * jw + jk);
            } else {
                assert(words@[jw] == old(words)@[jw]);
                assert(j == index as int ==> jw == w as int);
            }
        }
    }
}

/// Initializes bit `index` (currently zero) to `b`.
pub fn init_bit(words: &mut Vec<u64>, index: usize, b: bool)
    requires
        index < 64 * old(words).len(),
        !seq_bit(old(words)@, index as int),
    ensures
        final(words).len() == old(words).len(),
        forall|j: int|
            0 <= j < 64 * final(words).len() ==> seq_bit(final(words)@, j) == (if j == index as int {
                b
            } else {
                seq_bit(old(words)@, j)
            }),
{
    if b {
        set_bit(words, index);
    }
}

/// Initializes the bit at the running cursor to `b` and advances the cursor.
pub fn init_successive_bit(words: &mut Vec<u64>, cursor: &mut usize, b: bool)
    requires
        *old(cursor) < 64 * old(words).len(),
        64 * old(words).len() <= usize::MAX,
        !seq_bit(old(words)@, *old(cursor) as int),
    ensures
        final(words).len() == old(words).len(),
        *final(cursor) == *old(cursor) + 1,
        forall|j: int|
            0 <= j < 64 * final(words).len() ==> seq_bit(final(words)@, j) == (if j == *old(
                cursor,
            ) as int {
                b
            } else {
                seq_bit(old(words)@, j)
            }),
{
    init_bit(words, *cursor, b);
    *cursor = *cursor + 1;
}

/// Reads the value of bits `[start, start + width)`.
pub fn get_bits(words: &Vec<u64>, start: usize, width: usize) -> (r: u64)
    requires
        width <= 64,
        start + width <= 64 * words.len(),
        64 * words.len() <= usize::MAX,
    ensures
        r == bits_value(words@, start as int, width as int),
{
    let mut r: u64 = 0;
    let mut t: usize = width;
    proof {
        vstd::arithmetic::power2::lemma2_to64();
    }
    while t > 0
        invariant
            t <= width <= 64,
            start + width <= 64 * words.len(),
            64 * words.len() <= usize::MAX,
            r == bits_value(words@, start + t, width - t),
            r < pow2((width - t) as nat),
        decreases t,
    {
        proof {
            lemma_bits_value_bound(words@, start + t - 1, width - t + 1);
            assert(pow2((width - t + 1) as nat) == 2 * pow2((width - t) as nat)) by {
                lemma_pow2_adds(1, (width - t) as nat);
                vstd::arithmetic::power2::lemma2_to64();
            }
            if width - t + 1 < 64 {
                lemma_pow2_strictly_increases((width - t + 1) as nat, 64);
            }
            assert(pow2(64) == 0x10000000000000000) by {
                vstd::arithmetic::power2::lemma2_to64_rest();
            }
        }
        t = t - 1;
        let b: u64 = if get_bit(words, start + t) {
            1
        } else {
            0
        };
        r = r * 2 + b;
    }
    r
}

/// Reads the `index`-th `width`-bit field.
pub fn get_fragment(words: &Vec<u64>, index: usize, width: usize) -> (r: u64)
    requires
        width <= 64,
        index * width + width <= 64 * words.len(),
        64 * words.len() <= usize::MAX,
    ensures
        r == fragment_value(words@, index as int, width as int),
{
    get_bits(words, index * width, width)
}

/// Writes the low `width` bits of `value` at the running bit cursor and
/// advances it; the target bits must still be zero.
pub fn init_successive_bits(words: &mut Vec<u64>, cursor: &mut usize, value: u64, width: usize)
    requires
        width <= 64,
        *old(cursor) + width <= 64 * old(words).len(),
        64 * old(words).len() <= usize::MAX,
        forall|j: int|
            *old(cursor) <= j < *old(cursor) + width ==> !seq_bit(old(words)@, j),
    ensures
        final(words).len() == old(words).len(),
        *final(cursor) == *old(cursor) + width,
        forall|j: int|
            0 <= j < 64 * final(words).len() && !(*old(cursor) <= j < *old(cursor) + width)
                ==> seq_bit(final(words)@, j) == seq_bit(old(words)@, j),
        bits_value(final(words)@, *old(cursor) as int, width as int) == (value as int) % (pow2(
            width as nat,
        ) as int),
{
    let start = *cursor;
    let ghost w0 = words@;
    let mut t: usize = 0;
    while t < width
        invariant
            t <= width <= 64,
            start + width <= 64 * words.len(),
            64 * words.len() <= usize::MAX,
            words.len() == old(words).len(),
            forall|j: int|
                0 <= j < 64 * words.len() && !(start <= j < start + t) ==> seq_bit(words@, j)
                    == seq_bit(w0, j),
            forall|j: int| start <= j < start + width ==> !seq_bit(w0, j),
            forall|j: int|
                0 <= j < t ==> seq_bit(words@, start + j) == word_bit(value, j),
        decreases width - t,
    {
        let b = (value >> (t as u64)) & 1 == 1;
        proof {
            assert(0 <= start + t < 64 * words.len());
            assert(seq_bit(words@, start + t as int) == seq_bit(w0, start + t as int));
            assert(!seq_bit(w0, start + t as int));
        }
        init_bit(words, start + t, b);
        t = t + 1;
    }
    proof {
        lemma_bits_value_of_word(words@, start as int, value, width as int);
    }
    *cursor = start + width;
}

/// Position of the first set bit at or after `from`, if any.
pub fn find_bit_one(words: &Vec<u64>, from: usize) -> (r: Option<usize>)
    requires
        64 * words.len() <= usize::MAX,
    ensures
        match r {
            Some(p) => from <= p < 64 * words.len() && seq_bit(words@, p as int) && forall|j: int|
                from <= j < p ==> !seq_bit(words@, j),
            None => forall|j: int| from <= j < 64 * words.len() ==> !seq_bit(words@, j),
        },
{
    let mut i: usize = from;
    let end = words.len() * 64;
    while i < end
        invariant
            from <= i,
            end == 64 * words.len(),
            forall|j: int| from <= j < i ==> !seq_bit(words@, j),
        decreases end - i,
    {
        if get_bit(words, i) {
            return Some(i);
        }
        i = i + 1;
    }
    None
}

/// Position of the last set bit at or before `from`, if any.
pub fn rfind_bit_one(words: &Vec<u64>, from: usize) -> (r: Option<usize>)
    requires
        from < 64 * words.len(),
        64 * words.len() <= usize::MAX,
    ensures
        match r {
            Some(p) => p <= from && seq_bit(words@, p as int) && forall|j: int|
                p < j <= from ==> !seq_bit(words@, j),
            None => forall|j: int| 0 <= j <= from ==> !seq_bit(words@, j),
        },
{
    let mut i: usize = from + 1;
    while i > 0
        invariant
            i <= from + 1,
            from < 64 * words.len(),
            forall|j: int| i <= j <= from ==> !seq_bit(words@, j),
        decreases i,
    {
        i = i - 1;
        if get_bit(words, i) {
            return Some(i);
        }
    }
    None
}

/// A vector of `words` zeroed words encodes an all-zero bit array.
pub fn with_zeroed_words(words: usize) -> (r: Vec<u64>)
    ensures
        r.len() == words,
        forall|j: int| 0 <= j < 64 * words ==> !seq_bit(r@, j),
{
    let mut v: Vec<u64> = Vec::new();
    let mut i: usize = 0;
    while i < words
        invariant
            i <= words,
            v.len() == i,
            forall|k: int| 0 <= k < i ==> v@[k] == 0u64,
        decreases words - i,
    {
        v.push(0u64);
        i = i + 1;
    }
    proof {
        assert forall|j: int| 0 <= j < 64 * words implies !seq_bit(v@, j) by {
            assert(0 <= j / 64 < words) by (nonlinear_arith)
                requires 0 <= j < 64 * words;
            assert(v@[j / 64] == 0u64);
            let k = (j % 64) as u64;
            assert(((0u64 >> k) & 1) != 1) by (bit_vector);
        }
    }
    v
}

/// Number of words needed to hold `bits` bits.
pub fn words_for_bits(bits: usize) -> (r: usize)
    requires
        bits + 63 <= usize::MAX,
    ensures
        64 * r >= bits,
        bits > 0 ==> 64 * (r - 1) < bits,
        bits == 0 ==> r == 0,
{
    (bits + 63) / 64
}

} // verus!
