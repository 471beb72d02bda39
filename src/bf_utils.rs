//! Bloom-filter primitives: insertion of hash words, merging, and popcounts of common bits.
use vstd::prelude::*;

use crate::{Sdbf, BF_CLASS_MASKS, BITS};
use vstd::arithmetic::power2::pow2;

verus! {

/// Number of set bits of a byte.
pub open spec fn popcount(b: u8) -> nat
    decreases b,
{
    if b == 0 {
        0
    } else {
        (b % 2) as nat + popcount(b / 2)
    }
}

/// Number of set bits of a byte sequence.
pub open spec fn filter_weight(s: Seq<u8>) -> nat
    decreases s.len(),
{
    if s.len() == 0 {
        0
    } else {
        filter_weight(s.drop_last()) + popcount(s.last())
    }
}

/// Number of bits set in both `a` and `b` among their first `n` bytes.
pub open spec fn common_bits(a: Seq<u8>, b: Seq<u8>, n: int) -> nat
    decreases n,
{
    if n <= 0 {
        0
    } else {
        common_bits(a, b, n - 1) + popcount(a[n - 1] & b[n - 1])
    }
}

proof fn lemma_popcount_le(b: u8, k: nat)
    requires
        (b as int) < pow2(k) as int,
    ensures
        popcount(b) <= k,
    decreases k,
{
    if b != 0 {
        if k == 0 {
            assert(pow2(0) == 1) by {
                vstd::arithmetic::power2::lemma2_to64();
            }
        } else {
            vstd::arithmetic::power2::lemma_pow2_unfold(k);
            lemma_popcount_le(b / 2, (k - 1) as nat);
        }
    }
}

/// Popcount of one byte.
pub fn pop_byte(b: u8) -> (r: u32)
    ensures
        r as nat == popcount(b),
        r <= 8,
{
    proof {
        vstd::arithmetic::power2::lemma2_to64();
        lemma_popcount_le(b, 8);
    }
    let mut x: u8 = b;
    let mut c: u32 = 0;
    while x > 0
        invariant
            c as nat + popcount(x) == popcount(b),
            popcount(b) <= 8,
        decreases x,
    {
        c = c + (x % 2) as u32;
        x = x / 2;
    }
    c
}

/// Filter index of a (masked) hash word: its byte.
pub open spec fn bit_byte(w: u32) -> int {
    (w >> 3) as int
}

/// Filter index of a (masked) hash word: the mask of its bit within the byte.
pub open spec fn bit_of(w: u32) -> u8 {
    BITS@[(w & 7) as int]
}

/// Set the bit that `w` addresses in the filter that starts at byte `base`.
pub open spec fn set_bit_at(bf: Seq<u8>, base: int, w: u32) -> Seq<u8> {
    bf.update(base + bit_byte(w), bf[base + bit_byte(w)] | bit_of(w))
}

/// Set the bits of all words of `ws`, in order, in the filter that starts at `base`.
pub open spec fn insert_words_at(bf: Seq<u8>, base: int, ws: Seq<u32>) -> Seq<u8>
    decreases ws.len(),
{
    if ws.len() == 0 {
        bf
    } else {
        set_bit_at(insert_words_at(bf, base, ws.drop_last()), base, ws.last())
    }
}

/// Number of words of `ws` whose bit was still clear when its turn came.
pub open spec fn new_bits_at(bf: Seq<u8>, base: int, ws: Seq<u32>) -> nat
    decreases ws.len(),
{
    if ws.len() == 0 {
        0
    } else {
        let prev = insert_words_at(bf, base, ws.drop_last());
        new_bits_at(bf, base, ws.drop_last()) + (if prev[base + bit_byte(ws.last())] & bit_of(
            ws.last(),
        ) == 0 {
            1nat
        } else {
            0nat
        })
    }
}

/// Set the bits of all words of `ws`, in order.
pub open spec fn insert_words(bf: Seq<u8>, ws: Seq<u32>) -> Seq<u8> {
    insert_words_at(bf, 0, ws)
}

/// Number of words of `ws` whose bit was still clear when its turn came.
pub open spec fn new_bits(bf: Seq<u8>, ws: Seq<u32>) -> nat {
    new_bits_at(bf, 0, ws)
}

/// The first five words of `h`, each masked with `m`.
pub open spec fn masked_words(h: Seq<u32>, m: u32) -> Seq<u32> {
    Seq::new(5, |i: int| h[i] & m)
}

/// Mask the first five words of `sha1_hash` with `bit_mask` (in place) and set the bit
/// each addresses in the filter that starts at byte `base` of `bf`.
pub(crate) fn insert_masked_at(bf: &mut [u8], base: usize, sha1_hash: &mut [u32], bit_mask: u32) -> (r: u32)
    requires
        old(sha1_hash)@.len() >= 5,
        base + (bit_mask >> 3) < old(bf)@.len(),
    ensures
        ({
            let ws = masked_words(old(sha1_hash)@, bit_mask);
            &&& final(sha1_hash)@.len() == old(sha1_hash)@.len()
            &&& final(bf)@.len() == old(bf)@.len()
            &&& forall|i: int|
                0 <= i < old(sha1_hash)@.len() ==> #[trigger] final(sha1_hash)@[i] == if i < 5 {
                    old(sha1_hash)@[i] & bit_mask
                } else {
                    old(sha1_hash)@[i]
                }
            &&& final(bf)@ == insert_words_at(old(bf)@, base as int, ws)
            &&& r as nat == new_bits_at(old(bf)@, base as int, ws)
        }),
        r <= 5,
{
    let ghost ws = masked_words(old(sha1_hash)@, bit_mask);
    let ghost bf0 = old(bf)@;
    let n = bf.len();
    let mut insert_cnt: u32 = 0;
    let mut i: usize = 0;
    while i < 5
        invariant
            i <= 5,
            n == bf@.len(),
            ws == masked_words(old(sha1_hash)@, bit_mask),
            base + (bit_mask >> 3) < bf0.len(),
            bf@.len() == bf0.len(),
            sha1_hash@.len() == old(sha1_hash)@.len(),
            5 <= old(sha1_hash)@.len(),
            forall|k: int|
                0 <= k < old(sha1_hash)@.len() ==> #[trigger] sha1_hash@[k] == if k < i {
                    old(sha1_hash)@[k] & bit_mask
                } else {
                    old(sha1_hash)@[k]
                },
            bf@ == insert_words_at(bf0, base as int, ws.subrange(0, i as int)),
            insert_cnt as nat == new_bits_at(bf0, base as int, ws.subrange(0, i as int)),
            insert_cnt <= i,
        decreases 5 - i,
    {
        let h = sha1_hash[i];
        let w = h & bit_mask;
        sha1_hash[i] = w;
        proof {
            assert((w >> 3) <= (bit_mask >> 3)) by (bit_vector)
                requires
                    w == h & bit_mask,
            ;
            assert(w & 7 < 8) by (bit_vector);
            let s1 = ws.subrange(0, i as int + 1);
            assert(s1.drop_last() =~= ws.subrange(0, i as int));
            assert(s1.last() == w);
        }
        let k = base + (w >> 3) as usize;
        let bit = BITS[(w & 7) as usize];
        if bf[k] & bit == 0 {
            insert_cnt = insert_cnt + 1;
        }
        bf[k] = bf[k] | bit;
        i = i + 1;
    }
    proof {
        assert(ws.subrange(0, 5) =~= ws);
    }
    insert_cnt
}

/// Insert the five words of a SHA-1 digest into filter `bf` of class `bf_class`:
/// each word is masked to the class's index width (in place) and sets one bit.
/// Returns the number of bits that went from 0 to 1.
pub fn bf_sha1_insert(bf: &mut [u8], bf_class: u8, sha1_hash: &mut [u32]) -> (r: u32)
    requires
        bf_class < 6,
        old(sha1_hash)@.len() >= 5,
        (BF_CLASS_MASKS@[bf_class as int] >> 3) < old(bf)@.len(),
    ensures
        ({
            let m = BF_CLASS_MASKS@[bf_class as int];
            let ws = masked_words(old(sha1_hash)@, m);
            &&& final(sha1_hash)@.len() == old(sha1_hash)@.len()
            &&& forall|i: int|
                0 <= i < old(sha1_hash)@.len() ==> #[trigger] final(sha1_hash)@[i] == if i < 5 {
                    old(sha1_hash)@[i] & m
                } else {
                    old(sha1_hash)@[i]
                }
            &&& final(bf)@ == insert_words(old(bf)@, ws)
            &&& r as nat == new_bits(old(bf)@, ws)
        }),
        r <= 5,
{
    let bit_mask = BF_CLASS_MASKS[bf_class as usize];
    insert_masked_at(bf, 0, sha1_hash, bit_mask)
}

/// Bitwise OR of the first `size` words of `overlay` into `base`.
pub fn bf_merge(base: &mut [u32], overlay: &[u32], size: usize)
    requires
        size <= old(base)@.len(),
        size <= overlay@.len(),
    ensures
        final(base)@.len() == old(base)@.len(),
        forall|i: int|
            0 <= i < old(base)@.len() ==> #[trigger] final(base)@[i] == if i < size {
                old(base)@[i] | overlay@[i]
            } else {
                old(base)@[i]
            },
{
    let mut i: usize = 0;
    while i < size
        invariant
            i <= size,
            size <= overlay@.len(),
            base@.len() == old(base)@.len(),
            size <= base@.len(),
            forall|k: int|
                0 <= k < old(base)@.len() ==> #[trigger] base@[k] == if k < i {
                    old(base)@[k] | overlay@[k]
                } else {
                    old(base)@[k]
                },
        decreases size - i,
    {
        base[i] = base[i] | overlay[i];
        i = i + 1;
    }
}

/// Add the common bits of bytes `from..to` to `acc`, the count over bytes `0..from`.
fn count_common(bfilter_1: &[u8], bfilter_2: &[u8], acc: u32, from: usize, to: usize) -> (r: u32)
    requires
        from <= to,
        to <= bfilter_1@.len(),
        to <= bfilter_2@.len(),
        acc as nat == common_bits(bfilter_1@, bfilter_2@, from as int),
        acc + 8 * (to - from) <= u32::MAX,
    ensures
        r as nat == common_bits(bfilter_1@, bfilter_2@, to as int),
        r <= acc + 8 * (to - from),
{
    let mut result = acc;
    let mut i = from;
    while i < to
        invariant
            from <= i <= to,
            to <= bfilter_1@.len(),
            to <= bfilter_2@.len(),
            result as nat == common_bits(bfilter_1@, bfilter_2@, i as int),
            result <= acc + 8 * (i - from),
            acc + 8 * (to - from) <= u32::MAX,
        decreases to - i,
    {
        let p = pop_byte(bfilter_1[i] & bfilter_2[i]);
        result = result + p;
        i = i + 1;
    }
    result
}

/// Number of bits set in both filters, over their first `bf_size` bytes.
pub fn bf_bitcount(bfilter_1: &[u8], bfilter_2: &[u8], bf_size: usize) -> (r: u32)
    requires
        bf_size <= bfilter_1@.len(),
        bf_size <= bfilter_2@.len(),
        8 * bf_size <= u32::MAX,
    ensures
        r as nat == common_bits(bfilter_1@, bfilter_2@, bf_size as int),
{
    count_common(bfilter_1, bfilter_2, 0, 0, bf_size)
}

/// Element count of filter `index`: from `elem_counts` in block mode; in stream mode
/// `max_elem` for every filter but the last, and `last_count` for the last.
pub open spec fn elem_count_of(sdbf: &Sdbf, index: int) -> int {
    if sdbf.elem_counts@.len() == 0 {
        if index + 1 < sdbf.bf_count {
            sdbf.max_elem as int
        } else {
            sdbf.last_count as int
        }
    } else {
        sdbf.elem_counts@[index] as int
    }
}

/// Number of elements in filter `index` of `sdbf`, in either mode.
pub fn get_elem_count(sdbf: &Sdbf, index: usize) -> (r: u32)
    requires
        sdbf.elem_counts@.len() > 0 ==> index < sdbf.elem_counts@.len(),
    ensures
        r as int == elem_count_of(sdbf, index as int),
{
    if sdbf.elem_counts.len() == 0 {
        if index < u32::MAX as usize && (index as u32) + 1 < sdbf.bf_count {
            sdbf.max_elem
        } else {
            sdbf.last_count
        }
    } else {
        sdbf.elem_counts[index] as u32
    }
}

/// Result of the cut-off bitcount of two 256-byte filters: 0 as soon as one of the
/// extrapolations from the first 32, 64 or 128 bytes, plus `slack`, falls short of a
/// positive `cut_off`; otherwise the full count of common bits.
pub open spec fn cut_bitcount(a: Seq<u8>, b: Seq<u8>, cut_off: u32, slack: i32) -> nat {
    if cut_off > 0 && 8 * common_bits(a, b, 32) + slack < cut_off {
        0
    } else if cut_off > 0 && 4 * common_bits(a, b, 64) + slack < cut_off {
        0
    } else if cut_off > 0 && 2 * common_bits(a, b, 128) + slack < cut_off {
        0
    } else {
        common_bits(a, b, 256)
    }
}

/// Common bits of two 256-byte filters, with early exits at 32, 64 and 128 bytes
/// where the count so far, scaled up to the whole filter, cannot reach `cut_off`.
pub fn bf_bitcount_cut_256(bfilter_1: &[u8], bfilter_2: &[u8], cut_off: u32, slack: i32) -> (r: u32)
    requires
        bfilter_1@.len() >= 256,
        bfilter_2@.len() >= 256,
    ensures
        r as nat == cut_bitcount(bfilter_1@, bfilter_2@, cut_off, slack),
{
    let result = count_common(bfilter_1, bfilter_2, 0, 0, 32);
    if cut_off > 0 && 8 * (result as i64) + (slack as i64) < cut_off as i64 {
        return 0;
    }
    let result = count_common(bfilter_1, bfilter_2, result, 32, 64);
    if cut_off > 0 && 4 * (result as i64) + (slack as i64) < cut_off as i64 {
        return 0;
    }
    let result = count_common(bfilter_1, bfilter_2, result, 64, 128);
    if cut_off > 0 && 2 * (result as i64) + (slack as i64) < cut_off as i64 {
        return 0;
    }
    count_common(bfilter_1, bfilter_2, result, 128, 256)
}

/// Without a cut-off and slack, the cut-off bitcount is the plain bitcount of 256 bytes.
pub proof fn lemma_cut_without_cutoff(a: Seq<u8>, b: Seq<u8>)
    ensures
        cut_bitcount(a, b, 0, 0) == common_bits(a, b, 256),
{
}

/// The cut-off bitcount is either the true count of common bits, or 0 where the count
/// over one of the prefixes of 32, 64 or 128 bytes, scaled to 256 bytes and with
/// `slack` added, stays below `cut_off`.
pub proof fn lemma_cut_exact_or_pruned(a: Seq<u8>, b: Seq<u8>, cut_off: u32, slack: i32)
    ensures
        cut_bitcount(a, b, cut_off, slack) == common_bits(a, b, 256) || ({
            &&& cut_bitcount(a, b, cut_off, slack) == 0
            &&& cut_off > 0
            &&& (8 * common_bits(a, b, 32) + slack < cut_off || 4 * common_bits(a, b, 64) + slack
                < cut_off || 2 * common_bits(a, b, 128) + slack < cut_off)
        }),
{
}

} // verus!
