//! Similarity digests of byte streams built from Bloom filters of entropy-ranked features.
use vstd::prelude::*;

pub mod bf_utils;
pub mod entr64;
pub mod ranks;
pub mod sdbf_core;

use crate::bf_utils::filter_weight;
use crate::bf_utils::pop_byte;

verus! {

/// Filter size in bytes (m = 2048 bits).
pub const BF_SIZE: u32 = 256;

/// Number of entropy bins; the entropy scale is `BINS << ENTR_POWER`.
pub const BINS: u32 = 1000;

/// Bits of an entropy value below its rank-table index.
pub const ENTR_POWER: u32 = 10;

/// Width of the popularity window.
pub const POP_WIN_SIZE: u32 = 64;

/// Stride at which the running entropy is recomputed from scratch.
pub const BLOCK_SIZE: u32 = 4096;

/// Minimum popularity score (exclusive) of a feature.
pub const THRESHOLD: u16 = 16;

/// Cap on the elements of one filter.
pub const MAX_ELEM: u32 = 192;

/// Most filters a digest may hold: keeps the filter buffer within 2 GiB.
pub const MAX_FILTERS: u32 = 0x7F_FFFF;

/// Minimum input size, and minimum size of a trailing block that gets its own filter.
pub const MIN_FILE_SIZE: usize = 512;

/// Single-bit masks for the eight bit positions of a byte.
pub const BITS: [u8; 8] = [0x01, 0x02, 0x04, 0x08, 0x10, 0x20, 0x40, 0x80];

/// Index masks of the filter classes; class 0 addresses 2048 bits.
pub const BF_CLASS_MASKS: [u32; 6] = [0x7FF, 0x7FFF, 0x7FFFF, 0x7FFFFF, 0x7FFFFFF, 0xFFFFFFFF];


/// A similarity digest: a run of Bloom filters.
pub struct Sdbf {
    /// Name (usually, source file)
    pub name: String,
    /// Number of filters that carry data
    pub bf_count: u32,
    /// Filter size in bytes (m / 8)
    pub bf_size: u32,
    /// Number of sub-hashes per element (k)
    pub hash_count: u32,
    /// Bit mask of filter indices (agrees with m)
    pub mask: u32,
    /// Max number of elements per filter (n)
    pub max_elem: u32,
    /// Number of elements in the last filter; zero means look at `elem_counts`
    pub last_count: u32,
    /// The filters, one after another
    pub buffer: Vec<u8>,
    /// Hamming weight of each filter
    pub hamming: Vec<u16>,
    /// Element count of each filter (block mode only)
    pub elem_counts: Vec<u16>,
    /// Size of the base block in block mode; 1 otherwise
    pub dd_block_size: u32,
}

/// Weight of filter `i` of a buffer of 256-byte filters.
pub open spec fn filter_weight_at(buffer: Seq<u8>, i: int) -> nat {
    filter_weight(buffer.subrange(i * 256, i * 256 + 256))
}

/// Popcount of the 256 bytes from `start`.
fn filter_weight_from(buffer: &[u8], start: usize) -> (r: u16)
    requires
        start + 256 <= buffer@.len(),
    ensures
        r as nat == filter_weight(buffer@.subrange(start as int, start + 256)),
{
    proof {
        assert(buffer@.len() == buffer.len());
    }
    let mut w: u16 = 0;
    let mut j: usize = start;
    let end = start + 256;
    while j < end
        invariant
            start + 256 <= buffer@.len(),
            end == start + 256,
            start <= j <= end,
            w as nat == filter_weight(buffer@.subrange(start as int, j as int)),
            w <= 8 * (j - start),
        decreases end - j,
    {
        proof {
            let s = buffer@.subrange(start as int, j as int + 1);
            assert(s.drop_last() =~= buffer@.subrange(start as int, j as int));
        }
        let p = pop_byte(buffer[j]);
        w = w + p as u16;
        j = j + 1;
    }
    w
}

impl Sdbf {
    /// An empty stream-mode digest with the fixed filter parameters.
    pub fn new(name: String) -> (r: Self)
        ensures
            r.name@ == name@,
            r.bf_count == 1,
            r.hash_count == 5,
            r.bf_size == BF_SIZE,
            r.mask == BF_CLASS_MASKS[0],
            r.max_elem == MAX_ELEM,
            r.last_count == 0,
            r.buffer@.len() == 0,
            r.hamming@.len() == 0,
            r.elem_counts@.len() == 0,
            r.dd_block_size == 1,
    {
        Sdbf {
            name,
            bf_count: 1,
            hash_count: 5,
            bf_size: BF_SIZE,
            mask: BF_CLASS_MASKS[0],
            max_elem: MAX_ELEM,
            last_count: 0,
            buffer: Vec::new(),
            hamming: Vec::new(),
            elem_counts: Vec::new(),
            dd_block_size: 1,
        }
    }

    /// Fill `hamming` with the popcount of each of the `bf_count` filters.
    pub fn compute_hamming(&mut self)
        requires
            old(self).bf_count as int * 256 <= old(self).buffer@.len(),
        ensures
            final(self).hamming@.len() == old(self).bf_count,
            forall|i: int|
                0 <= i < old(self).bf_count ==> #[trigger] final(self).hamming@[i] as nat
                    == filter_weight_at(old(self).buffer@, i),
            final(self).buffer == old(self).buffer,
            final(self).bf_count == old(self).bf_count,
            final(self).name == old(self).name,
            final(self).last_count == old(self).last_count,
            final(self).elem_counts == old(self).elem_counts,
    {
        let mut hamming: Vec<u16> = Vec::new();
        let n = self.bf_count as usize;
        let mut i: usize = 0;
        while i < n
            invariant
                i <= n,
                n == self.bf_count,
                n * 256 <= self.buffer@.len(),
                hamming@.len() == i,
                forall|k: int|
                    0 <= k < i ==> #[trigger] hamming@[k] as nat == filter_weight_at(self.buffer@, k),
            decreases n - i,
        {
            proof {
                assert((i + 1) * 256 <= n * 256) by (nonlinear_arith)
                    requires
                        i < n,
                ;
                assert(self.buffer@.len() == self.buffer.len());
            }
            let w = filter_weight_from(self.buffer.as_slice(), i * 256);
            hamming.push(w);
            i = i + 1;
        }
        self.hamming = hamming;
    }
}

/// Global parameters of digest generation.
pub struct SdbfParameters {
    pub thread_cnt: u32,
    pub entr_win_size: u32,
    pub bf_size: u32,
    pub block_size: u32,
    pub pop_win_size: u32,
    pub threshold: u16,
    pub max_elem: u32,
    pub output_threshold: i32,
    pub warnings: bool,
    pub sample_size: u32,
}

impl Default for SdbfParameters {
    fn default() -> (r: Self)
        ensures
            r.thread_cnt == 1,
            r.entr_win_size == 64,
            r.bf_size == BF_SIZE,
            r.block_size == BLOCK_SIZE,
            r.pop_win_size == POP_WIN_SIZE,
            r.threshold == THRESHOLD,
            r.max_elem == MAX_ELEM,
            r.output_threshold == 1,
            r.warnings == false,
            r.sample_size == 0,
    {
        SdbfParameters {
            thread_cnt: 1,
            entr_win_size: 64,
            bf_size: BF_SIZE,
            block_size: BLOCK_SIZE,
            pop_win_size: POP_WIN_SIZE,
            threshold: THRESHOLD,
            max_elem: MAX_ELEM,
            output_threshold: 1,
            warnings: false,
            sample_size: 0,
        }
    }
}

} // verus!
