//! Digest generation: entropy ranks, popularity scores, and filling the filters.
use vstd::prelude::*;
use vstd::slice::slice_subrange;
use vstd::slice::slice_to_vec;

use crate::entr64::{
    counts_window, entr64_inc_int, entr64_init_int, lemma_window_entropy_range, window_entropy,
    Ascii,
};
use crate::ranks::{entr_rank, rank_of};
use crate::bf_utils::{insert_masked_at, insert_words_at, masked_words, new_bits_at};
use crate::{Sdbf, BLOCK_SIZE, ENTR_POWER, MAX_ELEM, MAX_FILTERS, MIN_FILE_SIZE, THRESHOLD};

verus! {

/// The SHA-1 digest of a byte sequence.
pub uninterp spec fn sha1_of(data: Seq<u8>) -> Seq<u8>;

/// Relies on `sha1::Sha1` through `digest::Digest::digest`: the 20-byte SHA-1 digest,
/// which depends on the input bytes alone.
#[verifier::external_body]
fn sha1_digest(data: &[u8]) -> (r: [u8; 20])
    ensures
        r@ == sha1_of(data@),
{
    <sha1::Sha1 as sha1::Digest>::digest(data).into()
}

/// Word `j` of a digest, read little-endian from bytes `4j..4j+4`.
pub open spec fn digest_word(d: Seq<u8>, j: int) -> u32 {
    (d[4 * j] as u32) | ((d[4 * j + 1] as u32) << 8) | ((d[4 * j + 2] as u32) << 16) | ((d[4
        * j + 3] as u32) << 24)
}

/// The five words of the SHA-1 digest of `data`.
pub open spec fn sha1_words(data: Seq<u8>) -> Seq<u32> {
    Seq::new(5, |j: int| digest_word(sha1_of(data), j))
}

/// Hash `data` with SHA-1 and return the digest as five 32-bit words.
fn hash_words(data: &[u8]) -> (r: Vec<u32>)
    ensures
        r@ == sha1_words(data@),
{
    let d = sha1_digest(data);
    let mut r: Vec<u32> = Vec::new();
    let mut j: usize = 0;
    while j < 5
        invariant
            j <= 5,
            d@ == sha1_of(data@),
            r@ == Seq::new(j as nat, |k: int| digest_word(sha1_of(data@), k)),
        decreases 5 - j,
    {
        let w = (d[4 * j] as u32) | ((d[4 * j + 1] as u32) << 8) | ((d[4 * j + 2] as u32) << 16)
            | ((d[4 * j + 3] as u32) << 24);
        r.push(w);
        j = j + 1;
        proof {
            assert(r@ =~= Seq::new(j as nat, |k: int| digest_word(sha1_of(data@), k)));
        }
    }
    r
}

/// Number of 64-byte windows (and popularity windows) of a chunk of `size` bytes.
pub open spec fn window_count(size: int) -> int {
    if size > 64 {
        size - 64
    } else {
        0
    }
}

/// Rank of the 64-byte window at offset `i` of `data`.
pub open spec fn rank_at(data: Seq<u8>, i: int) -> u16 {
    entr_rank(window_entropy(data.subrange(i, i + 64)) / 1024)
}

/// Ranks of a chunk of `size` bytes at the start of `data`, held in `len` cells.
pub open spec fn chunk_ranks_of(data: Seq<u8>, size: int, len: int) -> Seq<u16> {
    Seq::new(len as nat, |i: int| if i < window_count(size) { rank_at(data, i) } else { 0u16 })
}

/// Ranks of `old` rotated left by `carryover`, with all but the first `carryover` cells zeroed.
pub open spec fn carried_ranks(old: Seq<u16>, carryover: int) -> Seq<u16> {
    Seq::new(
        old.len(),
        |i: int|
            if i < carryover {
                old[(i + carryover) % (old.len() as int)]
            } else {
                0u16
            },
    )
}

/// Rank every 64-byte window of the chunk of `chunk_size` bytes at the start of
/// `file_buffer`. The first `carryover` cells first take the ranks that a left rotation
/// by `carryover` brings there; every other cell is zeroed; then each offset that starts a
/// window gets the rank of its window's entropy.
pub fn gen_chunk_ranks(file_buffer: &[u8], chunk_size: u64, chunk_ranks: &mut [u16], carryover: u16)
    requires
        chunk_size <= file_buffer@.len(),
        chunk_size <= old(chunk_ranks)@.len(),
        carryover as int <= old(chunk_ranks)@.len(),
    ensures
        final(chunk_ranks)@.len() == old(chunk_ranks)@.len(),
        forall|i: int|
            0 <= i < old(chunk_ranks)@.len() ==> #[trigger] final(chunk_ranks)@[i] == if i
                < window_count(chunk_size as int) {
                rank_at(file_buffer@, i)
            } else {
                carried_ranks(old(chunk_ranks)@, carryover as int)[i]
            },
{
    let len = chunk_ranks.len();
    let snapshot = slice_to_vec(chunk_ranks);
    let k = carryover as usize;
    let mut i: usize = 0;
    while i < len
        invariant
            len == chunk_ranks@.len(),
            len == old(chunk_ranks)@.len(),
            snapshot@ == old(chunk_ranks)@,
            k == carryover,
            k <= len,
            i <= len,
            forall|j: int|
                0 <= j < i ==> #[trigger] chunk_ranks@[j] == carried_ranks(old(chunk_ranks)@, k as int)[j],
        decreases len - i,
    {
        if i < k {
            chunk_ranks[i] = snapshot[(i + k) % len];
        } else {
            chunk_ranks[i] = 0;
        }
        i = i + 1;
    }
    let windows: usize = if chunk_size > 64 { (chunk_size - 64) as usize } else { 0 };
    let mut ascii: Ascii = [0u8; 256];
    let mut entropy: u64 = 0;
    let mut offset: usize = 0;
    while offset < windows
        invariant
            windows == window_count(chunk_size as int),
            chunk_size <= file_buffer@.len(),
            windows <= len,
            len == chunk_ranks@.len(),
            len == old(chunk_ranks)@.len(),
            k == carryover,
            offset <= windows,
            offset > 0 ==> counts_window(ascii@, file_buffer@.subrange(offset - 1, offset + 63)),
            offset > 0 ==> entropy == window_entropy(file_buffer@.subrange(offset - 1, offset + 63)),
            forall|j: int|
                0 <= j < len ==> #[trigger] chunk_ranks@[j] == if j < offset {
                    rank_at(file_buffer@, j)
                } else {
                    carried_ranks(old(chunk_ranks)@, k as int)[j]
                },
        decreases windows - offset,
    {
        let ghost w = file_buffer@.subrange(offset as int, offset + 64);
        if offset % (BLOCK_SIZE as usize) == 0 {
            let sub = slice_subrange(file_buffer, offset, file_buffer.len());
            proof {
                assert(sub@.subrange(0, 64) =~= w);
            }
            entropy = entr64_init_int(sub, &mut ascii);
        } else {
            let sub = slice_subrange(file_buffer, offset - 1, file_buffer.len());
            proof {
                assert(sub@.subrange(0, 64) =~= file_buffer@.subrange(offset - 1, offset + 63));
                assert(sub@.subrange(1, 65) =~= w);
            }
            entropy = entr64_inc_int(entropy, sub, &mut ascii);
        }
        proof {
            assert(entropy == window_entropy(w));
            lemma_window_entropy_range(w);
            assert(entropy / 1024 <= 1000);
        }
        let idx = entropy >> ENTR_POWER;
        proof {
            assert(entropy >> 10u32 == entropy / 1024) by (bit_vector);
        }
        let r = rank_of(idx as usize);
        chunk_ranks[offset] = r;
        offset = offset + 1;
        proof {
            assert(file_buffer@.subrange(offset - 1, offset + 63) =~= w);
        }
    }
}

/// State of the popularity competition after some windows: the position and rank of the
/// current minimum, and the scores so far.
pub struct PopState {
    pub min_pos: int,
    pub min_rank: int,
    pub scores: Seq<int>,
}

/// Minimum positive rank, and its position, over `ranks[i..j]`, scanning from `i`:
/// a strictly smaller positive rank wins, and an equal rank right next to the current
/// minimum moves the minimum right.
pub open spec fn rescan(ranks: Seq<u16>, i: int, j: int) -> (int, int)
    decreases j - i,
{
    if j <= i + 1 {
        (ranks[i] as int, i)
    } else {
        let (r, p) = rescan(ranks, i, j - 1);
        let x = ranks[j - 1] as int;
        if x < r && x > 0 {
            (x, j - 1)
        } else if p == j - 2 && x == r {
            (r, j - 1)
        } else {
            (r, p)
        }
    }
}

/// One window `i` of the popularity competition. Where the previous minimum is positive,
/// still inside the window, and not beaten by the entering rank, the window slides cheaply
/// (an equal entering rank takes over the minimum); otherwise the window is scanned again.
/// The position of the minimum then scores a point (after a scan: only with a positive rank).
pub open spec fn pop_step(ranks: Seq<u16>, i: int, st: PopState) -> PopState {
    if i > 0 && st.min_rank > 0 && ranks[i + 64] >= st.min_rank && i < st.min_pos {
        let mp = if ranks[i + 64] == st.min_rank {
            i + 64
        } else {
            st.min_pos
        };
        PopState { min_pos: mp, min_rank: st.min_rank, scores: st.scores.update(mp, st.scores[mp] + 1) }
    } else {
        let (r, p) = rescan(ranks, i, i + 64);
        PopState {
            min_pos: p,
            min_rank: r,
            scores: if ranks[p] > 0 {
                st.scores.update(p, st.scores[p] + 1)
            } else {
                st.scores
            },
        }
    }
}

/// The competition over the first `n` windows, with `len` zeroed scores to start from.
pub open spec fn pop_run(ranks: Seq<u16>, n: int, len: nat) -> PopState
    decreases n,
{
    if n <= 0 {
        PopState { min_pos: 0, min_rank: 0, scores: Seq::new(len, |p: int| 0int) }
    } else {
        pop_step(ranks, n - 1, pop_run(ranks, n - 1, len))
    }
}

/// Scores of a chunk of `size` bytes with ranks `ranks`, in `len` cells.
pub open spec fn chunk_scores_of(ranks: Seq<u16>, size: int, len: nat) -> Seq<int> {
    pop_run(ranks, window_count(size), len).scores
}

/// Number of the first `n` scores that equal `v`.
pub open spec fn score_count(scores: Seq<u16>, n: int, v: int) -> int
    decreases n,
{
    if n <= 0 {
        0
    } else {
        score_count(scores, n - 1, v) + (if scores[n - 1] as int == v {
            1int
        } else {
            0int
        })
    }
}

/// Number of windows among the first `i` that contain position `p`.
spec fn windows_over(p: int, i: int) -> int {
    let lo = if p - 64 > 0 {
        p - 64
    } else {
        0
    };
    let hi = if i < p + 1 {
        i
    } else {
        p + 1
    };
    if hi > lo {
        hi - lo
    } else {
        0
    }
}

/// Score every offset of the chunk by the popularity competition over its windows of
/// ranks; where `score_histo` is not empty, count each window's score into it.
pub fn gen_chunk_scores(chunk_ranks: &[u16], chunk_size: u64, chunk_scores: &mut [u16], score_histo: &mut [i32])
    requires
        chunk_size <= chunk_ranks@.len(),
        chunk_size <= old(chunk_scores)@.len(),
        old(score_histo)@.len() == 0 || old(score_histo)@.len() >= 66,
        forall|v: int|
            0 <= v < old(score_histo)@.len() ==> 0 <= #[trigger] old(score_histo)@[v] <= i32::MAX
                - chunk_size,
    ensures
        final(chunk_scores)@.len() == old(chunk_scores)@.len(),
        forall|p: int|
            0 <= p < old(chunk_scores)@.len() ==> #[trigger] final(chunk_scores)@[p] as int
                == chunk_scores_of(chunk_ranks@, chunk_size as int, old(chunk_scores)@.len())[p],
        forall|p: int| 0 <= p < old(chunk_scores)@.len() ==> #[trigger] final(chunk_scores)@[p] <= 65,
        final(score_histo)@.len() == old(score_histo)@.len(),
        forall|v: int|
            0 <= v < old(score_histo)@.len() ==> #[trigger] final(score_histo)@[v] == old(
                score_histo,
            )@[v] + score_count(final(chunk_scores)@, window_count(chunk_size as int), v),
{
    let slen = chunk_scores.len();
    let ghost len = slen as nat;
    let mut z: usize = 0;
    while z < slen
        invariant
            slen == chunk_scores@.len(),
            z <= slen,
            forall|p: int| 0 <= p < z ==> #[trigger] chunk_scores@[p] == 0u16,
        decreases slen - z,
    {
        chunk_scores[z] = 0;
        z = z + 1;
    }
    let rlen = chunk_ranks.len();
    let limit: usize = if chunk_size > 64 { (chunk_size - 64) as usize } else { 0 };
    let mut min_pos: usize = 0;
    let mut min_rank: u16 = 0;
    let mut i: usize = 0;
    while i < limit
        invariant
            limit == window_count(chunk_size as int),
            limit + 64 <= chunk_size || limit == 0,
            rlen == chunk_ranks@.len(),
            chunk_size <= chunk_ranks@.len(),
            chunk_size <= slen,
            slen == chunk_scores@.len(),
            len == slen,
            i <= limit,
            min_pos < i + 64,
            min_pos == pop_run(chunk_ranks@, i as int, len).min_pos,
            min_rank as int == pop_run(chunk_ranks@, i as int, len).min_rank,
            pop_run(chunk_ranks@, i as int, len).scores.len() == len,
            forall|p: int|
                0 <= p < slen ==> #[trigger] chunk_scores@[p] as int == pop_run(
                    chunk_ranks@,
                    i as int,
                    len,
                ).scores[p],
            forall|p: int| 0 <= p < slen ==> #[trigger] chunk_scores@[p] <= windows_over(p, i as int),
        decreases limit - i,
    {
        let ghost st = pop_run(chunk_ranks@, i as int, len);
        let ghost i0 = i as int;
        let ghost sc0 = chunk_scores@;
        if i > 0 && min_rank > 0 && chunk_ranks[i + 64] >= min_rank && i < min_pos {
            if chunk_ranks[i + 64] == min_rank {
                min_pos = i + 64;
            }
            proof {
                assert(chunk_scores@[min_pos as int] <= windows_over(min_pos as int, i as int));
            }
            chunk_scores[min_pos] = chunk_scores[min_pos] + 1;
        } else {
            min_pos = i;
            min_rank = chunk_ranks[i];
            let mut j: usize = i + 1;
            while j < i + 64
                invariant
                    i + 64 <= chunk_size,
                    rlen == chunk_ranks@.len(),
                    chunk_size <= chunk_ranks@.len(),
                    i + 1 <= j <= i + 64,
                    i <= min_pos < j,
                    (min_rank as int, min_pos as int) == rescan(chunk_ranks@, i as int, j as int),
                decreases i + 64 - j,
            {
                if chunk_ranks[j] < min_rank && chunk_ranks[j] > 0 {
                    min_rank = chunk_ranks[j];
                    min_pos = j;
                } else if min_pos == j - 1 && chunk_ranks[j] == min_rank {
                    min_pos = j;
                }
                j = j + 1;
            }
            if chunk_ranks[min_pos] > 0 {
                proof {
                    assert(chunk_scores@[min_pos as int] <= windows_over(min_pos as int, i as int));
                }
                chunk_scores[min_pos] = chunk_scores[min_pos] + 1;
            }
        }
        i = i + 1;
        proof {
            let st2 = pop_step(chunk_ranks@, i0, st);
            assert(pop_run(chunk_ranks@, i as int, len) == st2);
            assert(st2.min_pos == min_pos);
            assert(st2.min_rank == min_rank as int);
            assert(st2.scores.len() == len);
            assert forall|p: int| 0 <= p < slen implies #[trigger] chunk_scores@[p] as int
                == st2.scores[p] by {
                assert(sc0[p] as int == st.scores[p]);
            }
            assert forall|p: int| 0 <= p < slen implies #[trigger] chunk_scores@[p]
                <= windows_over(p, i as int) by {
                assert(sc0[p] <= windows_over(p, i0));
            }
        }
    }
    if score_histo.len() >= 66 {
        let mut k: usize = 0;
        while k < limit
            invariant
                k <= limit,
                limit == window_count(chunk_size as int),
                limit <= chunk_size,
                chunk_size <= slen,
                slen == chunk_scores@.len(),
                score_histo@.len() == old(score_histo)@.len(),
                score_histo@.len() >= 66,
                forall|p: int| 0 <= p < slen ==> #[trigger] chunk_scores@[p] <= 65,
                forall|v: int|
                    0 <= v < old(score_histo)@.len() ==> 0 <= #[trigger] old(score_histo)@[v]
                        <= i32::MAX - chunk_size,
                forall|v: int|
                    0 <= v < score_histo@.len() ==> #[trigger] score_histo@[v] == old(score_histo)@[v]
                        + score_count(chunk_scores@, k as int, v),
            decreases limit - k,
        {
            let v = chunk_scores[k] as usize;
            proof {
                lemma_score_count_le(chunk_scores@, k as int, v as int);
                assert(old(score_histo)@[v as int] <= i32::MAX - chunk_size);
            }
            score_histo[v] = score_histo[v] + 1;
            k = k + 1;
        }
    }
}

proof fn lemma_score_count_le(scores: Seq<u16>, n: int, v: int)
    requires
        n >= 0,
    ensures
        0 <= score_count(scores, n, v) <= n,
    decreases n,
{
    if n > 0 {
        lemma_score_count_le(scores, n - 1, v);
    }
}

/// `b` extended with zero bytes to at least `n` bytes.
pub open spec fn grown(b: Seq<u8>, n: int) -> Seq<u8> {
    if b.len() >= n {
        b
    } else {
        b + Seq::new((n - b.len()) as nat, |k: int| 0u8)
    }
}

/// Extend `buf` with zero bytes to at least `n` bytes.
fn grow_to(buf: &mut Vec<u8>, n: usize)
    ensures
        final(buf)@ == grown(old(buf)@, n as int),
{
    let ghost b0 = old(buf)@;
    while buf.len() < n
        invariant
            b0 == old(buf)@,
            b0.len() <= buf@.len() <= n || (buf@.len() == b0.len() && b0.len() >= n),
            buf@ == b0 + Seq::new((buf@.len() - b0.len()) as nat, |k: int| 0u8),
        decreases n - buf@.len(),
    {
        buf.push(0);
        proof {
            assert(buf@ =~= b0 + Seq::new((buf@.len() - b0.len()) as nat, |k: int| 0u8));
        }
    }
    proof {
        if b0.len() >= n {
            assert(buf@ =~= b0);
        }
    }
}

/// The filter words of the feature at `offset` of `file`: the SHA-1 words of everything
/// from `offset` to the end of the file, masked to 2048-bit filter indices.
pub open spec fn feature_words(file: Seq<u8>, offset: int) -> Seq<u32> {
    masked_words(sha1_words(file.subrange(offset, file.len() as int)), 0x7FF)
}

/// Filters, count of filters in use and elements in the last one, while a stream digest fills.
pub struct StreamState {
    pub buf: Seq<u8>,
    pub bf_count: int,
    pub last_count: int,
}

/// Offset `i` of the chunk at `chunk_pos`: a feature where its score exceeds the threshold.
/// A feature sets its bits in the current filter; if one of them was new, the filter counts
/// one more element, and at `MAX_ELEM` elements the next filter (grown if need be) takes over.
pub open spec fn stream_step(file: Seq<u8>, chunk_pos: int, scores: Seq<u16>, i: int, st: StreamState) -> StreamState {
    if scores[i] > THRESHOLD {
        let ws = feature_words(file, chunk_pos + i);
        let base = (st.bf_count - 1) * 256;
        let buf2 = insert_words_at(st.buf, base, ws);
        if new_bits_at(st.buf, base, ws) == 0 {
            StreamState { buf: buf2, bf_count: st.bf_count, last_count: st.last_count }
        } else if st.last_count + 1 == MAX_ELEM {
            StreamState {
                buf: grown(buf2, (st.bf_count + 1) * 256),
                bf_count: st.bf_count + 1,
                last_count: 0,
            }
        } else {
            StreamState { buf: buf2, bf_count: st.bf_count, last_count: st.last_count + 1 }
        }
    } else {
        st
    }
}

/// The first `n` offsets of a chunk, fed in order to `stream_step`.
pub open spec fn stream_run(file: Seq<u8>, chunk_pos: int, scores: Seq<u16>, n: int, st: StreamState) -> StreamState
    decreases n,
{
    if n <= 0 {
        st
    } else {
        stream_step(file, chunk_pos, scores, n - 1, stream_run(file, chunk_pos, scores, n - 1, st))
    }
}

/// The filling state of a stream digest.
pub open spec fn stream_state_of(sdbf: &Sdbf) -> StreamState {
    StreamState { buf: sdbf.buffer@, bf_count: sdbf.bf_count as int, last_count: sdbf.last_count as int }
}

/// A well-formed filling state, with room for `more` further offsets.
pub open spec fn stream_room(sdbf: &Sdbf, more: int) -> bool {
    &&& 1 <= sdbf.bf_count
    &&& sdbf.last_count < MAX_ELEM
    &&& sdbf.bf_count * 256 <= sdbf.buffer@.len()
    &&& 192 * sdbf.bf_count + sdbf.last_count + more <= 192 * (MAX_FILTERS as int)
}

/// The fields that filling leaves alone are unchanged.
pub open spec fn same_setup(a: &Sdbf, b: &Sdbf) -> bool {
    &&& a.name == b.name
    &&& a.bf_size == b.bf_size
    &&& a.hash_count == b.hash_count
    &&& a.mask == b.mask
    &&& a.max_elem == b.max_elem
    &&& a.hamming == b.hamming
    &&& a.dd_block_size == b.dd_block_size
}

/// Add the features of the chunk of `chunk_size` bytes at `chunk_pos` of `file_buffer`,
/// with scores `chunk_scores`, to the stream digest `sdbf`. Each feature is hashed from its
/// offset to the end of the file buffer, which keeps digests compatible with other
/// implementations.
pub fn gen_chunk_hash(file_buffer: &[u8], chunk_pos: u64, chunk_scores: &[u16], chunk_size: u64, sdbf: &mut Sdbf)
    requires
        chunk_pos + chunk_size <= file_buffer@.len(),
        window_count(chunk_size as int) <= chunk_scores@.len(),
        stream_room(old(sdbf), window_count(chunk_size as int)),
    ensures
        stream_state_of(final(sdbf)) == stream_run(
            file_buffer@,
            chunk_pos as int,
            chunk_scores@,
            window_count(chunk_size as int),
            stream_state_of(old(sdbf)),
        ),
        stream_room(final(sdbf), 0),
        192 * final(sdbf).bf_count + final(sdbf).last_count <= 192 * old(sdbf).bf_count
            + old(sdbf).last_count + window_count(chunk_size as int),
        final(sdbf).elem_counts == old(sdbf).elem_counts,
        same_setup(final(sdbf), old(sdbf)),
{
    let ghost st0 = stream_state_of(old(sdbf));
    let ghost w = window_count(chunk_size as int);
    let limit: usize = if chunk_size > 64 { (chunk_size - 64) as usize } else { 0 };
    let flen = file_buffer.len();
    let mask: u32 = 0x7FF;
    proof {
        assert(mask >> 3 == 255) by (bit_vector)
            requires
                mask == 0x7FF,
        ;
    }
    let mut i: usize = 0;
    while i < limit
        invariant
            flen == file_buffer@.len(),
            mask == 0x7FF,
            mask >> 3 == 255,
            limit == w,
            w == window_count(chunk_size as int),
            st0 == stream_state_of(old(sdbf)),
            chunk_pos + chunk_size <= file_buffer@.len(),
            limit <= chunk_scores@.len(),
            limit <= chunk_size,
            i <= limit,
            stream_room(old(sdbf), w),
            stream_room(sdbf, 0),
            192 * sdbf.bf_count + sdbf.last_count <= 192 * old(sdbf).bf_count + old(sdbf).last_count + i,
            stream_state_of(sdbf) == stream_run(file_buffer@, chunk_pos as int, chunk_scores@, i as int, st0),
            sdbf.elem_counts == old(sdbf).elem_counts,
            same_setup(sdbf, old(sdbf)),
        decreases limit - i,
    {
        let ghost st = stream_state_of(sdbf);
        if chunk_scores[i] > THRESHOLD {
            let start = chunk_pos as usize + i;
            let mut words = hash_words(slice_subrange(file_buffer, start, flen));
            let base = (sdbf.bf_count as usize - 1) * 256;
            let bits_set = insert_masked_at(sdbf.buffer.as_mut_slice(), base, words.as_mut_slice(), mask);
            if bits_set != 0 {
                if sdbf.last_count + 1 == MAX_ELEM {
                    sdbf.bf_count = sdbf.bf_count + 1;
                    sdbf.last_count = 0;
                    grow_to(&mut sdbf.buffer, sdbf.bf_count as usize * 256);
                } else {
                    sdbf.last_count = sdbf.last_count + 1;
                }
            }
        }
        i = i + 1;
        proof {
            assert(stream_run(file_buffer@, chunk_pos as int, chunk_scores@, i as int, st0)
                == stream_step(file_buffer@, chunk_pos as int, chunk_scores@, i - 1, st));
        }
    }
}

/// Filter, element count and remaining tie quota while a block's filter fills.
pub struct BlockState {
    pub buf: Seq<u8>,
    pub count: int,
    pub allowed: int,
}

/// Offset `i` of a block that starts at byte `start` of `file` and fills the filter at byte
/// `base`: a feature where its score exceeds `threshold`, or equals it while the tie quota
/// lasts. A feature that sets a new bit counts, and a tie then uses up one of the quota.
pub open spec fn block_step(
    file: Seq<u8>,
    start: int,
    base: int,
    scores: Seq<u16>,
    threshold: int,
    i: int,
    st: BlockState,
) -> BlockState {
    if scores[i] > threshold || (scores[i] == threshold && st.allowed > 0) {
        let ws = feature_words(file, start + i);
        let buf2 = insert_words_at(st.buf, base, ws);
        if new_bits_at(st.buf, base, ws) == 0 {
            BlockState { buf: buf2, count: st.count, allowed: st.allowed }
        } else {
            BlockState {
                buf: buf2,
                count: st.count + 1,
                allowed: if scores[i] == threshold {
                    st.allowed - 1
                } else {
                    st.allowed
                },
            }
        }
    } else {
        st
    }
}

/// The first `n` offsets of a block, fed in order to `block_step`.
pub open spec fn block_run(
    file: Seq<u8>,
    start: int,
    base: int,
    scores: Seq<u16>,
    threshold: int,
    n: int,
    st: BlockState,
) -> BlockState
    decreases n,
{
    if n <= 0 {
        st
    } else {
        block_step(file, start, base, scores, threshold, n - 1, block_run(file, start, base, scores, threshold, n - 1, st))
    }
}

/// Number of bytes of block `block_num` that are scanned: `rem` for a partial last block.
pub open spec fn block_span(block_size: int, rem: int) -> int {
    if rem > 0 {
        rem
    } else {
        block_size
    }
}

/// Fill filter `block_num` of the block digest `sdbf` from the block of `block_size` bytes
/// (`rem` bytes for a partial last block) with scores `chunk_scores`, admitting scores
/// above `threshold` and, up to `allowed` of them, scores equal to it; record the number of
/// elements in `elem_counts[block_num]`. Each feature is hashed from its offset to the end
/// of the file buffer, as in stream mode.
#[allow(clippy::too_many_arguments)]
pub fn gen_block_hash(
    file_buffer: &[u8],
    file_size: u64,
    block_num: u64,
    chunk_scores: &[u16],
    block_size: u64,
    sdbf: &mut Sdbf,
    rem: u32,
    threshold: u32,
    allowed: i32,
)
    requires
        block_num * block_size + block_span(block_size as int, rem as int) <= file_buffer@.len(),
        window_count(block_span(block_size as int, rem as int)) <= chunk_scores@.len(),
        window_count(block_span(block_size as int, rem as int)) <= u16::MAX,
        block_num * 256 + 256 <= old(sdbf).buffer@.len(),
        block_num < old(sdbf).elem_counts@.len(),
    ensures
        ({
            let fin = block_run(
                file_buffer@,
                block_num * block_size,
                block_num * 256,
                chunk_scores@,
                threshold as int,
                window_count(block_span(block_size as int, rem as int)),
                BlockState { buf: old(sdbf).buffer@, count: 0, allowed: allowed as int },
            );
            &&& final(sdbf).buffer@ == fin.buf
            &&& final(sdbf).elem_counts@ == old(sdbf).elem_counts@.update(block_num as int, fin.count as u16)
        }),
        final(sdbf).buffer@.len() == old(sdbf).buffer@.len(),
        final(sdbf).elem_counts@.len() == old(sdbf).elem_counts@.len(),
        final(sdbf).bf_count == old(sdbf).bf_count,
        final(sdbf).last_count == old(sdbf).last_count,
        final(sdbf).dd_block_size == old(sdbf).dd_block_size,
        same_setup(final(sdbf), old(sdbf)),
{
    let max_offset: u64 = if rem > 0 { rem as u64 } else { block_size };
    let limit: usize = if max_offset > 64 { (max_offset - 64) as usize } else { 0 };
    let flen = file_buffer.len();
    let blen = sdbf.buffer.len();
    proof {
        assert(flen <= u64::MAX);
        assert(blen <= u64::MAX);
    }
    let start: usize = (block_num * block_size) as usize;
    let base: usize = (block_num * 256) as usize;
    let mask: u32 = 0x7FF;
    proof {
        assert(mask >> 3 == 255) by (bit_vector)
            requires
                mask == 0x7FF,
        ;
    }
    let ghost allowed0 = allowed as int;
    let ghost st0 = BlockState { buf: old(sdbf).buffer@, count: 0, allowed: allowed0 };
    let mut hash_cnt: u16 = 0;
    let mut allowed = allowed;
    let mut i: usize = 0;
    while i < limit
        invariant
            limit == window_count(block_span(block_size as int, rem as int)),
            limit <= u16::MAX,
            flen == file_buffer@.len(),
            mask == 0x7FF,
            mask >> 3 == 255,
            start == block_num * block_size,
            base == block_num * 256,
            start + limit <= file_buffer@.len(),
            limit <= chunk_scores@.len(),
            base + 256 <= sdbf.buffer@.len(),
            sdbf.buffer@.len() == old(sdbf).buffer@.len(),
            i <= limit,
            hash_cnt <= i,
            st0 == (BlockState { buf: old(sdbf).buffer@, count: 0, allowed: allowed0 }),
            ({
                let st = block_run(file_buffer@, start as int, base as int, chunk_scores@, threshold as int, i as int, st0);
                &&& sdbf.buffer@ == st.buf
                &&& hash_cnt as int == st.count
                &&& allowed as int == st.allowed
            }),
            sdbf.elem_counts == old(sdbf).elem_counts,
            sdbf.bf_count == old(sdbf).bf_count,
            sdbf.last_count == old(sdbf).last_count,
            same_setup(sdbf, old(sdbf)),
        decreases limit - i,
    {
        let ghost st = block_run(file_buffer@, start as int, base as int, chunk_scores@, threshold as int, i as int, st0);
        let score = chunk_scores[i] as u32;
        if score > threshold || (score == threshold && allowed > 0) {
            let mut words = hash_words(slice_subrange(file_buffer, start + i, flen));
            let bits_set = insert_masked_at(sdbf.buffer.as_mut_slice(), base, words.as_mut_slice(), mask);
            if bits_set != 0 {
                hash_cnt = hash_cnt + 1;
                if score == threshold {
                    allowed = allowed - 1;
                }
            }
        }
        i = i + 1;
        proof {
            assert(block_run(file_buffer@, start as int, base as int, chunk_scores@, threshold as int, i as int, st0)
                == block_step(file_buffer@, start as int, base as int, chunk_scores@, threshold as int, i - 1, st));
        }
    }
    sdbf.elem_counts.set(block_num as usize, hash_cnt);
}

/// Scores of a chunk as they are stored, in `len` cells.
pub open spec fn score_cells(ranks: Seq<u16>, size: int, len: nat) -> Seq<u16> {
    Seq::new(len, |p: int| chunk_scores_of(ranks, size, len)[p] as u16)
}

/// Scores of the chunk of `size` bytes at `pos` of `file`, in `len` cells.
pub open spec fn scores_at(file: Seq<u8>, pos: int, size: int, len: nat) -> Seq<u16> {
    score_cells(chunk_ranks_of(file.subrange(pos, file.len() as int), size, len as int), size, len)
}

/// Score histogram of the first `n` scores: how many windows got each score `0..66`.
pub open spec fn score_histogram(scores: Seq<u16>, n: int) -> Seq<i32> {
    Seq::new(66, |v: int| score_count(scores, n, v) as i32)
}

/// Admission scan over a score histogram, from score `k` down, with `sum` windows admitted
/// so far: stop at the first score whose windows would take the sum past `MAX_ELEM`, or
/// once the threshold is reached. Returns the effective threshold and the windows admitted
/// above it.
pub open spec fn cutoff_scan(h: Seq<i32>, k: int, sum: int) -> (int, int)
    decreases k,
{
    if k <= THRESHOLD || sum + h[k] > MAX_ELEM {
        (k, sum)
    } else if k - 1 <= THRESHOLD {
        (k - 1, sum + h[k])
    } else {
        cutoff_scan(h, k - 1, sum + h[k])
    }
}

/// Effective threshold and tie quota that a score histogram allows a block.
pub fn score_cutoff(score_histo: &[i32]) -> (r: (u32, i32))
    requires
        score_histo@.len() >= 66,
        forall|v: int| 0 <= v < 66 ==> #[trigger] score_histo@[v] >= 0,
    ensures
        r.0 as int == cutoff_scan(score_histo@, 65, 0).0,
        r.1 as int == MAX_ELEM - cutoff_scan(score_histo@, 65, 0).1,
        0 <= r.1 <= MAX_ELEM,
{
    let mut k: usize = 65;
    let mut sum: u32 = 0;
    loop
        invariant_except_break
            THRESHOLD < k,
            cutoff_scan(score_histo@, k as int, sum as int) == cutoff_scan(score_histo@, 65, 0),
        invariant
            k <= 65,
            sum <= MAX_ELEM,
            score_histo@.len() >= 66,
            forall|v: int| 0 <= v < 66 ==> #[trigger] score_histo@[v] >= 0,
        ensures
            (k as int, sum as int) == cutoff_scan(score_histo@, 65, 0),
        decreases k,
    {
        if sum as i64 + score_histo[k] as i64 > MAX_ELEM as i64 {
            break;
        }
        sum = sum + score_histo[k] as u32;
        k = k - 1;
        if k <= THRESHOLD as usize {
            break;
        }
    }
    (k as u32, (MAX_ELEM - sum) as i32)
}

/// A vector of `n` zeros.
fn zeros_u16(n: usize) -> (r: Vec<u16>)
    ensures
        r@ == Seq::new(n as nat, |i: int| 0u16),
{
    let mut r: Vec<u16> = Vec::new();
    while r.len() < n
        invariant
            r@.len() <= n,
            r@ == Seq::new(r@.len(), |i: int| 0u16),
        decreases n - r@.len(),
    {
        r.push(0);
        proof {
            assert(r@ =~= Seq::new(r@.len(), |i: int| 0u16));
        }
    }
    r
}

/// A histogram of 66 zero cells.
fn zero_histogram() -> (r: Vec<i32>)
    ensures
        r@ == Seq::new(66, |i: int| 0i32),
{
    let mut r: Vec<i32> = Vec::new();
    while r.len() < 66
        invariant
            r@.len() <= 66,
            r@ == Seq::new(r@.len(), |i: int| 0i32),
        decreases 66 - r@.len(),
    {
        r.push(0);
        proof {
            assert(r@ =~= Seq::new(r@.len(), |i: int| 0i32));
        }
    }
    r
}

/// Rank and score the chunk of `size` bytes at `pos` of `file_buffer` into the scratch
/// vectors, counting the score histogram into `score_histo` if it is not empty.
fn rank_and_score(
    file_buffer: &[u8],
    pos: usize,
    size: u64,
    chunk_ranks: &mut Vec<u16>,
    chunk_scores: &mut Vec<u16>,
    score_histo: &mut Vec<i32>,
)
    requires
        pos + size <= file_buffer@.len(),
        size <= old(chunk_ranks)@.len(),
        old(chunk_scores)@.len() == old(chunk_ranks)@.len(),
        size <= i32::MAX,
        old(score_histo)@.len() == 0 || old(score_histo)@ == Seq::new(66, |i: int| 0i32),
    ensures
        final(chunk_ranks)@.len() == old(chunk_ranks)@.len(),
        final(chunk_scores)@ == scores_at(file_buffer@, pos as int, size as int, old(chunk_ranks)@.len()),
        old(score_histo)@.len() == 0 ==> final(score_histo)@.len() == 0,
        old(score_histo)@.len() != 0 ==> final(score_histo)@ == score_histogram(
            final(chunk_scores)@,
            window_count(size as int),
        ),
        forall|v: int| 0 <= v < final(score_histo)@.len() ==> #[trigger] final(score_histo)@[v] >= 0,
{
    let ghost len = old(chunk_ranks)@.len();
    let sub = slice_subrange(file_buffer, pos, file_buffer.len());
    gen_chunk_ranks(sub, size, chunk_ranks.as_mut_slice(), 0);
    let ghost ranks = chunk_ranks_of(sub@, size as int, len as int);
    proof {
        assert(chunk_ranks@ =~= ranks);
    }
    gen_chunk_scores(chunk_ranks.as_slice(), size, chunk_scores.as_mut_slice(), score_histo.as_mut_slice());
    proof {
        assert(chunk_scores@ =~= score_cells(ranks, size as int, len));
        if score_histo@.len() != 0 {
            assert forall|v: int| 0 <= v < 66 implies #[trigger] score_histo@[v] == score_histogram(
                chunk_scores@,
                window_count(size as int),
            )[v] by {
                lemma_score_count_le(chunk_scores@, window_count(size as int), v);
            }
            assert(score_histo@ =~= score_histogram(chunk_scores@, window_count(size as int)));
        }
        assert forall|v: int| 0 <= v < score_histo@.len() implies #[trigger] score_histo@[v] >= 0 by {
            lemma_score_count_le(chunk_scores@, window_count(size as int), v);
        }
    }
}

/// The stream filling state after the first `n` chunks of `chunk_size` bytes.
pub open spec fn stream_chunks(file: Seq<u8>, chunk_size: int, n: int, st: StreamState) -> StreamState
    decreases n,
{
    if n <= 0 {
        st
    } else {
        let prev = stream_chunks(file, chunk_size, n - 1, st);
        let pos = (n - 1) * chunk_size;
        stream_run(file, pos, scores_at(file, pos, chunk_size, chunk_size as nat), window_count(chunk_size), prev)
    }
}

/// Initial size of a stream digest's buffer: a filter per 2 KiB of input, plus one.
pub open spec fn stream_estimate(file_size: int) -> int {
    (file_size / 2048 + 1) * 256
}

/// The stream digest of the first `file_size` bytes of `file` in chunks of `chunk_size`:
/// its filling state once all chunks are in and the last filter is trimmed.
pub open spec fn stream_digest(file: Seq<u8>, file_size: int, chunk_size: int) -> StreamState {
    let st0 = StreamState { buf: Seq::new(stream_estimate(file_size) as nat, |i: int| 0u8), bf_count: 1, last_count: 0 };
    let qt = file_size / chunk_size;
    let rem = file_size % chunk_size;
    let st1 = stream_chunks(file, chunk_size, qt, st0);
    let st2 = if rem > 0 {
        stream_run(file, qt * chunk_size, scores_at(file, qt * chunk_size, rem, chunk_size as nat), window_count(rem), st1)
    } else {
        st1
    };
    let (bf, last) = if st2.bf_count > 1 && st2.last_count < MAX_ELEM / 8 {
        (st2.bf_count - 1, MAX_ELEM as int)
    } else {
        (st2.bf_count, st2.last_count)
    };
    StreamState { buf: st2.buf.subrange(0, bf * 256), bf_count: bf, last_count: last }
}

/// Build the stream digest of `file_buffer[0..file_size]` in chunks of `chunk_size` bytes:
/// features fill one filter after another, a last filter with fewer than `MAX_ELEM / 8`
/// elements is dropped, and the buffer keeps exactly the filters in use.
pub fn gen_chunk_sdbf(file_buffer: &[u8], file_size: u64, chunk_size: u64, sdbf: &mut Sdbf)
    requires
        chunk_size > 64,
        chunk_size <= i32::MAX,
        file_size <= file_buffer@.len(),
        192 + file_size <= 192 * (MAX_FILTERS as int),
    ensures
        stream_state_of(final(sdbf)) == stream_digest(file_buffer@, file_size as int, chunk_size as int),
        final(sdbf).buffer@.len() == final(sdbf).bf_count * 256,
        1 <= final(sdbf).bf_count,
        final(sdbf).last_count <= MAX_ELEM,
        final(sdbf).elem_counts@.len() == 0,
        same_setup(final(sdbf), old(sdbf)),
{
    let ghost file = file_buffer@;
    let ghost fs = file_size as int;
    let ghost c = chunk_size as int;
    let buff_size = ((file_size / 2048 + 1) * 256) as usize;
    let mut buffer: Vec<u8> = Vec::new();
    grow_to(&mut buffer, buff_size);
    proof {
        assert(buffer@ =~= Seq::new(stream_estimate(fs) as nat, |i: int| 0u8));
    }
    sdbf.buffer = buffer;
    sdbf.bf_count = 1;
    sdbf.last_count = 0;
    sdbf.elem_counts = Vec::new();
    let ghost st0 = stream_state_of(sdbf);
    let qt = file_size / chunk_size;
    let rem = file_size % chunk_size;
    proof {
        vstd::arithmetic::div_mod::lemma_fundamental_div_mod(fs, c);
        assert(qt * chunk_size + rem == file_size) by (nonlinear_arith)
            requires
                fs == c * (fs / c) + fs % c,
                qt == fs / c,
                rem == fs % c,
                fs == file_size,
                c == chunk_size,
        ;
    }
    let mut chunk_ranks = zeros_u16(chunk_size as usize);
    let mut chunk_scores = zeros_u16(chunk_size as usize);
    let mut chunk_pos: u64 = 0;
    let mut i: u64 = 0;
    while i < qt
        invariant
            file == file_buffer@,
            fs == file_size,
            c == chunk_size,
            64 < chunk_size <= i32::MAX,
            file_size <= file_buffer@.len(),
            192 + file_size <= 192 * (MAX_FILTERS as int),
            qt * chunk_size + rem == file_size,
            qt == file_size / chunk_size,
            i <= qt,
            chunk_pos == i * chunk_size,
            chunk_ranks@.len() == chunk_size,
            chunk_scores@.len() == chunk_size,
            stream_room(sdbf, 0),
            192 * sdbf.bf_count + sdbf.last_count <= 192 + chunk_pos,
            stream_state_of(sdbf) == stream_chunks(file, c, i as int, st0),
            sdbf.elem_counts@.len() == 0,
            same_setup(sdbf, old(sdbf)),
        decreases qt - i,
    {
        proof {
            assert((i + 1) * chunk_size <= qt * chunk_size) by (nonlinear_arith)
                requires
                    i + 1 <= qt,
                    chunk_size > 0,
            ;
            assert((i + 1) * chunk_size == i * chunk_size + chunk_size) by (nonlinear_arith);
        }
        let mut score_histo = zero_histogram();
        rank_and_score(file_buffer, chunk_pos as usize, chunk_size, &mut chunk_ranks, &mut chunk_scores, &mut score_histo);
        // Stream mode admits every score above the threshold: the quota is not consulted.
        let _cutoff = score_cutoff(score_histo.as_slice());
        gen_chunk_hash(file_buffer, chunk_pos, chunk_scores.as_slice(), chunk_size, sdbf);
        chunk_pos = chunk_pos + chunk_size;
        i = i + 1;
    }
    if rem > 0 {
        let mut no_histo: Vec<i32> = Vec::new();
        rank_and_score(file_buffer, chunk_pos as usize, rem, &mut chunk_ranks, &mut chunk_scores, &mut no_histo);
        gen_chunk_hash(file_buffer, chunk_pos, chunk_scores.as_slice(), rem, sdbf);
    }
    if sdbf.bf_count > 1 && sdbf.last_count < MAX_ELEM / 8 {
        sdbf.bf_count = sdbf.bf_count - 1;
        sdbf.last_count = MAX_ELEM;
    }
    let keep = sdbf.bf_count as usize * 256;
    let _tail = sdbf.buffer.split_off(keep);
}

/// Filters and element counts while a block digest fills.
pub struct BlockDigest {
    pub buf: Seq<u8>,
    pub counts: Seq<u16>,
}

/// Block `n` of `block_size` bytes (`rem` bytes for a partial last block), scored in
/// `block_size` cells, filled into its own filter with the given threshold and tie quota.
pub open spec fn block_fill(
    file: Seq<u8>,
    block_size: int,
    n: int,
    rem: int,
    threshold: int,
    allowed: int,
    d: BlockDigest,
) -> BlockDigest {
    let size = block_span(block_size, rem);
    let scores = scores_at(file, n * block_size, size, block_size as nat);
    let fin = block_run(
        file,
        n * block_size,
        n * 256,
        scores,
        threshold,
        window_count(size),
        BlockState { buf: d.buf, count: 0, allowed },
    );
    BlockDigest { buf: fin.buf, counts: d.counts.update(n, fin.count as u16) }
}

/// The block digest after the first `n` full blocks, each with the threshold and quota
/// that its score histogram allows.
pub open spec fn block_blocks(file: Seq<u8>, block_size: int, n: int, d: BlockDigest) -> BlockDigest
    decreases n,
{
    if n <= 0 {
        d
    } else {
        let prev = block_blocks(file, block_size, n - 1, d);
        let scores = scores_at(file, (n - 1) * block_size, block_size, block_size as nat);
        let (k, sum) = cutoff_scan(score_histogram(scores, window_count(block_size)), 65, 0);
        block_fill(file, block_size, n - 1, 0, k, MAX_ELEM - sum, prev)
    }
}

/// Number of filters of a block digest: one per full block, and one for a last partial
/// block of at least `MIN_FILE_SIZE` bytes.
pub open spec fn block_filter_count(file_size: int, block_size: int) -> int {
    file_size / block_size + if file_size % block_size >= MIN_FILE_SIZE {
        1int
    } else {
        0int
    }
}

/// The block digest of the first `file_size` bytes of `file` in blocks of `block_size`.
pub open spec fn block_digest(file: Seq<u8>, file_size: int, block_size: int) -> BlockDigest {
    let n = block_filter_count(file_size, block_size);
    let d0 = BlockDigest {
        buf: Seq::new((n * 256) as nat, |i: int| 0u8),
        counts: Seq::new(n as nat, |i: int| 0u16),
    };
    let qt = file_size / block_size;
    let rem = file_size % block_size;
    let d1 = block_blocks(file, block_size, qt, d0);
    if rem >= MIN_FILE_SIZE {
        block_fill(file, block_size, qt, rem, THRESHOLD as int, MAX_ELEM as int, d1)
    } else {
        d1
    }
}

/// Build the block digest of `file_buffer[0..file_size]`: one filter per block of
/// `block_size` bytes, and one for a last partial block of at least `MIN_FILE_SIZE` bytes,
/// each with its own element count.
pub fn gen_block_sdbf(file_buffer: &[u8], file_size: u64, block_size: u64, sdbf: &mut Sdbf)
    requires
        64 < block_size <= u16::MAX,
        file_size <= file_buffer@.len(),
        file_size / block_size < MAX_FILTERS,
    ensures
        ({
            let d = block_digest(file_buffer@, file_size as int, block_size as int);
            &&& final(sdbf).buffer@ == d.buf
            &&& final(sdbf).elem_counts@ == d.counts
        }),
        final(sdbf).bf_count == block_filter_count(file_size as int, block_size as int),
        final(sdbf).buffer@.len() == final(sdbf).bf_count * 256,
        final(sdbf).elem_counts@.len() == final(sdbf).bf_count,
        final(sdbf).last_count == 0,
        final(sdbf).dd_block_size == block_size,
        final(sdbf).name == old(sdbf).name,
{
    let ghost file = file_buffer@;
    let ghost fs = file_size as int;
    let ghost bs = block_size as int;
    let flen = file_buffer.len();
    let qt = file_size / block_size;
    let rem = file_size % block_size;
    proof {
        vstd::arithmetic::div_mod::lemma_fundamental_div_mod(fs, bs);
        assert(qt * block_size + rem == file_size) by (nonlinear_arith)
            requires
                fs == bs * (fs / bs) + fs % bs,
                qt == fs / bs,
                rem == fs % bs,
                fs == file_size,
                bs == block_size,
        ;
    }
    let n_filters: u64 = if rem >= MIN_FILE_SIZE as u64 { qt + 1 } else { qt };
    let mut buffer: Vec<u8> = Vec::new();
    grow_to(&mut buffer, n_filters as usize * 256);
    sdbf.buffer = buffer;
    sdbf.elem_counts = zeros_u16(n_filters as usize);
    sdbf.bf_count = n_filters as u32;
    sdbf.last_count = 0;
    sdbf.dd_block_size = block_size as u32;
    let ghost d0 = BlockDigest { buf: sdbf.buffer@, counts: sdbf.elem_counts@ };
    proof {
        assert(d0.buf =~= Seq::new((n_filters * 256) as nat, |i: int| 0u8));
    }
    let mut chunk_ranks = zeros_u16(block_size as usize);
    let mut chunk_scores = zeros_u16(block_size as usize);
    let mut i: u64 = 0;
    while i < qt
        invariant
            file == file_buffer@,
            bs == block_size,
            64 < block_size <= u16::MAX,
            file_size <= file_buffer@.len(),
            flen == file_buffer@.len(),
            qt * block_size + rem == file_size,
            qt == file_size / block_size,
            n_filters == block_filter_count(file_size as int, block_size as int),
            qt <= n_filters < MAX_FILTERS + 1,
            i <= qt,
            chunk_ranks@.len() == block_size,
            chunk_scores@.len() == block_size,
            sdbf.buffer@.len() == n_filters * 256,
            sdbf.elem_counts@.len() == n_filters,
            sdbf.bf_count == n_filters,
            sdbf.last_count == 0,
            sdbf.dd_block_size == block_size,
            sdbf.name == old(sdbf).name,
            (BlockDigest { buf: sdbf.buffer@, counts: sdbf.elem_counts@ }) == block_blocks(file, bs, i as int, d0),
        decreases qt - i,
    {
        proof {
            assert((i + 1) * block_size <= qt * block_size) by (nonlinear_arith)
                requires
                    i + 1 <= qt,
                    block_size > 0,
            ;
            assert((i + 1) * block_size == i * block_size + block_size) by (nonlinear_arith);
        }
        let pos = i * block_size;
        let mut score_histo = zero_histogram();
        rank_and_score(file_buffer, pos as usize, block_size, &mut chunk_ranks, &mut chunk_scores, &mut score_histo);
        let (k, allowed) = score_cutoff(score_histo.as_slice());
        gen_block_hash(file_buffer, file_size, i, chunk_scores.as_slice(), block_size, sdbf, 0, k, allowed);
        i = i + 1;
    }
    if rem >= MIN_FILE_SIZE as u64 {
        let pos = qt * block_size;
        let mut no_histo: Vec<i32> = Vec::new();
        rank_and_score(file_buffer, pos as usize, rem, &mut chunk_ranks, &mut chunk_scores, &mut no_histo);
        gen_block_hash(
            file_buffer,
            file_size,
            qt,
            chunk_scores.as_slice(),
            block_size,
            sdbf,
            rem as u32,
            THRESHOLD as u32,
            MAX_ELEM as i32,
        );
    }
}

/// A filter never takes more than `MAX_ELEM` elements: while the open filter holds fewer,
/// one more feature leaves it below `MAX_ELEM`, and a new filter is opened only when the
/// open one has just reached `MAX_ELEM`.
pub proof fn lemma_filter_element_cap(file: Seq<u8>, chunk_pos: int, scores: Seq<u16>, i: int, st: StreamState)
    requires
        0 <= st.last_count < MAX_ELEM,
    ensures
        0 <= stream_step(file, chunk_pos, scores, i, st).last_count < MAX_ELEM,
        stream_step(file, chunk_pos, scores, i, st).bf_count == st.bf_count || (stream_step(
            file,
            chunk_pos,
            scores,
            i,
            st,
        ).bf_count == st.bf_count + 1 && st.last_count + 1 == MAX_ELEM),
{
}

/// The same state stays within the cap over any number of offsets.
pub proof fn lemma_stream_run_cap(file: Seq<u8>, chunk_pos: int, scores: Seq<u16>, n: int, st: StreamState)
    requires
        0 <= st.last_count < MAX_ELEM,
    ensures
        0 <= stream_run(file, chunk_pos, scores, n, st).last_count < MAX_ELEM,
    decreases n,
{
    if n > 0 {
        lemma_stream_run_cap(file, chunk_pos, scores, n - 1, st);
        lemma_filter_element_cap(file, chunk_pos, scores, n - 1, stream_run(file, chunk_pos, scores, n - 1, st));
    }
}

/// Digests are deterministic: equal inputs give bit-identical stream digests.
pub proof fn lemma_stream_digest_deterministic(
    file1: Seq<u8>,
    file2: Seq<u8>,
    file_size: int,
    chunk_size: int,
)
    requires
        file1 == file2,
    ensures
        stream_digest(file1, file_size, chunk_size) == stream_digest(file2, file_size, chunk_size),
{
}

/// Why no digest was produced.
#[derive(Debug, Clone, Copy, PartialEq, Eq)]
pub enum SdbfError {
    /// The input is shorter than `MIN_FILE_SIZE` bytes.
    InputTooSmall,
}

/// The stream digest named `name` of `bytes` in chunks of `chunk_size` bytes, or
/// `InputTooSmall` for an input shorter than `MIN_FILE_SIZE`.
pub fn digest_stream(name: String, bytes: &[u8], chunk_size: u64) -> (r: Result<Sdbf, SdbfError>)
    requires
        64 < chunk_size <= i32::MAX,
        192 + bytes@.len() <= 192 * (MAX_FILTERS as int),
    ensures
        bytes@.len() < MIN_FILE_SIZE <==> r is Err,
        r matches Err(e) ==> e == SdbfError::InputTooSmall,
        r matches Ok(s) ==> {
            &&& stream_state_of(&s) == stream_digest(bytes@, bytes@.len() as int, chunk_size as int)
            &&& s.name@ == name@
            &&& s.elem_counts@.len() == 0
            &&& s.bf_size == 256
            &&& s.hash_count == 5
            &&& s.max_elem == MAX_ELEM
        },
{
    if bytes.len() < MIN_FILE_SIZE {
        return Err(SdbfError::InputTooSmall);
    }
    let mut sdbf = Sdbf::new(name);
    gen_chunk_sdbf(bytes, bytes.len() as u64, chunk_size, &mut sdbf);
    Ok(sdbf)
}

/// The block digest named `name` of `bytes` in blocks of `block_size` bytes, or
/// `InputTooSmall` for an input shorter than `MIN_FILE_SIZE`.
pub fn digest_block(name: String, bytes: &[u8], block_size: u64) -> (r: Result<Sdbf, SdbfError>)
    requires
        64 < block_size <= u16::MAX,
        (bytes@.len() as int) / (block_size as int) < MAX_FILTERS,
    ensures
        bytes@.len() < MIN_FILE_SIZE <==> r is Err,
        r matches Err(e) ==> e == SdbfError::InputTooSmall,
        r matches Ok(s) ==> {
            let d = block_digest(bytes@, bytes@.len() as int, block_size as int);
            &&& s.buffer@ == d.buf
            &&& s.elem_counts@ == d.counts
            &&& s.bf_count == block_filter_count(bytes@.len() as int, block_size as int)
            &&& s.dd_block_size == block_size
            &&& s.name@ == name@
        },
{
    if bytes.len() < MIN_FILE_SIZE {
        return Err(SdbfError::InputTooSmall);
    }
    let mut sdbf = Sdbf::new(name);
    gen_block_sdbf(bytes, bytes.len() as u64, block_size, &mut sdbf);
    Ok(sdbf)
}

/// Number of the first `n` scores above `k`.
pub open spec fn above_count(scores: Seq<u16>, n: int, k: int) -> int
    decreases n,
{
    if n <= 0 {
        0
    } else {
        above_count(scores, n - 1, k) + (if scores[n - 1] as int > k {
            1int
        } else {
            0int
        })
    }
}

/// Sum of the histogram cells `k + 1 ..= top`.
pub open spec fn histo_above(h: Seq<i32>, k: int, top: int) -> int
    decreases top - k,
{
    if top <= k {
        0
    } else {
        histo_above(h, k, top - 1) + h[top] as int
    }
}

/// Sum of the score counts of `k + 1 ..= top` over the first `n` scores.
spec fn counts_above(scores: Seq<u16>, n: int, k: int, top: int) -> int
    decreases top - k,
{
    if top <= k {
        0
    } else {
        counts_above(scores, n, k, top - 1) + score_count(scores, n, top)
    }
}

proof fn lemma_scan_sum(h: Seq<i32>, k0: int, sum0: int)
    requires
        THRESHOLD < k0 <= 65,
        0 <= sum0 <= MAX_ELEM,
        h.len() >= 66,
        forall|v: int| 0 <= v < 66 ==> #[trigger] h[v] >= 0,
    ensures
        ({
            let (k, sum) = cutoff_scan(h, k0, sum0);
            &&& THRESHOLD <= k <= k0
            &&& sum == sum0 + histo_above(h, k, k0)
            &&& sum <= MAX_ELEM
        }),
    decreases k0,
{
    let (k, sum) = cutoff_scan(h, k0, sum0);
    if sum0 + h[k0] > MAX_ELEM {
        assert(histo_above(h, k0, k0) == 0);
    } else if k0 - 1 <= THRESHOLD {
        assert(histo_above(h, k0 - 1, k0 - 1) == 0);
    } else {
        lemma_scan_sum(h, k0 - 1, sum0 + h[k0]);
    }
}

proof fn lemma_counts_above_step(scores: Seq<u16>, n: int, k: int, top: int)
    requires
        n >= 1,
        k <= top,
    ensures
        counts_above(scores, n, k, top) == counts_above(scores, n - 1, k, top) + (if k
            < scores[n - 1] as int <= top {
            1int
        } else {
            0int
        }),
    decreases top - k,
{
    if k < top {
        lemma_counts_above_step(scores, n, k, top - 1);
    }
}

proof fn lemma_above_is_counts(scores: Seq<u16>, n: int, k: int)
    requires
        0 <= n,
        0 <= k <= 65,
        forall|i: int| 0 <= i < n ==> #[trigger] scores[i] <= 65,
    ensures
        above_count(scores, n, k) == counts_above(scores, n, k, 65),
    decreases n,
{
    if n > 0 {
        lemma_above_is_counts(scores, n - 1, k);
        lemma_counts_above_step(scores, n, k, 65);
    } else {
        lemma_counts_zero(scores, k, 65);
    }
}

proof fn lemma_counts_zero(scores: Seq<u16>, k: int, top: int)
    ensures
        counts_above(scores, 0, k, top) == 0,
    decreases top - k,
{
    if k < top {
        lemma_counts_zero(scores, k, top - 1);
    }
}

proof fn lemma_histo_is_counts(scores: Seq<u16>, n: int, k: int, top: int)
    requires
        0 <= n <= i32::MAX,
        0 <= k,
        top < 66,
    ensures
        histo_above(score_histogram(scores, n), k, top) == counts_above(scores, n, k, top),
    decreases top - k,
{
    if k < top {
        lemma_histo_is_counts(scores, n, k, top - 1);
        lemma_score_count_le(scores, n, top);
    }
}

proof fn lemma_block_run_count(
    file: Seq<u8>,
    start: int,
    base: int,
    scores: Seq<u16>,
    threshold: int,
    n: int,
    st: BlockState,
)
    requires
        0 <= n,
        st.allowed >= 0,
    ensures
        ({
            let fin = block_run(file, start, base, scores, threshold, n, st);
            &&& fin.allowed >= 0
            &&& fin.count - st.count <= above_count(scores, n, threshold) + (st.allowed - fin.allowed)
        }),
    decreases n,
{
    if n > 0 {
        lemma_block_run_count(file, start, base, scores, threshold, n - 1, st);
    }
}

/// A full block never takes more than `MAX_ELEM` elements: the threshold and tie quota
/// that its score histogram allows admit at most `MAX_ELEM` features.
pub proof fn lemma_block_element_cap(
    file: Seq<u8>,
    start: int,
    base: int,
    scores: Seq<u16>,
    n: int,
    buf: Seq<u8>,
)
    requires
        0 <= n <= i32::MAX,
        forall|i: int| 0 <= i < n ==> #[trigger] scores[i] <= 65,
    ensures
        ({
            let (k, sum) = cutoff_scan(score_histogram(scores, n), 65, 0);
            block_run(file, start, base, scores, k, n, BlockState { buf, count: 0, allowed: MAX_ELEM - sum }).count
                <= MAX_ELEM
        }),
{
    let h = score_histogram(scores, n);
    assert forall|v: int| 0 <= v < 66 implies #[trigger] h[v] >= 0 by {
        lemma_score_count_le(scores, n, v);
    }
    lemma_scan_sum(h, 65, 0);
    let (k, sum) = cutoff_scan(h, 65, 0);
    lemma_histo_is_counts(scores, n, k, 65);
    lemma_above_is_counts(scores, n, k);
    lemma_block_run_count(file, start, base, scores, k, n, BlockState { buf, count: 0, allowed: MAX_ELEM - sum });
}

} // verus!
