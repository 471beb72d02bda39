//! Shannon entropy of a 64-byte window, computed from scratch or rolled by one byte.
use vstd::prelude::*;

verus! {

/// Width of the entropy window in bytes.
pub const ENTR_WIN: usize = 64;

/// Upper end of the entropy scale: `1000 * 2^10`.
pub const ENTR_SCALE: u64 = 1024000;

/// Contribution of a byte value that occurs `n` times in a 64-byte window:
/// `round(-p * log2(p) / 6 * ENTR_SCALE)` with `p = n / 64`, and 0 for `n == 0`.
pub const ENTROPY_64_INT: [u64; 65] = [
    0, 16000, 26667, 35320, 42667, 49041, 54641, 59596, 64000, 67922,
    71415, 74523, 77281, 79718, 81859, 83724, 85333, 86702, 87844, 88772,
    89497, 90030, 90380, 90555, 90562, 90410, 90103, 89648, 89051, 88316,
    87449, 86453, 85333, 84093, 82737, 81267, 79687, 78001, 76210, 74318,
    72328, 70241, 68060, 65788, 63427, 60978, 58443, 55825, 53125, 50345,
    47486, 44550, 41539, 38454, 35296, 32067, 28768, 25401, 21966, 18464,
    14898, 11267, 7573, 3817, 0,
];

/// Byte-frequency counters of the current window, one cell per byte value.
pub type Ascii = [u8; 256];

/// Contribution of a byte value with `c` occurrences.
pub open spec fn ent(c: nat) -> int {
    if c <= 64 {
        ENTROPY_64_INT@[c as int] as int
    } else {
        0
    }
}

/// How many times each byte value occurs in `w`.
pub open spec fn window_hist(w: Seq<u8>) -> Seq<nat>
    decreases w.len(),
{
    if w.len() == 0 {
        Seq::new(256, |b: int| 0nat)
    } else {
        let h = window_hist(w.drop_last());
        h.update(w.last() as int, h[w.last() as int] + 1)
    }
}

/// Sum of the first `n` counters.
pub open spec fn hist_total(h: Seq<nat>, n: int) -> int
    decreases n,
{
    if n <= 0 {
        0
    } else {
        hist_total(h, n - 1) + h[n - 1]
    }
}

/// Sum of the contributions of the first `n` counters.
pub open spec fn entropy_sum(h: Seq<nat>, n: int) -> int
    decreases n,
{
    if n <= 0 {
        0
    } else {
        entropy_sum(h, n - 1) + ent(h[n - 1])
    }
}

/// Entropy of a window: the contributions of all 256 byte values summed.
pub open spec fn window_entropy(w: Seq<u8>) -> int {
    entropy_sum(window_hist(w), 256)
}

/// `a` holds the byte counts of `w`.
pub open spec fn counts_window(a: Seq<u8>, w: Seq<u8>) -> bool {
    a.len() == 256 && forall|b: int| 0 <= b < 256 ==> a[b] as nat == #[trigger] window_hist(w)[b]
}

/// Clamp into `[0, ENTR_SCALE]`.
pub open spec fn clamp_entropy(x: int) -> int {
    if x < 0 {
        0
    } else if x > ENTR_SCALE {
        ENTR_SCALE as int
    } else {
        x
    }
}

proof fn lemma_ent_le(c: nat)
    requires
        c <= 64,
    ensures
        0 <= ent(c) <= 16000 * c,
{
    assert(forall|n: int| 0 <= n <= 64 ==> #[trigger] ENTROPY_64_INT@[n] <= 16000 * n);
}

proof fn lemma_hist_basic(w: Seq<u8>)
    ensures
        window_hist(w).len() == 256,
        forall|b: int| 0 <= b < 256 ==> #[trigger] window_hist(w)[b] <= w.len(),
        hist_total(window_hist(w), 256) == w.len(),
    decreases w.len(),
{
    if w.len() > 0 {
        let t = w.drop_last();
        lemma_hist_basic(t);
        lemma_total_update(window_hist(t), w.last() as int, window_hist(t)[w.last() as int] + 1, 256);
    } else {
        lemma_total_zero(256);
    }
}

proof fn lemma_total_zero(n: int)
    requires
        0 <= n <= 256,
    ensures
        hist_total(Seq::new(256, |b: int| 0nat), n) == 0,
    decreases n,
{
    if n > 0 {
        lemma_total_zero(n - 1);
    }
}

proof fn lemma_total_update(h: Seq<nat>, j: int, v: nat, n: int)
    requires
        0 <= j < h.len(),
        0 <= n <= h.len(),
    ensures
        hist_total(h.update(j, v), n) == hist_total(h, n) + (if j < n { v - h[j] } else { 0 }),
    decreases n,
{
    if n > 0 {
        lemma_total_update(h, j, v, n - 1);
    }
}

proof fn lemma_total_mono(h: Seq<nat>, i: int, n: int)
    requires
        0 <= i <= n,
    ensures
        hist_total(h, i) <= hist_total(h, n),
    decreases n - i,
{
    if i < n {
        lemma_total_mono(h, i, n - 1);
    }
}

proof fn lemma_entropy_update(h: Seq<nat>, j: int, v: nat, n: int)
    requires
        0 <= j < h.len(),
        0 <= n <= h.len(),
    ensures
        entropy_sum(h.update(j, v), n) == entropy_sum(h, n) + (if j < n { ent(v) - ent(h[j]) } else { 0 }),
    decreases n,
{
    if n > 0 {
        lemma_entropy_update(h, j, v, n - 1);
    }
}

proof fn lemma_entropy_bound(h: Seq<nat>, n: int)
    requires
        0 <= n <= h.len(),
        forall|b: int| 0 <= b < n ==> #[trigger] h[b] <= 64,
    ensures
        0 <= entropy_sum(h, n) <= 16000 * hist_total(h, n),
    decreases n,
{
    if n > 0 {
        lemma_entropy_bound(h, n - 1);
        lemma_ent_le(h[n - 1]);
    }
}

/// The entropy of a 64-byte window lies in `[0, ENTR_SCALE]`.
pub proof fn lemma_window_entropy_range(w: Seq<u8>)
    requires
        w.len() == 64,
    ensures
        0 <= window_entropy(w) <= ENTR_SCALE,
{
    lemma_hist_basic(w);
    lemma_entropy_bound(window_hist(w), 256);
}

/// Removing the first byte of a window takes one from its counter.
proof fn lemma_hist_front(w: Seq<u8>)
    requires
        w.len() >= 1,
    ensures
        window_hist(w) == window_hist(w.drop_first()).update(
            w[0] as int,
            window_hist(w.drop_first())[w[0] as int] + 1,
        ),
    decreases w.len(),
{
    lemma_hist_basic(w.drop_first());
    if w.len() == 1 {
        assert(w.drop_first().len() == 0);
        assert(w.drop_last().len() == 0);
        assert(window_hist(w.drop_last()) =~= window_hist(w.drop_first()));
    } else {
        let d = w.drop_last();
        lemma_hist_front(d);
        assert(d.drop_first() =~= w.drop_first().drop_last());
        assert(w.drop_first().last() == w.last());
        lemma_hist_basic(d.drop_first());
        assert(window_hist(w) =~= window_hist(w.drop_first()).update(
            w[0] as int,
            window_hist(w.drop_first())[w[0] as int] + 1,
        ));
    }
}

/// Sliding a window by one byte changes two counters, and the entropy by their two contributions.
proof fn lemma_slide(b: Seq<u8>)
    requires
        b.len() >= 65,
    ensures
        ({
            let ht = window_hist(b.subrange(1, 64));
            let ob = b[0] as int;
            let nb = b[64] as int;
            &&& ht.len() == 256
            &&& forall|x: int| 0 <= x < 256 ==> #[trigger] ht[x] <= 63
            &&& window_hist(b.subrange(0, 64)) == ht.update(ob, ht[ob] + 1)
            &&& window_hist(b.subrange(1, 65)) == ht.update(nb, ht[nb] + 1)
            &&& window_entropy(b.subrange(0, 64)) == entropy_sum(ht, 256) + ent(ht[ob] + 1) - ent(ht[ob])
            &&& window_entropy(b.subrange(1, 65)) == entropy_sum(ht, 256) + ent(ht[nb] + 1) - ent(ht[nb])
            &&& 0 <= window_entropy(b.subrange(1, 65)) <= ENTR_SCALE
        }),
{
    let w = b.subrange(0, 64);
    let t = b.subrange(1, 64);
    let w2 = b.subrange(1, 65);
    let ht = window_hist(t);
    assert(w.drop_first() =~= t);
    assert(w2.drop_last() =~= t);
    lemma_hist_front(w);
    lemma_hist_basic(t);
    lemma_entropy_update(ht, b[0] as int, ht[b[0] as int] + 1, 256);
    lemma_entropy_update(ht, b[64] as int, ht[b[64] as int] + 1, 256);
    lemma_window_entropy_range(w2);
}

/// Zero every counter.
#[inline]
pub fn clear_ascii(ascii: &mut Ascii)
    ensures
        final(ascii)@ == Seq::new(256, |b: int| 0u8),
{
    let mut i: usize = 0;
    while i < 256
        invariant
            i <= 256,
            ascii@.len() == 256,
            forall|b: int| 0 <= b < i ==> ascii@[b] == 0u8,
        decreases 256 - i,
    {
        ascii[i] = 0;
        i = i + 1;
    }
    assert(ascii@ =~= Seq::new(256, |b: int| 0u8));
}

/// Count the bytes of `buffer[0..64]` into `ascii` and return the window's entropy.
pub fn entr64_init_int(buffer: &[u8], ascii: &mut Ascii) -> (r: u64)
    requires
        buffer@.len() >= 64,
    ensures
        counts_window(final(ascii)@, buffer@.subrange(0, 64)),
        r as int == window_entropy(buffer@.subrange(0, 64)),
        r <= ENTR_SCALE,
{
    clear_ascii(ascii);
    let mut i: usize = 0;
    proof {
        assert(buffer@.subrange(0, 0).len() == 0);
    }
    while i < 64
        invariant
            i <= 64,
            buffer@.len() >= 64,
            counts_window(ascii@, buffer@.subrange(0, i as int)),
        decreases 64 - i,
    {
        let ghost w = buffer@.subrange(0, i as int);
        let ghost w1 = buffer@.subrange(0, i as int + 1);
        proof {
            assert(w1.drop_last() =~= w);
            lemma_hist_basic(w);
        }
        let b = buffer[i] as usize;
        proof {
            assert(ascii@[b as int] as nat == window_hist(w)[b as int]);
        }
        ascii[b] = ascii[b] + 1;
        i = i + 1;
        proof {
            assert(counts_window(ascii@, w1));
        }
    }
    let ghost w = buffer@.subrange(0, 64);
    let ghost h = window_hist(w);
    proof {
        lemma_hist_basic(w);
    }
    let mut entr: u64 = 0;
    let mut j: usize = 0;
    while j < 256
        invariant
            j <= 256,
            h == window_hist(w),
            h.len() == 256,
            hist_total(h, 256) == 64,
            forall|b: int| 0 <= b < 256 ==> #[trigger] h[b] <= 64,
            counts_window(ascii@, w),
            entr as int == entropy_sum(h, j as int),
            entr <= 16000 * hist_total(h, j as int),
        decreases 256 - j,
    {
        proof {
            lemma_ent_le(h[j as int]);
            lemma_total_mono(h, j as int + 1, 256);
            assert(ascii@[j as int] as nat == window_hist(w)[j as int]);
        }
        if ascii[j] > 0 {
            entr = entr + ENTROPY_64_INT[ascii[j] as usize];
        }
        j = j + 1;
    }
    proof {
        lemma_entropy_bound(h, 256);
    }
    entr
}

/// Slide the window of `buffer[0..64]` by one byte to `buffer[1..65]`, updating the counters
/// and the running entropy `prev_entropy` by the two changed contributions.
#[verifier::rlimit(60)]
pub fn entr64_inc_int(prev_entropy: u64, buffer: &[u8], ascii: &mut Ascii) -> (r: u64)
    requires
        buffer@.len() >= 65,
        counts_window(old(ascii)@, buffer@.subrange(0, 64)),
    ensures
        counts_window(final(ascii)@, buffer@.subrange(1, 65)),
        buffer@[0] == buffer@[64] ==> r == prev_entropy,
        buffer@[0] != buffer@[64] ==> {
            let o = old(ascii)@[buffer@[0] as int] as nat;
            let n = old(ascii)@[buffer@[64] as int] as nat;
            &&& 1 <= o <= 64
            &&& n <= 63
            &&& r as int == if o == n + 1 {
                prev_entropy as int
            } else {
                clamp_entropy(prev_entropy - (ent(o) - ent((o - 1) as nat)) + (ent(n + 1) - ent(n)))
            }
        },
        prev_entropy == window_entropy(buffer@.subrange(0, 64)) ==> r == window_entropy(
            buffer@.subrange(1, 65),
        ),
{
    let ghost w = buffer@.subrange(0, 64);
    let ghost w2 = buffer@.subrange(1, 65);
    let ghost ht = window_hist(buffer@.subrange(1, 64));
    proof {
        lemma_slide(buffer@);
        if buffer@[0] == buffer@[64] {
            assert(window_hist(w) =~= window_hist(w2));
        }
    }
    if buffer[0] == buffer[64] {
        proof {
            assert(ascii@ =~= old(ascii)@);
        }
        return prev_entropy;
    }
    proof {
        assert(ascii@[buffer@[0] as int] as nat == window_hist(w)[buffer@[0] as int]);
        assert(ascii@[buffer@[64] as int] as nat == window_hist(w)[buffer@[64] as int]);
    }
    let old_char_cnt = ascii[buffer[0] as usize] as usize;
    let new_char_cnt = ascii[buffer[64] as usize] as usize;
    ascii[buffer[0] as usize] = ascii[buffer[0] as usize] - 1;
    ascii[buffer[64] as usize] = ascii[buffer[64] as usize] + 1;
    proof {
        let ob = buffer@[0] as int;
        let nb = buffer@[64] as int;
        assert forall|b: int| 0 <= b < 256 implies ascii@[b] as nat == #[trigger] window_hist(w2)[b] by {
            assert(old(ascii)@[b] as nat == window_hist(w)[b]);
            assert(window_hist(w) == ht.update(ob, ht[ob] + 1));
            assert(window_hist(w2) == ht.update(nb, ht[nb] + 1));
        }
    }
    if old_char_cnt == new_char_cnt + 1 {
        return prev_entropy;
    }
    let old_diff = ENTROPY_64_INT[old_char_cnt] as i64 - ENTROPY_64_INT[old_char_cnt - 1] as i64;
    let new_diff = ENTROPY_64_INT[new_char_cnt + 1] as i64 - ENTROPY_64_INT[new_char_cnt] as i64;
    if prev_entropy > 2 * ENTR_SCALE {
        return ENTR_SCALE;
    }
    let entropy = prev_entropy as i64 - old_diff + new_diff;
    if entropy < 0 {
        0
    } else if entropy > ENTR_SCALE as i64 {
        ENTR_SCALE
    } else {
        entropy as u64
    }
}

} // verus!
