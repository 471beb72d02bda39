use sdbf::bf_utils::{bf_bitcount, bf_bitcount_cut_256, bf_merge, bf_sha1_insert, get_elem_count};
use sdbf::entr64::{clear_ascii, entr64_inc_int, entr64_init_int, Ascii, ENTR_SCALE};
use sdbf::sdbf_core::{
    digest_block, digest_stream, SdbfError, gen_block_hash, gen_block_sdbf, gen_chunk_hash, gen_chunk_ranks, gen_chunk_scores,
    gen_chunk_sdbf, score_cutoff,
};
use sdbf::{Sdbf, SdbfParameters, MAX_ELEM};
use sha1::Digest;

fn pseudo_random(n: usize, seed: u64) -> Vec<u8> {
    let mut x = seed;
    let mut v = Vec::with_capacity(n);
    for _ in 0..n {
        x = x.wrapping_mul(6364136223846793005).wrapping_add(1442695040888963407);
        v.push((x >> 33) as u8);
    }
    v
}

fn popcount(bytes: &[u8]) -> u32 {
    bytes.iter().map(|b| b.count_ones()).sum()
}

fn entropy_by_table(window: &[u8]) -> u64 {
    let mut counts = [0usize; 256];
    for &b in window {
        counts[b as usize] += 1;
    }
    counts.iter().map(|&c| sdbf::entr64::ENTROPY_64_INT[c]).sum()
}

#[test]
fn sha1_insert_zero_words_sets_one_bit_once() {
    let mut bf = vec![0u8; 256];
    let mut words = [0u32; 5];
    assert_eq!(bf_sha1_insert(&mut bf, 0, &mut words), 1);
    assert_eq!(bf[0], 1);
    assert_eq!(popcount(&bf), 1);
    let mut words = [0u32; 5];
    assert_eq!(bf_sha1_insert(&mut bf, 0, &mut words), 0);
    assert_eq!(popcount(&bf), 1);
}

#[test]
fn sha1_insert_masks_words_in_place() {
    let mut bf = vec![0u8; 256];
    let mut words = [0xFFFF_FFFFu32, 0x0000_0809, 3, 3, 0x7FF];
    let n = bf_sha1_insert(&mut bf, 0, &mut words);
    assert_eq!(words, [0x7FF, 0x009, 3, 3, 0x7FF]);
    assert_eq!(n, 3);
    assert_eq!(bf[255], 0x80);
    assert_eq!(bf[1], 0x02);
    assert_eq!(bf[0], 0x08);
}

#[test]
fn merge_ors_prefix_only() {
    let mut base = vec![1u32, 2, 4, 8];
    bf_merge(&mut base, &[16, 16, 16, 16], 2);
    assert_eq!(base, vec![17, 18, 4, 8]);
}

#[test]
fn bitcount_counts_common_bits() {
    let a = pseudo_random(256, 1);
    let b = pseudo_random(256, 2);
    let expected: u32 = a.iter().zip(&b).map(|(x, y)| (x & y).count_ones()).sum();
    assert_eq!(bf_bitcount(&a, &b, 256), expected);
    assert_eq!(bf_bitcount(&[0xFF, 0x0F], &[0xF0, 0xFF], 2), 8);
}

#[test]
fn cut_bitcount_without_cutoff_is_plain_bitcount() {
    let a = pseudo_random(256, 3);
    let b = pseudo_random(256, 4);
    assert_eq!(bf_bitcount_cut_256(&a, &b, 0, 0), bf_bitcount(&a, &b, 256));
}

#[test]
fn cut_bitcount_prunes_or_is_exact() {
    let a = pseudo_random(256, 5);
    let b = pseudo_random(256, 6);
    let full = bf_bitcount(&a, &b, 256);
    assert_eq!(bf_bitcount_cut_256(&a, &b, 1_000_000, 0), 0);
    assert_eq!(bf_bitcount_cut_256(&a, &b, 1, 0), full);
    // all common bits in the last half: the first gate already fails
    let mut c = vec![0u8; 256];
    for byte in c.iter_mut().skip(128) {
        *byte = 0xFF;
    }
    assert_eq!(bf_bitcount(&c, &c, 256), 1024);
    assert_eq!(bf_bitcount_cut_256(&c, &c, 10, 0), 0);
    assert_eq!(bf_bitcount_cut_256(&c, &c, 10, 10), 1024);
}

#[test]
fn elem_count_in_both_modes() {
    let mut s = Sdbf::new("x".to_string());
    s.bf_count = 3;
    s.last_count = 7;
    assert_eq!(get_elem_count(&s, 0), MAX_ELEM);
    assert_eq!(get_elem_count(&s, 1), MAX_ELEM);
    assert_eq!(get_elem_count(&s, 2), 7);
    s.elem_counts = vec![5, 9, 11];
    assert_eq!(get_elem_count(&s, 1), 9);
}

#[test]
fn ascii_clears() {
    let mut ascii: Ascii = [3u8; 256];
    clear_ascii(&mut ascii);
    assert!(ascii.iter().all(|&c| c == 0));
}

#[test]
fn entropy_of_constant_window_is_zero() {
    let mut ascii: Ascii = [0u8; 256];
    assert_eq!(entr64_init_int(&[0u8; 64], &mut ascii), 0);
    assert_eq!(ascii[0], 64);
}

#[test]
fn entropy_of_distinct_bytes_is_full_scale() {
    let buf: Vec<u8> = (0u8..64).collect();
    let mut ascii: Ascii = [0u8; 256];
    assert_eq!(entr64_init_int(&buf, &mut ascii), ENTR_SCALE);
}

#[test]
fn entropy_init_matches_table_sum() {
    let buf = pseudo_random(64, 7);
    let mut ascii: Ascii = [0u8; 256];
    assert_eq!(entr64_init_int(&buf, &mut ascii), entropy_by_table(&buf));
    let half: Vec<u8> = (0..64).map(|i| (i % 5) as u8).collect();
    assert_eq!(entr64_init_int(&half, &mut ascii), entropy_by_table(&half));
    assert_eq!(sdbf::entr64::ENTROPY_64_INT[2], 26667);
}

#[test]
fn entropy_increment_matches_fresh_window() {
    let data: Vec<u8> = (0..400).map(|i| ((i * 7) % 23 + (i / 50)) as u8).collect();
    let mut ascii: Ascii = [0u8; 256];
    let mut e = entr64_init_int(&data, &mut ascii);
    for off in 1..(data.len() - 64) {
        e = entr64_inc_int(e, &data[off - 1..], &mut ascii);
        let mut fresh: Ascii = [0u8; 256];
        assert_eq!(e, entr64_init_int(&data[off..], &mut fresh));
        assert_eq!(ascii, fresh);
    }
}

#[test]
fn ranks_of_zero_chunk_are_zero() {
    let data = vec![0u8; 300];
    let mut ranks = vec![9u16; 300];
    gen_chunk_ranks(&data, 300, &mut ranks, 0);
    assert!(ranks.iter().all(|&r| r == 0));
}

#[test]
fn ranks_follow_window_entropy() {
    let data = pseudo_random(400, 8);
    let mut ranks = vec![0u16; 400];
    gen_chunk_ranks(&data, 400, &mut ranks, 0);
    for i in 0..336 {
        let e = entropy_by_table(&data[i..i + 64]);
        let mut ascii: Ascii = [0u8; 256];
        assert_eq!(entr64_init_int(&data[i..], &mut ascii), e);
    }
    // random bytes are nearly all distinct within a window: rank well above zero
    assert!(ranks[..336].iter().all(|&r| r > 0));
    assert!(ranks[336..].iter().all(|&r| r == 0));
}

#[test]
fn ranks_carryover_rotates() {
    let data = vec![0u8; 70];
    let mut ranks: Vec<u16> = (0..70).collect();
    gen_chunk_ranks(&data, 70, &mut ranks, 3);
    assert!(ranks[..6].iter().all(|&r| r == 0));
    assert_eq!(&ranks[..3], &[0, 0, 0]);
    let data = vec![0u8; 10];
    let mut ranks: Vec<u16> = (0..10).collect();
    gen_chunk_ranks(&data, 10, &mut ranks, 3);
    assert_eq!(ranks, vec![3, 4, 5, 0, 0, 0, 0, 0, 0, 0]);
}

/// The popularity competition exactly as the nested cheap-slide loop describes it.
fn scores_by_nested_loop(ranks: &[u16], size: usize) -> Vec<u16> {
    let pop_win = 64usize;
    let mut scores = vec![0u16; ranks.len()];
    let mut min_pos = 0usize;
    let mut min_rank = ranks[0];
    let mut i = 0usize;
    while i < size - pop_win {
        if i > 0 && min_rank > 0 {
            while i < size - pop_win && ranks[i + pop_win] >= min_rank && i < min_pos {
                if ranks[i + pop_win] == min_rank {
                    min_pos = i + pop_win;
                }
                scores[min_pos] += 1;
                i += 1;
            }
            if i == size - pop_win {
                break;
            }
        }
        min_pos = i;
        min_rank = ranks[min_pos];
        for j in i + 1..i + pop_win {
            if ranks[j] < min_rank && ranks[j] > 0 {
                min_rank = ranks[j];
                min_pos = j;
            } else if min_pos == j - 1 && ranks[j] == min_rank {
                min_pos = j;
            }
        }
        if ranks[min_pos] > 0 {
            scores[min_pos] += 1;
        }
        i += 1;
    }
    scores
}

#[test]
fn scores_of_single_minimum() {
    let mut ranks = vec![500u16; 200];
    ranks[100] = 100;
    let mut scores = vec![0u16; 200];
    let mut histo = vec![0i32; 66];
    gen_chunk_scores(&ranks, 200, &mut scores, &mut histo);
    assert_eq!(scores, scores_by_nested_loop(&ranks, 200));
    assert_eq!(histo.iter().sum::<i32>(), 136);
    for v in 0..66usize {
        assert_eq!(histo[v] as usize, scores[..136].iter().filter(|&&x| x as usize == v).count());
    }
    let mut none: Vec<i32> = Vec::new();
    let mut again = vec![7u16; 200];
    gen_chunk_scores(&ranks, 200, &mut again, &mut none);
    assert_eq!(again, scores);
}

#[test]
fn scores_match_nested_loop_on_random_ranks() {
    let data = pseudo_random(3000, 21);
    let mut ranks = vec![0u16; 3000];
    gen_chunk_ranks(&data, 3000, &mut ranks, 0);
    for (i, r) in ranks.iter_mut().enumerate() {
        if i % 7 == 0 {
            *r = 0;
        } else if i % 5 == 0 {
            *r = 300;
        }
    }
    let mut scores = vec![0u16; 3000];
    let mut none: Vec<i32> = Vec::new();
    gen_chunk_scores(&ranks, 3000, &mut scores, &mut none);
    assert_eq!(scores, scores_by_nested_loop(&ranks, 3000));
    assert!(scores.iter().all(|&x| x <= 65));
}

#[test]
fn scores_of_zero_ranks_are_zero() {
    let ranks = vec![0u16; 300];
    let mut scores = vec![1u16; 300];
    let mut histo = vec![0i32; 66];
    gen_chunk_scores(&ranks, 300, &mut scores, &mut histo);
    assert!(scores.iter().all(|&s| s == 0));
    assert_eq!(histo[0], 236);
}

#[test]
fn cutoff_from_histogram() {
    let mut histo = vec![0i32; 66];
    histo[64] = 100;
    histo[40] = 80;
    histo[30] = 50;
    assert_eq!(score_cutoff(&histo), (30, 12));
    let empty = vec![0i32; 66];
    assert_eq!(score_cutoff(&empty), (16, 192));
}

#[test]
fn chunk_hash_inserts_sha1_of_the_rest_of_the_file() {
    let file = pseudo_random(200, 9);
    let mut scores = vec![0u16; 200];
    scores[5] = 17;
    let mut s = Sdbf::new("f".to_string());
    s.buffer = vec![0u8; 256];
    gen_chunk_hash(&file, 0, &scores, 200, &mut s);
    let d = sha1::Sha1::digest(&file[5..]);
    let mut expected = vec![0u8; 256];
    for j in 0..5 {
        let w = u32::from_le_bytes([d[4 * j], d[4 * j + 1], d[4 * j + 2], d[4 * j + 3]]) & 0x7FF;
        expected[(w >> 3) as usize] |= 1 << (w & 7);
    }
    assert_eq!(s.buffer, expected);
    assert_eq!(s.last_count, 1);
    assert_eq!(s.bf_count, 1);
}

#[test]
fn block_hash_counts_elements() {
    let file = pseudo_random(300, 10);
    let mut scores = vec![0u16; 300];
    scores[1] = 20;
    scores[2] = 16;
    scores[3] = 16;
    let mut s = Sdbf::new("b".to_string());
    s.buffer = vec![0u8; 512];
    s.elem_counts = vec![0, 0];
    gen_block_hash(&file, 300, 1, &scores, 100, &mut s, 0, 16, 1);
    assert_eq!(s.elem_counts, vec![0, 2]);
    assert!(s.buffer[..256].iter().all(|&b| b == 0));
    assert!(popcount(&s.buffer[256..]) > 0);
}

#[test]
fn zero_input_gives_one_empty_filter() {
    let file = vec![0u8; 65536];
    let mut s = Sdbf::new("zeros".to_string());
    gen_chunk_sdbf(&file, 65536, 16384, &mut s);
    assert_eq!(s.bf_count, 1);
    assert_eq!(s.last_count, 0);
    assert_eq!(s.buffer, vec![0u8; 256]);
}

#[test]
fn one_full_chunk_has_no_tail() {
    let file = pseudo_random(16384, 11);
    let mut s = Sdbf::new("one".to_string());
    gen_chunk_sdbf(&file, 16384, 16384, &mut s);
    assert!(s.bf_count >= 1);
    assert_eq!(s.buffer.len(), s.bf_count as usize * 256);
    assert!(s.last_count <= MAX_ELEM);
    assert!(popcount(&s.buffer) > 0);
}

#[test]
fn random_input_fills_filters_in_order() {
    let file = pseudo_random(40000, 12);
    let mut s = Sdbf::new("r".to_string());
    gen_chunk_sdbf(&file, 40000, 16384, &mut s);
    assert!(s.bf_count >= 2);
    assert_eq!(s.buffer.len(), s.bf_count as usize * 256);
    // every filter is at most MAX_ELEM elements of five bits each
    for i in 0..s.bf_count as usize {
        assert!(popcount(&s.buffer[i * 256..(i + 1) * 256]) <= 5 * MAX_ELEM);
    }
}

#[test]
fn stream_digest_is_deterministic() {
    let file = pseudo_random(20000, 13);
    let mut a = Sdbf::new("a".to_string());
    let mut b = Sdbf::new("b".to_string());
    gen_chunk_sdbf(&file, 20000, 16384, &mut a);
    gen_chunk_sdbf(&file.clone(), 20000, 16384, &mut b);
    assert_eq!(a.buffer, b.buffer);
    assert_eq!(a.bf_count, b.bf_count);
    assert_eq!(a.last_count, b.last_count);
}

#[test]
fn hamming_matches_popcount_and_self_comparison() {
    let file = pseudo_random(40000, 14);
    let mut s = Sdbf::new("h".to_string());
    gen_chunk_sdbf(&file, 40000, 16384, &mut s);
    s.compute_hamming();
    assert_eq!(s.hamming.len(), s.bf_count as usize);
    for i in 0..s.bf_count as usize {
        let f = &s.buffer[i * 256..(i + 1) * 256];
        assert_eq!(s.hamming[i] as u32, popcount(f));
        assert_eq!(bf_bitcount(f, f, 256), s.hamming[i] as u32);
    }
}

#[test]
fn block_digest_has_a_filter_per_block() {
    let file = pseudo_random(4096 * 3 + 600, 15);
    let mut s = Sdbf::new("blk".to_string());
    gen_block_sdbf(&file, file.len() as u64, 4096, &mut s);
    assert_eq!(s.bf_count, 4);
    assert_eq!(s.buffer.len(), 4 * 256);
    assert_eq!(s.elem_counts.len(), 4);
    assert_eq!(s.dd_block_size, 4096);
    for i in 0..4 {
        assert!(s.elem_counts[i] as u32 <= MAX_ELEM);
        assert_eq!(get_elem_count(&s, i), s.elem_counts[i] as u32);
    }
    let mut t = Sdbf::new("short".to_string());
    gen_block_sdbf(&file[..4096 + 100], 4196, 4096, &mut t);
    assert_eq!(t.bf_count, 1);
}

#[test]
fn new_digest_and_parameters() {
    let s = Sdbf::new("n".to_string());
    assert_eq!(s.name, "n");
    assert_eq!((s.bf_count, s.bf_size, s.hash_count, s.mask, s.max_elem), (1, 256, 5, 0x7FF, 192));
    assert_eq!(s.last_count, 0);
    assert_eq!(s.dd_block_size, 1);
    let p = SdbfParameters::default();
    assert_eq!((p.entr_win_size, p.bf_size, p.block_size, p.pop_win_size), (64, 256, 4096, 64));
    assert_eq!((p.threshold, p.max_elem, p.sample_size), (16, 192, 0));
}

#[test]
fn small_input_is_refused() {
    assert_eq!(digest_stream("e".to_string(), &[], 16384).err(), Some(SdbfError::InputTooSmall));
    let small = pseudo_random(511, 16);
    assert_eq!(digest_stream("s".to_string(), &small, 16384).err(), Some(SdbfError::InputTooSmall));
    assert_eq!(digest_block("s".to_string(), &small, 4096).err(), Some(SdbfError::InputTooSmall));
}

#[test]
fn digest_entry_points_match_drivers() {
    let file = pseudo_random(9000, 17);
    let a = digest_stream("a".to_string(), &file, 16384).unwrap();
    let mut b = Sdbf::new("a".to_string());
    gen_chunk_sdbf(&file, 9000, 16384, &mut b);
    assert_eq!(a.buffer, b.buffer);
    assert_eq!((a.bf_count, a.last_count), (b.bf_count, b.last_count));
    let c = digest_block("c".to_string(), &file, 4096).unwrap();
    assert_eq!(c.bf_count, 3);
    assert_eq!(c.elem_counts.len(), 3);
    let exact = pseudo_random(512, 18);
    assert!(digest_stream("x".to_string(), &exact, 16384).is_ok());
}
