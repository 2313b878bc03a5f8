use dna_suffix_array::rev_packed::RevPacked;
use dna_suffix_array::suffix_array::SuffixArray;

fn padded(body: &[u8], pad: usize) -> Vec<u8> {
    let mut b: Vec<u8> = body.to_vec();
    b.resize(b.len() + pad, b'A');
    b
}

#[test]
fn test_packed() {
    {
        let b: Vec<u8> = padded(b"ACGTACGT", 124);
        let s = SuffixArray::<5>::new_packed::<1>(&b, 1, 1);
        let correct: Vec<usize> = vec![4, 0, 5, 1, 6, 2, 7, 3];
        assert_eq!(s.idxs().to_usize_vec(), correct);
    }

    {
        let b: Vec<u8> = padded(b"ACGTACGT", 124);
        let s = SuffixArray::<5>::new_packed::<1>(&b, 2, 1);
        let correct: Vec<usize> = vec![4, 0, 5, 1, 6, 2, 7, 3];
        assert_eq!(s.idxs().to_usize_vec(), correct);
    }

    {
        let b: Vec<u8> = padded(b"ACGTACGT", 248);
        let s = SuffixArray::<5>::new_packed::<2>(&b, 2, 1);
        let correct: Vec<usize> = vec![4, 0, 5, 1, 6, 2, 7, 3];
        assert_eq!(s.idxs().to_usize_vec(), correct);
    }

    {
        let b: Vec<u8> = padded(b"TTTT", 124);
        let s = SuffixArray::<5>::new_packed::<1>(&b, 2, 1);
        let correct: Vec<usize> = vec![3, 2, 1, 0];
        assert_eq!(s.idxs().to_usize_vec(), correct);
    }

    {
        let b: Vec<u8> = padded(b"AAAAAAAAACAAAAAAAAAT", 124);
        let s = SuffixArray::<5>::new_packed::<1>(&b, 2, 1);
        let cnt: Vec<usize> = s.stats::<1>(&b);
        let total: usize = cnt.iter().sum();
        assert_eq!(s.idxs().to_usize_vec().len(), 20);
        assert_eq!(total, 19);
        assert_eq!(cnt.len(), 125);
    }
}

#[test]
fn lowercase_input_is_folded() {
    let b: Vec<u8> = padded(b"acgtacgt", 124);
    let s = SuffixArray::<5>::new_packed::<1>(&b, 1, 1);
    let correct: Vec<usize> = vec![4, 0, 5, 1, 6, 2, 7, 3];
    assert_eq!(s.idxs().to_usize_vec(), correct);
}

#[test]
fn output_invariant_under_thread_count() {
    let b: Vec<u8> = padded(b"GATTACAGATTACA", 124);
    let s1 = SuffixArray::<5>::new_packed::<1>(&b, 2, 1);
    let s3 = SuffixArray::<5>::new_packed::<1>(&b, 2, 3);
    let s8 = SuffixArray::<5>::new_packed::<1>(&b, 2, 8);
    assert_eq!(s1.idxs().to_usize_vec(), s3.idxs().to_usize_vec());
    assert_eq!(s1.idxs().to_usize_vec(), s8.idxs().to_usize_vec());
}

#[test]
fn output_invariant_under_radix_width() {
    let b: Vec<u8> = padded(b"GATTACAGATTACA", 124);
    let s0 = SuffixArray::<5>::new_packed::<1>(&b, 0, 1);
    let s1 = SuffixArray::<5>::new_packed::<1>(&b, 1, 1);
    let s3 = SuffixArray::<5>::new_packed::<1>(&b, 3, 2);
    assert_eq!(s0.idxs().to_usize_vec(), s1.idxs().to_usize_vec());
    assert_eq!(s0.idxs().to_usize_vec(), s3.idxs().to_usize_vec());
}

#[test]
fn bytes_path_basic() {
    let b: Vec<u8> = padded(b"ACGTACGT", 32);
    let s = SuffixArray::<5>::new_bytes::<1>(&b);
    let correct: Vec<usize> = vec![4, 0, 5, 1, 6, 2, 7, 3];
    assert_eq!(s.idxs().to_usize_vec(), correct);
    assert_eq!(s.k(), 0);
    assert_eq!(s.ctx(), 1);
}

#[test]
fn bytes_path_matches_packed_on_equal_window() {
    // 124 * 8 == 32 * 31, so both paths pad and compare the same span.
    let b: Vec<u8> = padded(b"ACGTACGTTGCA", 992);
    let sp = SuffixArray::<5>::new_packed::<8>(&b, 2, 1);
    let sb = SuffixArray::<5>::new_bytes::<31>(&b);
    assert_eq!(sp.idxs().to_usize_vec(), sb.idxs().to_usize_vec());
}

#[test]
fn seeded_path_distinct_seeds() {
    let mut seeds: Vec<u16> = vec![3, 1, 2, 0];
    seeds.resize(4 + 16, 0u16);
    let s = SuffixArray::<5>::new::<1>(&seeds, 2);
    let correct: Vec<usize> = vec![3, 1, 2, 0];
    assert_eq!(s.idxs().to_usize_vec(), correct);
    assert_eq!(s.k(), 2);
}

#[test]
fn seeded_path_ties_broken_past_the_key() {
    let mut seeds: Vec<u16> = vec![2, 2, 1, 1];
    seeds.resize(4 + 16, 0u16);
    let s = SuffixArray::<5>::new::<1>(&seeds, 2);
    // bucket 1 holds positions 2 and 3, bucket 2 holds 0 and 1; inside each
    // bucket the window one symbol past the key decides.
    let correct: Vec<usize> = vec![3, 2, 1, 0];
    assert_eq!(s.idxs().to_usize_vec(), correct);
}

#[test]
fn seeded_path_equal_seeds_keep_order() {
    let seeds: Vec<u16> = vec![0u16; 4 + 16];
    let s = SuffixArray::<5>::new::<1>(&seeds, 2);
    let correct: Vec<usize> = vec![0, 1, 2, 3];
    assert_eq!(s.idxs().to_usize_vec(), correct);
}

#[test]
fn rev_packed_loads() {
    let b: Vec<u8> = padded(b"ACGTACGT", 124);
    let p = RevPacked::new(&b);
    // A C G T as most-significant-first base-4 digits: 0,1,2,3 -> 27
    assert_eq!(p.load_k(0, 4), 27);
    assert_eq!(p.load_k(1, 3), 1 * 16 + 2 * 4 + 3);
    assert_eq!(p.load_k(0, 0), 0);
    let w: Vec<u8> = p.load_124(0);
    assert_eq!(w.len(), 124);
    assert_eq!(&w[0..8], &[0, 1, 2, 3, 0, 1, 2, 3]);
    assert_eq!(w[9], 0);
}

#[test]
fn stats_histogram_sums_to_pairs() {
    let b: Vec<u8> = padded(b"ACGTACGT", 124);
    let s = SuffixArray::<5>::new_packed::<1>(&b, 1, 1);
    let cnt: Vec<usize> = s.stats::<1>(&b);
    assert_eq!(cnt.len(), 125);
    let total: usize = cnt.iter().sum();
    assert_eq!(total, 7);
    // pairs (4,0), (5,1), (6,2), (7,3) match into the pad for 5, 4, 3, 2
    // symbols; the three pairs that cross a first-letter change share none.
    assert_eq!(cnt[0], 3);
    assert_eq!(cnt[5], 1);
    assert_eq!(cnt[4], 1);
    assert_eq!(cnt[3], 1);
    assert_eq!(cnt[2], 1);
}

#[test]
fn random_cross_check_against_naive() {
    let n: usize = 10_000;
    let mut b: Vec<u8> = Vec::with_capacity(n + 124);
    let mut state: u64 = 0x243F6A8885A308D3;
    for _ in 0..n {
        state = state.wrapping_mul(6364136223846793005).wrapping_add(1442695040888963407);
        let sym: u64 = (state >> 33) % 4;
        b.push(match sym {
            0 => b'A',
            1 => b'C',
            2 => b'G',
            _ => b'T',
        });
    }
    b.resize(n + 124, b'A');
    let s = SuffixArray::<5>::new_packed::<1>(&b, 8, 4);
    let mut naive: Vec<usize> = (0..n).collect();
    naive.sort_by(|&x, &y| b[x..x + 124].cmp(&b[y..y + 124]).then(x.cmp(&y)));
    assert_eq!(s.idxs().to_usize_vec(), naive);
}
