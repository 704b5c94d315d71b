use glacier::chunker::{find_chunk_boundaries, get_chunks, rolling_hash};
use glacier::params::{MAX_CHUNK_SIZE, MIN_CHUNK_SIZE, WINDOW_SIZE};

fn pseudo_random(len: usize, seed: u64) -> Vec<u8> {
    let mut state = seed;
    let mut out = Vec::with_capacity(len);
    for _ in 0..len {
        state = state.wrapping_mul(6364136223846793005).wrapping_add(1442695040888963407);
        out.push((state >> 33) as u8);
    }
    out
}

fn assert_partition(bounds: &[usize], len: usize) {
    assert_eq!(bounds[0], 0);
    assert_eq!(*bounds.last().unwrap(), len);
    for w in bounds.windows(2) {
        assert!(w[0] < w[1]);
    }
}

#[test]
fn rolling_hash_sums_each_window() {
    assert_eq!(rolling_hash(&[1, 2, 3, 4, 5], 3), vec![6, 9, 12]);
}

#[test]
fn rolling_hash_of_short_buffer_is_single_zero() {
    assert_eq!(rolling_hash(&[9, 9], 3), vec![0]);
    assert_eq!(rolling_hash(&[], WINDOW_SIZE), vec![0]);
}

#[test]
fn rolling_hash_wraps_in_32_bits() {
    let buffer = vec![255u8; 70000];
    let hashes = rolling_hash(&buffer, 70000);
    assert_eq!(hashes, vec![255u32 * 70000]);
    let window = 20_000_000usize;
    let big = vec![255u8; window];
    let hashes = rolling_hash(&big, window);
    assert_eq!(hashes, vec![(255u64 * window as u64 % (1u64 << 32)) as u32]);
}

#[test]
fn empty_buffer_is_signalled() {
    assert_eq!(find_chunk_boundaries(&[]), None);
}

#[test]
fn buffer_shorter_than_window_is_one_chunk() {
    assert_eq!(find_chunk_boundaries(&[7u8; 20]), Some(vec![0, 20]));
}

#[test]
fn constant_ones_below_maximum_is_one_chunk() {
    assert_eq!(find_chunk_boundaries(&vec![1u8; 10000]), Some(vec![0, 10000]));
}

#[test]
fn forced_cuts_at_maximum_count() {
    assert_eq!(
        find_chunk_boundaries(&vec![1u8; 40000]),
        Some(vec![0, 16431, 32815, 40000])
    );
}

#[test]
fn zero_bytes_cut_at_minimum_count() {
    assert_eq!(
        find_chunk_boundaries(&vec![0u8; 5000]),
        Some(vec![0, 1071, 2095, 3119, 4143, 5000])
    );
}

#[test]
fn chunking_is_deterministic() {
    let data = pseudo_random(200_000, 7);
    assert_eq!(find_chunk_boundaries(&data), find_chunk_boundaries(&data.clone()));
}

#[test]
fn boundaries_partition_random_buffers() {
    for (len, seed) in [(1usize, 1u64), (47, 2), (48, 3), (5000, 4), (150_000, 5)] {
        let data = pseudo_random(len, seed);
        assert_partition(&find_chunk_boundaries(&data).unwrap(), len);
    }
}

#[test]
fn chunk_sizes_are_bounded() {
    let data = pseudo_random(300_000, 11);
    let bounds = find_chunk_boundaries(&data).unwrap();
    let n = bounds.len();
    assert!(n > 3);
    for j in 0..n - 2 {
        let size = bounds[j + 1] - bounds[j];
        assert!(size >= MIN_CHUNK_SIZE);
        if j == 0 {
            assert!(size <= MAX_CHUNK_SIZE + WINDOW_SIZE - 1);
        } else {
            assert!(size <= MAX_CHUNK_SIZE);
        }
    }
}

#[test]
fn insertion_leaves_earlier_boundaries_alone() {
    let data = pseudo_random(120_000, 21);
    let mut shifted = data.clone();
    let k = 60_000;
    shifted.insert(k, 0xAA);
    let before = find_chunk_boundaries(&data).unwrap();
    let after = find_chunk_boundaries(&shifted).unwrap();
    let early_before: Vec<usize> = before.iter().copied().filter(|&b| b + WINDOW_SIZE <= k).collect();
    let early_after: Vec<usize> = after.iter().copied().filter(|&b| b + WINDOW_SIZE <= k).collect();
    assert_eq!(early_before, early_after);
}

#[test]
fn get_chunks_slices_between_boundaries() {
    let data: Vec<u8> = (0u8..10).collect();
    let chunks = get_chunks(&data, &[0, 3, 3, 10]);
    assert_eq!(chunks.len(), 3);
    assert_eq!(chunks[0], &[0u8, 1, 2][..]);
    assert!(chunks[1].is_empty());
    assert_eq!(chunks[2], &data[3..]);
}

#[test]
fn count_forced_cuts_keep_their_offsets_after_insertion() {
    let data = vec![1u8; 40000];
    let mut shifted = data.clone();
    shifted.insert(0, 0);
    assert_eq!(find_chunk_boundaries(&shifted), Some(vec![0, 16431, 32815, 40001]));
}
