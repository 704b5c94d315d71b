use vstd::prelude::*;

use crate::params::{MASK, MAX_CHUNK_SIZE, MIN_CHUNK_SIZE, WINDOW_SIZE};

verus! {

/// Sum of the first `k` bytes of `b`, as a mathematical integer.
pub open spec fn prefix_sum(b: Seq<u8>, k: int) -> int
    decreases k,
{
    if k <= 0 {
        0
    } else {
        prefix_sum(b, k - 1) + b[k - 1] as int
    }
}

/// The wrapping 32-bit sum of the `w` bytes of `b` that start at `start`.
pub open spec fn window_hash(b: Seq<u8>, start: int, w: int) -> u32 {
    ((prefix_sum(b, start + w) - prefix_sum(b, start)) % 0x1_0000_0000) as u32
}

/// One window hash for each start position of a full window; a buffer shorter
/// than the window has the single hash 0.
pub open spec fn rolling_hashes(b: Seq<u8>, w: int) -> Seq<u32> {
    if b.len() < w {
        seq![0u32]
    } else {
        Seq::new((b.len() - w + 1) as nat, |i: int| window_hash(b, i, w))
    }
}

proof fn lemma_window_slide(b: Seq<u8>, i: int, w: int, h: u32)
    requires
        0 < i,
        0 <= w,
        i + w <= b.len(),
        h == window_hash(b, i - 1, w),
    ensures
        (h as u32).wrapping_add(b[i + w - 1] as u32).wrapping_sub(b[i - 1] as u32)
            == window_hash(b, i, w),
{
    let m: int = 0x1_0000_0000;
    let s_old = prefix_sum(b, i - 1 + w) - prefix_sum(b, i - 1);
    let s_new = prefix_sum(b, i + w) - prefix_sum(b, i);
    assert(prefix_sum(b, i + w) == prefix_sum(b, i + w - 1) + b[i + w - 1] as int);
    assert(prefix_sum(b, i) == prefix_sum(b, i - 1) + b[i - 1] as int);
    assert(s_new == s_old + b[i + w - 1] as int - b[i - 1] as int);
    let a = (h as u32).wrapping_add(b[i + w - 1] as u32);
    assert(a as int == (h as int + b[i + w - 1] as int) % m);
    let r = a.wrapping_sub(b[i - 1] as u32);
    assert(r as int == (a as int - b[i - 1] as int) % m);
    assert(h as int == s_old % m);
    assert((s_old % m + b[i + w - 1] as int) % m == (s_old + b[i + w - 1] as int) % m) by {
        vstd::arithmetic::div_mod::lemma_add_mod_noop(s_old, b[i + w - 1] as int, m);
        vstd::arithmetic::div_mod::lemma_mod_twice(b[i + w - 1] as int, m);
        vstd::arithmetic::div_mod::lemma_small_mod(b[i + w - 1] as nat, m as nat);
        vstd::arithmetic::div_mod::lemma_add_mod_noop(s_old % m, b[i + w - 1] as int, m);
        vstd::arithmetic::div_mod::lemma_mod_twice(s_old, m);
    }
    let t = s_old + b[i + w - 1] as int;
    assert(((t % m) - b[i - 1] as int) % m == (t - b[i - 1] as int) % m) by {
        vstd::arithmetic::div_mod::lemma_sub_mod_noop(t, b[i - 1] as int, m);
        vstd::arithmetic::div_mod::lemma_small_mod(b[i - 1] as nat, m as nat);
    }
}

/// The rolling hash of `buffer` over windows of `window_size` bytes.
pub fn rolling_hash(buffer: &[u8], window_size: usize) -> (hashes: Vec<u32>)
    ensures
        hashes@ == rolling_hashes(buffer@, window_size as int),
{
    if buffer.len() < window_size {
        return vec![0];
    }
    let mut hashes: Vec<u32> = Vec::new();
    let mut hash: u32 = 0;
    let mut i: usize = 0;
    while i < window_size
        invariant
            i <= window_size <= buffer@.len(),
            hash == (prefix_sum(buffer@, i as int) % 0x1_0000_0000) as u32,
        decreases window_size - i,
    {
        proof {
            let m: int = 0x1_0000_0000;
            let p = prefix_sum(buffer@, i as int);
            assert(prefix_sum(buffer@, i + 1) == p + buffer@[i as int] as int);
            vstd::arithmetic::div_mod::lemma_add_mod_noop(p, buffer@[i as int] as int, m);
            vstd::arithmetic::div_mod::lemma_small_mod(buffer@[i as int] as nat, m as nat);
        }
        hash = hash.wrapping_add(buffer[i] as u32);
        i += 1;
    }
    assert(prefix_sum(buffer@, 0) == 0);
    hashes.push(hash);
    let mut i: usize = window_size;
    while i < buffer.len()
        invariant
            window_size <= i <= buffer@.len(),
            hashes@.len() == i - window_size + 1,
            forall|j: int|
                0 <= j < hashes@.len() ==> hashes@[j] == window_hash(
                    buffer@,
                    j,
                    window_size as int,
                ),
            hash == window_hash(buffer@, i - window_size, window_size as int),
        decreases buffer@.len() - i,
    {
        proof {
            lemma_window_slide(
                buffer@,
                i - window_size + 1,
                window_size as int,
                hash,
            );
        }
        hash = hash.wrapping_add(buffer[i] as u32);
        hash = hash.wrapping_sub(buffer[i - window_size] as u32);
        hashes.push(hash);
        i += 1;
    }
    assert(hashes@ =~= rolling_hashes(buffer@, window_size as int));
    hashes
}

/// Whether a window hash seen `count` positions after the last cut ends a chunk.
pub open spec fn cuts_at(h: u32, count: int) -> bool {
    count >= MIN_CHUNK_SIZE && ((h & MASK) == 0 || count >= MAX_CHUNK_SIZE)
}

/// The boundaries chosen over the first `k` window hashes `hs` of a buffer of
/// `n` bytes, with the number of window positions seen since the last cut.
pub open spec fn scan(hs: Seq<u32>, n: int, k: int) -> (Seq<usize>, int)
    decreases k,
{
    if k <= 0 {
        (seq![0usize], 0)
    } else {
        let (bs, c) = scan(hs, n, k - 1);
        let cut = k - 1 + WINDOW_SIZE;
        if cuts_at(hs[k - 1], c + 1) && cut < n {
            (bs.push(cut as usize), 0)
        } else {
            (bs, c + 1)
        }
    }
}

/// The content-defined boundaries of `b`: the cuts chosen over all window
/// hashes, closed by the buffer's length.
pub open spec fn cdc_boundaries(b: Seq<u8>) -> Seq<usize> {
    let hs = rolling_hashes(b, WINDOW_SIZE as int);
    let bs = scan(hs, b.len() as int, hs.len() as int).0;
    if bs.last() == b.len() {
        bs
    } else {
        bs.push(b.len() as usize)
    }
}

/// Length of the `j`-th chunk of the boundary sequence `s`.
pub open spec fn chunk_len(s: Seq<usize>, j: int) -> int {
    s[j + 1] - s[j]
}

/// Every entry of `s` is below every later one.
pub open spec fn strictly_increasing(s: Seq<usize>) -> bool {
    forall|i: int, j: int| 0 <= i < j < s.len() ==> s[i] < s[j]
}

/// `s` splits `0..n` into non-empty consecutive ranges.
pub open spec fn is_partition(s: Seq<usize>, n: int) -> bool {
    &&& s.len() >= 1
    &&& s[0] == 0
    &&& s.last() == n
    &&& strictly_increasing(s)
}

/// What holds of the boundaries `bs` and the count `c` after `k` window
/// hashes of a buffer of `n` bytes: cuts increase and stay inside the buffer,
/// chunks between cuts respect the size bounds, and `c` counts the positions
/// since the last cut, staying below the maximum while cuts are possible.
spec fn scan_shape(n: int, k: int, bs: Seq<usize>, c: int) -> bool {
    &&& bs.len() >= 1
    &&& bs[0] == 0
    &&& strictly_increasing(bs)
    &&& forall|j: int| 1 <= j < bs.len() ==> #[trigger] bs[j] < n
    &&& forall|j: int| 0 <= j < bs.len() - 1 ==> #[trigger] chunk_len(bs, j) >= MIN_CHUNK_SIZE
    &&& forall|j: int| 1 <= j < bs.len() - 1 ==> #[trigger] chunk_len(bs, j) <= MAX_CHUNK_SIZE
    &&& bs.len() >= 2 ==> bs[1] <= MAX_CHUNK_SIZE + WINDOW_SIZE - 1
    &&& bs.len() == 1 ==> c == k
    &&& bs.len() > 1 ==> c == k + WINDOW_SIZE - 1 - bs.last()
    &&& (c < MAX_CHUNK_SIZE || k + WINDOW_SIZE - 1 >= n)
}

/// Appending a value above the last entry keeps a sequence increasing.
pub proof fn lemma_push_increasing(bs: Seq<usize>, x: usize)
    requires
        strictly_increasing(bs),
        bs.len() >= 1,
        bs.last() < x,
    ensures
        strictly_increasing(bs.push(x)),
{
    let r = bs.push(x);
    assert forall|i: int, j: int| 0 <= i < j < r.len() implies r[i] < r[j] by {
        if j == r.len() - 1 {
            if i < bs.len() - 1 {
                assert(bs[i] < bs[bs.len() - 1]);
            }
        } else {
            assert(r[i] == bs[i] && r[j] == bs[j]);
        }
    }
}

proof fn lemma_scan_shape(hs: Seq<u32>, n: int, k: int)
    requires
        0 <= k <= hs.len(),
        n <= usize::MAX,
    ensures
        scan_shape(n, k, scan(hs, n, k).0, scan(hs, n, k).1),
    decreases k,
{
    if k == 0 {
        assert(scan(hs, n, 0).0 == seq![0usize]);
    } else {
        lemma_scan_shape(hs, n, k - 1);
        let bs = scan(hs, n, k - 1).0;
        let c = scan(hs, n, k - 1).1;
        let cut = k - 1 + WINDOW_SIZE;
        if cuts_at(hs[k - 1], c + 1) && cut < n {
            let bs2 = bs.push(cut as usize);
            assert(scan(hs, n, k) == (bs2, 0int));
            assert(c < MAX_CHUNK_SIZE);
            lemma_push_increasing(bs, cut as usize);
            assert forall|j: int| 1 <= j < bs2.len() implies #[trigger] bs2[j] < n by {
                if j < bs.len() {
                    assert(bs2[j] == bs[j]);
                }
            }
            assert forall|j: int| 0 <= j < bs2.len() - 1 implies MIN_CHUNK_SIZE <= #[trigger] chunk_len(bs2, j)
                && (j >= 1 ==> chunk_len(bs2, j) <= MAX_CHUNK_SIZE) by {
                if j < bs.len() - 1 {
                    assert(bs2[j] == bs[j] && bs2[j + 1] == bs[j + 1]);
                    assert(chunk_len(bs2, j) == chunk_len(bs, j));
                } else {
                    assert(bs2[j] == bs.last() && bs2[j + 1] == cut);
                }
            }
        } else {
            assert(scan(hs, n, k) == (bs, c + 1));
        }
    }
}

proof fn lemma_rolling_len(b: Seq<u8>, w: int)
    requires
        w >= 0,
    ensures
        rolling_hashes(b, w).len() == if b.len() < w {
            1
        } else {
            b.len() - w + 1
        },
{
}

/// The boundaries partition the buffer; every chunk but the last is at least
/// the minimum size; the first chunk, which also covers the window before the
/// first hash position, is at most the maximum plus the window less one byte,
/// and every other chunk but the last is at most the maximum.
pub proof fn lemma_boundaries_shape(b: Seq<u8>)
    requires
        b.len() <= usize::MAX,
    ensures
        ({
            let bs = cdc_boundaries(b);
            &&& is_partition(bs, b.len() as int)
            &&& forall|j: int| 0 <= j < bs.len() - 2 ==> #[trigger] chunk_len(bs, j) >= MIN_CHUNK_SIZE
            &&& forall|j: int| 1 <= j < bs.len() - 2 ==> #[trigger] chunk_len(bs, j) <= MAX_CHUNK_SIZE
            &&& bs.len() >= 3 ==> bs[1] <= MAX_CHUNK_SIZE + WINDOW_SIZE - 1
        }),
{
    let hs = rolling_hashes(b, WINDOW_SIZE as int);
    let n = b.len() as int;
    lemma_rolling_len(b, WINDOW_SIZE as int);
    lemma_scan_shape(hs, n, hs.len() as int);
    let bs = scan(hs, n, hs.len() as int).0;
    let r = cdc_boundaries(b);
    if b.len() == 0 {
        assert(scan(hs, n, 0).0 == seq![0usize]);
        assert(!cuts_at(hs[0], 1));
        assert(bs == seq![0usize]);
    } else {
        assert(bs.last() < b.len()) by {
            if bs.len() > 1 {
                assert(bs[bs.len() - 1] < b.len());
            }
        }
        assert(r == bs.push(b.len() as usize));
        lemma_push_increasing(bs, b.len() as usize);
        assert forall|j: int| 0 <= j < r.len() - 2 implies #[trigger] chunk_len(r, j)
            == chunk_len(bs, j) by {
            assert(r[j] == bs[j] && r[j + 1] == bs[j + 1]);
        }
    }
}

/// Every chunk but the last is between the minimum and the maximum size, on
/// the buffers whose first chunk, when it is not the last, is at most the
/// maximum size.
pub proof fn lemma_chunk_sizes(b: Seq<u8>)
    requires
        b.len() <= usize::MAX,
        cdc_boundaries(b).len() <= 2 || cdc_boundaries(b)[1] <= MAX_CHUNK_SIZE,
    ensures
        forall|j: int|
            0 <= j < cdc_boundaries(b).len() - 2 ==> MIN_CHUNK_SIZE <= #[trigger] chunk_len(cdc_boundaries(b), j) <= MAX_CHUNK_SIZE,
{
    lemma_boundaries_shape(b);
}

/// The content-defined chunk boundaries of `buffer`: a strictly increasing
/// sequence from 0 to the buffer's length. An empty buffer has no chunks and
/// gives `None`.
pub fn find_chunk_boundaries(buffer: &[u8]) -> (r: Option<Vec<usize>>)
    ensures
        buffer@.len() == 0 <==> r is None,
        r matches Some(boundaries) ==> boundaries@ == cdc_boundaries(buffer@) && is_partition(
            boundaries@,
            buffer@.len() as int,
        ),
{
    if buffer.len() == 0 {
        return None;
    }
    let hashes = rolling_hash(buffer, WINDOW_SIZE);
    let mut boundaries: Vec<usize> = Vec::new();
    boundaries.push(0);
    let mut current_chunk_size: usize = 0;
    let n: usize = buffer.len();
    let mut i: usize = 0;
    assert(boundaries@ =~= seq![0usize]);
    proof {
        lemma_rolling_len(buffer@, WINDOW_SIZE as int);
    }
    while i < hashes.len()
        invariant
            hashes@ == rolling_hashes(buffer@, WINDOW_SIZE as int),
            n == buffer@.len(),
            hashes@.len() == if buffer@.len() < WINDOW_SIZE {
                1
            } else {
                buffer@.len() - WINDOW_SIZE + 1
            },
            i <= hashes@.len(),
            current_chunk_size <= i,
            boundaries@.len() >= 1,
            scan(hashes@, buffer@.len() as int, i as int) == (boundaries@, current_chunk_size as int),
        decreases hashes@.len() - i,
    {
        let hash = hashes[i];
        current_chunk_size += 1;
        if current_chunk_size >= MIN_CHUNK_SIZE {
            if (hash & MASK) == 0 || current_chunk_size >= MAX_CHUNK_SIZE {
                let boundary = i + WINDOW_SIZE;
                if boundary < n {
                    boundaries.push(boundary);
                    current_chunk_size = 0;
                }
            }
        }
        i += 1;
    }
    if boundaries[boundaries.len() - 1] != buffer.len() {
        boundaries.push(buffer.len());
    }
    proof {
        lemma_boundaries_shape(buffer@);
    }
    Some(boundaries)
}

/// The bytes of the `j`-th chunk of `b` under the boundaries `bs`.
pub open spec fn chunk_of(b: Seq<u8>, bs: Seq<usize>, j: int) -> Seq<u8> {
    b.subrange(bs[j] as int, bs[j + 1] as int)
}

/// `bs` is a non-empty, non-decreasing sequence of offsets within `0..=n`.
pub open spec fn ordered_within(bs: Seq<usize>, n: int) -> bool {
    &&& bs.len() >= 1
    &&& forall|i: int, j: int| 0 <= i <= j < bs.len() ==> bs[i] <= bs[j]
    &&& bs.last() <= n
}

pub proof fn lemma_partition_ordered(bs: Seq<usize>, n: int)
    requires
        is_partition(bs, n),
    ensures
        ordered_within(bs, n),
{
    assert forall|i: int, j: int| 0 <= i <= j < bs.len() implies bs[i] <= bs[j] by {
        if i < j {
            assert(bs[i] < bs[j]);
        }
    }
}

/// The chunks of `buffer` between consecutive `boundaries`.
pub fn get_chunks<'a>(buffer: &'a [u8], boundaries: &[usize]) -> (chunks: Vec<&'a [u8]>)
    requires
        ordered_within(boundaries@, buffer@.len() as int),
    ensures
        chunks@.len() == boundaries@.len() - 1,
        forall|j: int|
            0 <= j < chunks@.len() ==> (#[trigger] chunks@[j])@ == chunk_of(
                buffer@,
                boundaries@,
                j,
            ),
{
    let mut chunks: Vec<&'a [u8]> = Vec::new();
    let mut i: usize = 0;
    while i < boundaries.len() - 1
        invariant
            ordered_within(boundaries@, buffer@.len() as int),
            i + 1 <= boundaries@.len(),
            chunks@.len() == i,
            forall|j: int|
                0 <= j < i ==> (#[trigger] chunks@[j])@ == chunk_of(buffer@, boundaries@, j),
        decreases boundaries@.len() - i,
    {
        let start = boundaries[i];
        let end = boundaries[i + 1];
        assert(end <= boundaries@.last());
        let chunk = vstd::slice::slice_subrange(buffer, start, end);
        chunks.push(chunk);
        i += 1;
    }
    chunks
}

} // verus!
