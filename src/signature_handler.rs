use vstd::prelude::*;

use crate::chunker::{
    cdc_boundaries, chunk_of, find_chunk_boundaries, get_chunks, is_partition,
    lemma_boundaries_shape, lemma_partition_ordered, lemma_push_increasing, strictly_increasing,
};
use crate::digest::{digest_views, hash_leaf, merkle_root, merkle_root_of, sha256_of};
use crate::hexcode::{
    decode_hex, encode_hex, hex_decodable, hex_decoding, hex_encoding, lemma_hex_round_trip,
};

verus! {

/// Why a signature could not be produced or checked.
#[derive(Debug, Clone, Copy, PartialEq, Eq, Structural)]
pub enum SignatureError {
    /// The file holds no bytes.
    EmptyFile,
    /// The stored root is not hexadecimal.
    InvalidSignatureHex,
    /// The stored root does not decode to 32 bytes.
    InvalidSignatureLength,
    /// A stored leaf hash is not hexadecimal.
    InvalidLeafHex,
    /// A stored leaf hash does not decode to 32 bytes.
    InvalidLeafLength,
    /// The stored chunk positions do not start at 0, do not increase
    /// strictly, or do not number one more than the leaves.
    InvalidChunkPositions,
}

/// The stored signature record of one protected file.
pub struct Signature {
    pub file_name: String,
    /// Hex-encoded Merkle root over the leaves.
    pub signature: String,
    /// Hex-encoded digests of the chunks, in order.
    pub leaves: Vec<String>,
    /// Chunk boundaries at enrollment: one more than the leaves.
    pub chunk_positions: Vec<usize>,
}

impl Signature {
    /// The record's invariants: the root and every leaf hash decode to 32
    /// bytes, the root is the Merkle root over the leaves, and the chunk
    /// positions start at 0, increase strictly and number one more than the
    /// leaves.
    pub open spec fn well_formed(&self) -> bool {
        let leaves = strings_view(self.leaves@);
        &&& hex_decodable(self.signature@)
        &&& hex_decoding(self.signature@).len() == 32
        &&& first_leaf_error(leaves) is None
        &&& hex_decoding(self.signature@) == merkle_root_of(
            leaves.map_values(|l: Seq<char>| hex_decoding(l)),
        )
        &&& valid_positions(self.chunk_positions@, self.leaves@.len() as int)
    }
}

/// A catalog entry: the name of an enrolled file.
pub struct Catalog {
    pub file_name: String,
}

/// The signature engine: it enrolls a file's bytes and checks them against a
/// stored record. It holds no state.
pub struct SignatureHandler {}

/// The views of a sequence of strings.
pub open spec fn strings_view(ss: Seq<String>) -> Seq<Seq<char>> {
    ss.map_values(|s: String| s@)
}

/// The views of a sequence of byte vectors.
pub open spec fn bytes_views(vs: Seq<Vec<u8>>) -> Seq<Seq<u8>> {
    vs.map_values(|v: Vec<u8>| v@)
}

pub open spec fn positions_view(p: Option<&[usize]>) -> Option<Seq<usize>> {
    match p {
        Some(s) => Some(s@),
        None => None,
    }
}

/// The digests of the chunks of `b` under the boundaries `bs`.
pub open spec fn chunk_digests(b: Seq<u8>, bs: Seq<usize>) -> Seq<Seq<u8>> {
    Seq::new((bs.len() - 1) as nat, |j: int| sha256_of(chunk_of(b, bs, j)))
}

/// The hex strings of a sequence of digests.
pub open spec fn hex_leaves(ds: Seq<Seq<u8>>) -> Seq<Seq<char>> {
    ds.map_values(|d: Seq<u8>| hex_encoding(d))
}

/// `(root, leaves, boundaries)` is what enrolling the bytes `b` produces:
/// the content-defined boundaries, the hex digest of each chunk, and the hex
/// Merkle root over those digests, each digest and the root 32 bytes long.
pub open spec fn is_enrollment(
    b: Seq<u8>,
    root: Seq<char>,
    leaves: Seq<Seq<char>>,
    boundaries: Seq<usize>,
) -> bool {
    let ds = chunk_digests(b, boundaries);
    &&& boundaries == cdc_boundaries(b)
    &&& leaves == hex_leaves(ds)
    &&& root == hex_encoding(merkle_root_of(ds))
    &&& merkle_root_of(ds).len() == 32
    &&& forall|j: int| 0 <= j < ds.len() ==> (#[trigger] ds[j]).len() == 32
}

/// The error that a stored leaf hash gives, if any.
pub open spec fn leaf_error(s: Seq<char>) -> Option<SignatureError> {
    if !hex_decodable(s) {
        Some(SignatureError::InvalidLeafHex)
    } else if hex_decoding(s).len() != 32 {
        Some(SignatureError::InvalidLeafLength)
    } else {
        None
    }
}

/// The error of the first malformed leaf hash, if any.
pub open spec fn first_leaf_error(ls: Seq<Seq<char>>) -> Option<SignatureError>
    decreases ls.len(),
{
    if ls.len() == 0 {
        None
    } else {
        match first_leaf_error(ls.drop_last()) {
            Some(e) => Some(e),
            None => leaf_error(ls.last()),
        }
    }
}

/// Stored chunk positions that fit a record of `leaf_count` leaves.
pub open spec fn valid_positions(p: Seq<usize>, leaf_count: int) -> bool {
    &&& p.len() >= 2
    &&& p.len() == leaf_count + 1
    &&& p[0] == 0
    &&& strictly_increasing(p)
}

/// The entries of `p` that are below `n`, in order.
pub open spec fn cuts_within(p: Seq<usize>, n: int) -> Seq<usize>
    decreases p.len(),
{
    if p.len() == 0 {
        seq![]
    } else if p.last() < n {
        cuts_within(p.drop_last(), n).push(p.last())
    } else {
        cuts_within(p.drop_last(), n)
    }
}

/// The boundaries under which the current bytes `b` are checked: the stored
/// positions that fall inside `b`, closed by its length; or, with no stored
/// positions, the content-defined boundaries of `b`.
pub open spec fn check_boundaries(b: Seq<u8>, positions: Option<Seq<usize>>) -> Seq<usize> {
    match positions {
        Some(p) => cuts_within(p, b.len() as int).push(b.len() as usize),
        None => cdc_boundaries(b),
    }
}

/// Whether leaf `i` differs between the current and the original digests;
/// a leaf that only one side has differs.
pub open spec fn leaf_differs(cur: Seq<Seq<u8>>, orig: Seq<Seq<u8>>, i: int) -> bool {
    i >= cur.len() || i >= orig.len() || cur[i] != orig[i]
}

/// The indices below `k` of the leaves that differ, in increasing order.
pub open spec fn differing_leaves(cur: Seq<Seq<u8>>, orig: Seq<Seq<u8>>, k: int) -> Seq<usize>
    decreases k,
{
    if k <= 0 {
        seq![]
    } else if leaf_differs(cur, orig, k - 1) {
        differing_leaves(cur, orig, k - 1).push((k - 1) as usize)
    } else {
        differing_leaves(cur, orig, k - 1)
    }
}

pub open spec fn max(a: int, b: int) -> int {
    if a >= b {
        a
    } else {
        b
    }
}

/// The corrupted chunk indices: none when the roots agree; otherwise the
/// leaves that differ, or every original index when no leaf differs.
pub open spec fn corrupted_indices(
    cur_root: Seq<u8>,
    cur: Seq<Seq<u8>>,
    orig_root: Seq<u8>,
    orig: Seq<Seq<u8>>,
) -> Seq<usize> {
    if cur_root == orig_root {
        seq![]
    } else {
        let d = differing_leaves(cur, orig, max(cur.len() as int, orig.len() as int));
        if d.len() == 0 {
            Seq::new(orig.len(), |i: int| i as usize)
        } else {
            d
        }
    }
}

/// What checking the bytes `b` against a stored root, leaves and optional
/// chunk positions gives.
pub open spec fn check_outcome(
    b: Seq<u8>,
    root: Seq<char>,
    leaves: Seq<Seq<char>>,
    positions: Option<Seq<usize>>,
) -> Result<Seq<usize>, SignatureError> {
    if !hex_decodable(root) {
        Err(SignatureError::InvalidSignatureHex)
    } else if hex_decoding(root).len() != 32 {
        Err(SignatureError::InvalidSignatureLength)
    } else if first_leaf_error(leaves) is Some {
        Err(first_leaf_error(leaves)->Some_0)
    } else if b.len() == 0 {
        Err(SignatureError::EmptyFile)
    } else if positions is Some && !valid_positions(positions->Some_0, leaves.len() as int) {
        Err(SignatureError::InvalidChunkPositions)
    } else {
        let cur = chunk_digests(b, check_boundaries(b, positions));
        Ok(
            corrupted_indices(
                merkle_root_of(cur),
                cur,
                hex_decoding(root),
                leaves.map_values(|l: Seq<char>| hex_decoding(l)),
            ),
        )
    }
}

/// Whether two byte slices hold the same bytes.
fn same_bytes(a: &[u8], b: &[u8]) -> (r: bool)
    ensures
        r == (a@ == b@),
{
    if a.len() != b.len() {
        return false;
    }
    let mut i: usize = 0;
    while i < a.len()
        invariant
            a@.len() == b@.len(),
            i <= a@.len(),
            forall|j: int| 0 <= j < i ==> a@[j] == b@[j],
        decreases a@.len() - i,
    {
        if a[i] != b[i] {
            return false;
        }
        i += 1;
    }
    assert(a@ =~= b@);
    true
}

/// The digest of each chunk of `buffer` between consecutive `boundaries`.
fn leaf_hashes(buffer: &[u8], boundaries: &[usize]) -> (leaves: Vec<[u8; 32]>)
    requires
        crate::chunker::ordered_within(boundaries@, buffer@.len() as int),
    ensures
        digest_views(leaves@) == chunk_digests(buffer@, boundaries@),
{
    let chunks = get_chunks(buffer, boundaries);
    let mut leaves: Vec<[u8; 32]> = Vec::new();
    let mut i: usize = 0;
    while i < chunks.len()
        invariant
            chunks@.len() == boundaries@.len() - 1,
            forall|j: int|
                0 <= j < chunks@.len() ==> (#[trigger] chunks@[j])@ == chunk_of(
                    buffer@,
                    boundaries@,
                    j,
                ),
            i <= chunks@.len(),
            leaves@.len() == i,
            forall|j: int| 0 <= j < i ==> (#[trigger] leaves@[j])@ == sha256_of(chunk_of(buffer@, boundaries@, j)),
        decreases chunks@.len() - i,
    {
        let leaf = hash_leaf(chunks[i]);
        leaves.push(leaf);
        i += 1;
    }
    assert(digest_views(leaves@) =~= chunk_digests(buffer@, boundaries@));
    leaves
}

/// The indices `0..count`, in order.
fn all_indices(count: usize) -> (r: Vec<usize>)
    ensures
        r@ == Seq::new(count as nat, |i: int| i as usize),
{
    let mut r: Vec<usize> = Vec::new();
    let mut i: usize = 0;
    while i < count
        invariant
            i <= count,
            r@ == Seq::new(i as nat, |j: int| j as usize),
        decreases count - i,
    {
        r.push(i);
        i += 1;
        assert(r@ =~= Seq::new(i as nat, |j: int| j as usize));
    }
    r
}

/// The chunk indices to report as corrupted, given the current root and
/// leaves and the original ones: none when the roots agree; otherwise every
/// index whose leaf differs or exists on one side only, in increasing order;
/// and every original index when the roots differ but no leaf does.
pub fn locate_corruption(
    current_root: &[u8; 32],
    current_leaves: &[[u8; 32]],
    original_root: &[u8],
    original_leaves: &[Vec<u8>],
) -> (corrupted: Vec<usize>)
    ensures
        corrupted@ == corrupted_indices(
            current_root@,
            digest_views(current_leaves@),
            original_root@,
            bytes_views(original_leaves@),
        ),
{
    if same_bytes(current_root.as_slice(), original_root) {
        return Vec::new();
    }
    let ghost cur = digest_views(current_leaves@);
    let ghost orig = bytes_views(original_leaves@);
    let total: usize = if current_leaves.len() >= original_leaves.len() {
        current_leaves.len()
    } else {
        original_leaves.len()
    };
    let mut corrupted: Vec<usize> = Vec::new();
    let mut i: usize = 0;
    while i < total
        invariant
            cur == digest_views(current_leaves@),
            orig == bytes_views(original_leaves@),
            total == max(cur.len() as int, orig.len() as int),
            i <= total,
            corrupted@ == differing_leaves(cur, orig, i as int),
        decreases total - i,
    {
        let differs = if i >= current_leaves.len() || i >= original_leaves.len() {
            true
        } else {
            !same_bytes(current_leaves[i].as_slice(), original_leaves[i].as_slice())
        };
        if differs {
            corrupted.push(i);
        }
        i += 1;
    }
    if corrupted.len() == 0 {
        corrupted = all_indices(original_leaves.len());
    }
    corrupted
}

proof fn lemma_cuts_within_shape(p: Seq<usize>, n: int)
    requires
        strictly_increasing(p),
    ensures
        strictly_increasing(cuts_within(p, n)),
        forall|j: int| 0 <= j < cuts_within(p, n).len() ==> #[trigger] cuts_within(p, n)[j] < n,
        p.len() >= 1 ==> forall|j: int|
            0 <= j < cuts_within(p, n).len() ==> #[trigger] cuts_within(p, n)[j] <= p.last(),
        p.len() >= 1 && p[0] < n ==> cuts_within(p, n).len() >= 1 && cuts_within(p, n)[0] == p[0],
    decreases p.len(),
{
    if p.len() > 0 {
        let q = p.drop_last();
        assert(strictly_increasing(q));
        lemma_cuts_within_shape(q, n);
        let r = cuts_within(q, n);
        if q.len() >= 1 {
            assert(q.last() < p.last());
        }
        if p.last() < n {
            let r2 = r.push(p.last());
            assert forall|i: int, j: int| 0 <= i < j < r2.len() implies r2[i] < r2[j] by {
                if j == r2.len() - 1 {
                    assert(r2[i] == r[i]);
                    assert(r[i] <= q.last());
                }
            }
            assert forall|j: int| 0 <= j < r2.len() implies #[trigger] r2[j] <= p.last() by {
                if j < r.len() {
                    assert(r2[j] == r[j]);
                    assert(r[j] <= q.last());
                }
            }
        } else {
            assert forall|j: int| 0 <= j < r.len() implies #[trigger] r[j] <= p.last() by {
                assert(r[j] <= q.last());
            }
        }
        if p.len() == 1 {
            assert(q.len() == 0);
        } else {
            assert(q[0] == p[0]);
        }
    }
}

proof fn lemma_cuts_within_all_below(p: Seq<usize>, n: int)
    requires
        forall|j: int| 0 <= j < p.len() ==> #[trigger] p[j] < n,
    ensures
        cuts_within(p, n) == p,
    decreases p.len(),
{
    if p.len() > 0 {
        let q = p.drop_last();
        assert forall|j: int| 0 <= j < q.len() implies #[trigger] q[j] < n by {
            assert(q[j] == p[j]);
        }
        lemma_cuts_within_all_below(q, n);
        assert(q.push(p.last()) =~= p);
    }
}

/// The boundaries checked under stored positions `p`: the entries below `n`,
/// closed by `n`.
fn clip_positions(positions: &[usize], n: usize) -> (r: Vec<usize>)
    ensures
        r@ == cuts_within(positions@, n as int).push(n),
{
    let mut r: Vec<usize> = Vec::new();
    let mut i: usize = 0;
    while i < positions.len()
        invariant
            i <= positions@.len(),
            r@ == cuts_within(positions@.take(i as int), n as int),
        decreases positions@.len() - i,
    {
        assert(positions@.take(i + 1).drop_last() =~= positions@.take(i as int));
        if positions[i] < n {
            r.push(positions[i]);
        }
        i += 1;
    }
    assert(positions@.take(positions@.len() as int) =~= positions@);
    r.push(n);
    r
}

/// Whether stored positions fit a record of `leaf_count` leaves.
fn positions_valid(positions: &[usize], leaf_count: usize) -> (r: bool)
    ensures
        r == valid_positions(positions@, leaf_count as int),
{
    if positions.len() < 2 || positions.len() - 1 != leaf_count || positions[0] != 0 {
        return false;
    }
    let mut i: usize = 1;
    while i < positions.len()
        invariant
            1 <= i <= positions@.len(),
            strictly_increasing(positions@.take(i as int)),
        decreases positions@.len() - i,
    {
        if positions[i - 1] >= positions[i] {
            assert(!strictly_increasing(positions@)) by {
                assert(positions@[i - 1] >= positions@[i as int]);
            }
            return false;
        }
        proof {
            let t = positions@.take(i as int);
            let t2 = positions@.take(i + 1);
            assert forall|a: int, b: int| 0 <= a < b < t2.len() implies t2[a] < t2[b] by {
                if b == i {
                    if a < i - 1 {
                        assert(t[a] < t[i - 1]);
                    }
                } else {
                    assert(t[a] < t[b]);
                }
            }
        }
        i += 1;
    }
    assert(positions@.take(positions@.len() as int) =~= positions@);
    true
}

proof fn lemma_first_leaf_error_extends(ls: Seq<Seq<char>>, i: int, k: int)
    requires
        0 <= i < k <= ls.len(),
        first_leaf_error(ls.take(i + 1)) is Some,
    ensures
        first_leaf_error(ls.take(k)) == first_leaf_error(ls.take(i + 1)),
    decreases k,
{
    if k > i + 1 {
        lemma_first_leaf_error_extends(ls, i, k - 1);
        assert(ls.take(k).drop_last() =~= ls.take(k - 1));
    }
}

proof fn lemma_no_leaf_error(ls: Seq<Seq<char>>)
    requires
        forall|j: int| 0 <= j < ls.len() ==> leaf_error(#[trigger] ls[j]) is None,
    ensures
        first_leaf_error(ls) is None,
    decreases ls.len(),
{
    if ls.len() > 0 {
        let q = ls.drop_last();
        assert forall|j: int| 0 <= j < q.len() implies leaf_error(#[trigger] q[j]) is None by {
            assert(q[j] == ls[j]);
        }
        lemma_no_leaf_error(q);
        assert(leaf_error(ls[ls.len() - 1]) is None);
    }
}

/// Stored positions that are valid give boundaries that partition a
/// non-empty buffer of `n` bytes.
proof fn lemma_clipped_partition(p: Seq<usize>, n: int)
    requires
        valid_positions(p, p.len() - 1),
        0 < n <= usize::MAX,
    ensures
        is_partition(cuts_within(p, n).push(n as usize), n),
{
    lemma_cuts_within_shape(p, n);
    let c = cuts_within(p, n);
    lemma_push_increasing(c, n as usize);
}

/// Stored positions that end at the buffer's length are checked as they are.
proof fn lemma_positions_kept(p: Seq<usize>, n: int)
    requires
        is_partition(p, n),
    ensures
        cuts_within(p, n).push(n as usize) == p,
{
    let q = p.drop_last();
    assert forall|j: int| 0 <= j < q.len() implies #[trigger] q[j] < n by {
        assert(p[j] < p[p.len() - 1]);
    }
    lemma_cuts_within_all_below(q, n);
    assert(q.push(p.last()) =~= p);
}

/// A record that enrolling `b` produced meets the record invariants: its
/// root and leaves decode to the digests it was built from, and its
/// boundaries partition `b`, one more than the leaves.
pub proof fn lemma_enrollment_well_formed(
    b: Seq<u8>,
    root: Seq<char>,
    leaves: Seq<Seq<char>>,
    boundaries: Seq<usize>,
)
    requires
        0 < b.len() <= usize::MAX,
        is_enrollment(b, root, leaves, boundaries),
    ensures
        hex_decodable(root),
        hex_decoding(root) == merkle_root_of(chunk_digests(b, boundaries)),
        hex_decoding(root).len() == 32,
        leaves.map_values(|l: Seq<char>| hex_decoding(l)) == chunk_digests(b, boundaries),
        first_leaf_error(leaves) is None,
        valid_positions(boundaries, leaves.len() as int),
        is_partition(boundaries, b.len() as int),
{
    let ds = chunk_digests(b, boundaries);
    lemma_hex_round_trip(merkle_root_of(ds));
    assert forall|j: int| 0 <= j < leaves.len() implies leaf_error(#[trigger] leaves[j]) is None
        && hex_decoding(leaves[j]) == ds[j] by {
        lemma_hex_round_trip(ds[j]);
        assert(leaves[j] == hex_encoding(ds[j]));
    }
    lemma_no_leaf_error(leaves);
    assert(leaves.map_values(|l: Seq<char>| hex_decoding(l)) =~= ds);
    lemma_boundaries_shape(b);
}

/// Checking the bytes that were enrolled against the record that enrolling
/// them produced reports no corrupted chunk.
pub proof fn lemma_enroll_then_check(
    b: Seq<u8>,
    root: Seq<char>,
    leaves: Seq<Seq<char>>,
    boundaries: Seq<usize>,
)
    requires
        0 < b.len() <= usize::MAX,
        is_enrollment(b, root, leaves, boundaries),
    ensures
        check_outcome(b, root, leaves, Some(boundaries)) == Ok::<Seq<usize>, SignatureError>(
            seq![],
        ),
{
    lemma_enrollment_well_formed(b, root, leaves, boundaries);
    lemma_positions_kept(boundaries, b.len() as int);
}

/// Nothing can be enrolled or checked in an empty file.
pub proof fn lemma_empty_file_rejected(
    root: Seq<char>,
    leaves: Seq<Seq<char>>,
    positions: Option<Seq<usize>>,
)
    ensures
        check_outcome(seq![], root, leaves, positions) is Err,
{
}

proof fn lemma_differing_contains(cur: Seq<Seq<u8>>, orig: Seq<Seq<u8>>, k: int, i: int)
    requires
        0 <= i < k,
        leaf_differs(cur, orig, i),
    ensures
        differing_leaves(cur, orig, k).contains(i as usize),
    decreases k,
{
    let d = differing_leaves(cur, orig, k);
    if i == k - 1 {
        assert(d.last() == i as usize);
    } else {
        lemma_differing_contains(cur, orig, k - 1, i);
        let d0 = differing_leaves(cur, orig, k - 1);
        let x = choose|x: int| 0 <= x < d0.len() && d0[x] == i as usize;
        if leaf_differs(cur, orig, k - 1) {
            assert(d[x] == d0[x]);
        }
    }
}

proof fn lemma_differing_empty(cur: Seq<Seq<u8>>, orig: Seq<Seq<u8>>, k: int)
    requires
        forall|i: int| 0 <= i < k ==> !leaf_differs(cur, orig, i),
    ensures
        differing_leaves(cur, orig, k).len() == 0,
    decreases k,
{
    if k > 0 {
        lemma_differing_empty(cur, orig, k - 1);
    }
}

/// The index of the range of a strictly increasing sequence that holds `k`.
proof fn lemma_locate(s: Seq<usize>, k: int) -> (j: int)
    requires
        s.len() >= 2,
        strictly_increasing(s),
        s[0] <= k < s.last(),
    ensures
        0 <= j < s.len() - 1,
        s[j] <= k < s[j + 1],
    decreases s.len(),
{
    let m = s.len() - 2;
    if s[m] <= k {
        m
    } else {
        let q = s.drop_last();
        assert(strictly_increasing(q));
        lemma_locate(q, k)
    }
}

/// When flipping the byte at `k` of enrolled bytes changes the recomputed
/// Merkle root, checking the changed bytes against the record reports a
/// non-empty set of chunks that holds the chunk whose range contains `k`.
pub proof fn lemma_flipped_byte_located(
    b: Seq<u8>,
    root: Seq<char>,
    leaves: Seq<Seq<char>>,
    boundaries: Seq<usize>,
    k: int,
    x: u8,
)
    requires
        0 < b.len() <= usize::MAX,
        is_enrollment(b, root, leaves, boundaries),
        0 <= k < b.len(),
        x != b[k],
        merkle_root_of(chunk_digests(b.update(k, x), boundaries)) != merkle_root_of(
            chunk_digests(b, boundaries),
        ),
    ensures
        check_outcome(b.update(k, x), root, leaves, Some(boundaries)) matches Ok(c) && c.len() > 0
            && forall|j: int|
            0 <= j < boundaries.len() - 1 && #[trigger] boundaries[j] <= k < boundaries[j + 1]
                ==> c.contains(j as usize),
{
    let b2 = b.update(k, x);
    lemma_enrollment_well_formed(b, root, leaves, boundaries);
    lemma_positions_kept(boundaries, b.len() as int);
    let cur = chunk_digests(b2, boundaries);
    let orig = leaves.map_values(|l: Seq<char>| hex_decoding(l));
    let ds = chunk_digests(b, boundaries);
    assert forall|j: int| 0 <= j < leaves.len() implies #[trigger] orig[j] == ds[j] by {
        lemma_hex_round_trip(ds[j]);
    }
    let total = max(cur.len() as int, orig.len() as int);
    let d = differing_leaves(cur, orig, total);
    let c = corrupted_indices(merkle_root_of(cur), cur, hex_decoding(root), orig);
    let j0 = lemma_locate(boundaries, k);
    assert(cur.len() == orig.len());
    assert forall|j: int|
        0 <= j < boundaries.len() - 1 && #[trigger] boundaries[j] <= k < boundaries[j + 1] implies c.contains(
        j as usize,
    ) by {
        if cur[j] != orig[j] {
            lemma_differing_contains(cur, orig, total, j);
            if d.len() == 0 {
                assert(false);
            }
        } else {
            assert forall|i: int| 0 <= i < total implies !leaf_differs(cur, orig, i) by {
                if i < j {
                    assert(boundaries[i + 1] <= boundaries[j]);
                    assert(chunk_of(b2, boundaries, i) =~= chunk_of(b, boundaries, i));
                } else if i > j {
                    assert(boundaries[j + 1] <= boundaries[i]);
                    assert(chunk_of(b2, boundaries, i) =~= chunk_of(b, boundaries, i));
                }
            }
            lemma_differing_empty(cur, orig, total);
            assert(c[j] == j as usize);
        }
    }
    assert(c.contains(j0 as usize));
}

/// When bytes are appended to enrolled bytes and the Merkle root over the
/// chunks of the longer bytes, cut at the stored positions and closed by the
/// new length, differs from the stored root, checking the longer bytes
/// against the record reports every chunk index from the stored leaf count
/// on.
pub proof fn lemma_appended_bytes_located(
    b: Seq<u8>,
    root: Seq<char>,
    leaves: Seq<Seq<char>>,
    boundaries: Seq<usize>,
    extra: Seq<u8>,
)
    requires
        0 < b.len(),
        b.len() + extra.len() <= usize::MAX,
        extra.len() > 0,
        is_enrollment(b, root, leaves, boundaries),
        merkle_root_of(chunk_digests(b + extra, check_boundaries(b + extra, Some(boundaries))))
            != merkle_root_of(chunk_digests(b, boundaries)),
    ensures
        check_outcome(b + extra, root, leaves, Some(boundaries)) matches Ok(c) && c.len() > 0
            && forall|i: int|
            leaves.len() <= i < chunk_digests(b + extra, check_boundaries(b + extra, Some(boundaries))).len()
                ==> c.contains(#[trigger] (i as usize)),
{
    let b2 = b + extra;
    let n2 = b2.len() as int;
    lemma_enrollment_well_formed(b, root, leaves, boundaries);
    assert forall|j: int| 0 <= j < boundaries.len() implies #[trigger] boundaries[j] < n2 by {
        assert(boundaries[j] <= boundaries.last());
    }
    lemma_cuts_within_all_below(boundaries, n2);
    let bs2 = check_boundaries(b2, Some(boundaries));
    assert(bs2 == boundaries.push(n2 as usize));
    let cur = chunk_digests(b2, bs2);
    let orig = leaves.map_values(|l: Seq<char>| hex_decoding(l));
    let total = max(cur.len() as int, orig.len() as int);
    assert(cur.len() == leaves.len() + 1);
    let c = corrupted_indices(merkle_root_of(cur), cur, hex_decoding(root), orig);
    let d = differing_leaves(cur, orig, total);
    assert forall|i: int| leaves.len() <= i < cur.len() implies c.contains(#[trigger] (i as usize)) by {
        lemma_differing_contains(cur, orig, total, i);
    }
    lemma_differing_contains(cur, orig, total, leaves.len() as int);
    assert(d.len() > 0);
}

impl SignatureHandler {
    /// Enrolls the bytes of a file: its content-defined boundaries, the hex
    /// digest of each chunk, and the hex Merkle root over those digests. An
    /// empty buffer cannot be enrolled.
    pub fn generate_signature_with_leaves(buffer: &[u8]) -> (r: Result<
        (String, Vec<String>, Vec<usize>),
        SignatureError,
    >)
        ensures
            buffer@.len() == 0 ==> (r matches Err(e) && e == SignatureError::EmptyFile),
            buffer@.len() > 0 ==> (r matches Ok((root, leaves, boundaries)) && is_enrollment(
                buffer@,
                root@,
                strings_view(leaves@),
                boundaries@,
            )),
    {
        if buffer.len() == 0 {
            return Err(SignatureError::EmptyFile);
        }
        let boundaries = match find_chunk_boundaries(buffer) {
            Some(boundaries) => boundaries,
            None => {
                return Err(SignatureError::EmptyFile);
            },
        };
        proof {
            lemma_partition_ordered(boundaries@, buffer@.len() as int);
        }
        let leaves = leaf_hashes(buffer, boundaries.as_slice());
        assert(boundaries@.len() >= 2);
        assert(leaves@.len() == digest_views(leaves@).len());
        let root = match merkle_root(leaves.as_slice()) {
            Some(root) => root,
            None => {
                return Err(SignatureError::EmptyFile);
            },
        };
        let ghost ds = chunk_digests(buffer@, boundaries@);
        let mut leaf_strings: Vec<String> = Vec::new();
        let mut i: usize = 0;
        while i < leaves.len()
            invariant
                digest_views(leaves@) == ds,
                i <= leaves@.len(),
                leaf_strings@.len() == i,
                forall|j: int|
                    0 <= j < i ==> (#[trigger] leaf_strings@[j])@ == hex_encoding(ds[j]),
            decreases leaves@.len() - i,
        {
            let s = encode_hex(leaves[i].as_slice());
            leaf_strings.push(s);
            i += 1;
        }
        let root_hex = encode_hex(root.as_slice());
        proof {
            assert(strings_view(leaf_strings@) =~= hex_leaves(ds));
            assert forall|j: int| 0 <= j < ds.len() implies (#[trigger] ds[j]).len() == 32 by {
                assert(ds[j] == leaves@[j]@);
            }
        }
        Ok((root_hex, leaf_strings, boundaries))
    }

    /// The hex Merkle root of the bytes of a file under their content-defined
    /// boundaries; the empty string for an empty buffer.
    pub fn generate_signature(buffer: &[u8]) -> (r: String)
        ensures
            buffer@.len() == 0 ==> r@.len() == 0,
            buffer@.len() > 0 ==> r@ == hex_encoding(
                merkle_root_of(chunk_digests(buffer@, cdc_boundaries(buffer@))),
            ),
    {
        match Self::generate_signature_with_leaves(buffer) {
            Ok((root, _, _)) => root,
            Err(_) => String::new(),
        }
    }

    /// Checks the bytes of a file against its stored root, leaf hashes and,
    /// if given, chunk positions. Malformed stored values and an empty buffer
    /// are errors. Otherwise the bytes are cut at the stored positions that
    /// fall inside them (or at their own content-defined boundaries when no
    /// positions are given), and the result lists the corrupted chunk indices:
    /// empty when the recomputed root equals the stored one.
    pub fn check_broken_chunks(
        buffer: &[u8],
        original_signature: &str,
        original_leaves_hex: &[String],
        chunk_positions: Option<&[usize]>,
    ) -> (r: Result<Vec<usize>, SignatureError>)
        ensures
            ({
                let outcome = check_outcome(
                    buffer@,
                    original_signature@,
                    strings_view(original_leaves_hex@),
                    positions_view(chunk_positions),
                );
                match r {
                    Ok(v) => outcome == Ok::<Seq<usize>, SignatureError>(v@),
                    Err(e) => outcome == Err::<Seq<usize>, SignatureError>(e),
                }
            }),
    {
        let ghost ls = strings_view(original_leaves_hex@);
        let original_root = match decode_hex(original_signature) {
            Ok(bytes) => {
                if bytes.len() != 32 {
                    return Err(SignatureError::InvalidSignatureLength);
                }
                bytes
            },
            Err(_) => {
                return Err(SignatureError::InvalidSignatureHex);
            },
        };
        let mut original_leaves: Vec<Vec<u8>> = Vec::new();
        let mut i: usize = 0;
        while i < original_leaves_hex.len()
            invariant
                ls == strings_view(original_leaves_hex@),
                hex_decodable(original_signature@),
                original_root@ == hex_decoding(original_signature@),
                original_root@.len() == 32,
                i <= ls.len(),
                original_leaves@.len() == i,
                first_leaf_error(ls.take(i as int)) is None,
                bytes_views(original_leaves@) == ls.take(i as int).map_values(
                    |l: Seq<char>| hex_decoding(l),
                ),
            decreases ls.len() - i,
        {
            assert(ls.take(i + 1).drop_last() =~= ls.take(i as int));
            assert(first_leaf_error(ls.take(i + 1)) == leaf_error(ls[i as int]));
            assert(ls[i as int] == original_leaves_hex@[i as int]@);
            let ghost before = original_leaves@;
            match decode_hex(original_leaves_hex[i].as_str()) {
                Ok(bytes) => {
                    if bytes.len() != 32 {
                        proof {
                            lemma_first_leaf_error_extends(ls, i as int, ls.len() as int);
                            assert(ls.take(ls.len() as int) =~= ls);
                        }
                        return Err(SignatureError::InvalidLeafLength);
                    }
                    original_leaves.push(bytes);
                    assert(original_leaves@ == before.push(bytes));
                },
                Err(_) => {
                    proof {
                        lemma_first_leaf_error_extends(ls, i as int, ls.len() as int);
                        assert(ls.take(ls.len() as int) =~= ls);
                    }
                    return Err(SignatureError::InvalidLeafHex);
                },
            }
            assert forall|j: int| 0 <= j <= i implies (#[trigger] original_leaves@[j])@ == hex_decoding(
                ls[j],
            ) by {
                if j < i {
                    assert(original_leaves@[j] == before[j]);
                    assert(bytes_views(before)[j] == ls.take(i as int).map_values(
                        |l: Seq<char>| hex_decoding(l),
                    )[j]);
                }
            }
            assert(bytes_views(original_leaves@) =~= ls.take(i + 1).map_values(
                |l: Seq<char>| hex_decoding(l),
            ));
            i += 1;
        }
        assert(ls.take(ls.len() as int) =~= ls);
        if buffer.len() == 0 {
            return Err(SignatureError::EmptyFile);
        }
        let boundaries: Vec<usize> = match chunk_positions {
            Some(positions) => {
                if !positions_valid(positions, original_leaves_hex.len()) {
                    return Err(SignatureError::InvalidChunkPositions);
                }
                proof {
                    lemma_clipped_partition(positions@, buffer@.len() as int);
                }
                clip_positions(positions, buffer.len())
            },
            None => match find_chunk_boundaries(buffer) {
                Some(boundaries) => boundaries,
                None => {
                    return Err(SignatureError::EmptyFile);
                },
            },
        };
        assert(boundaries@ == check_boundaries(buffer@, positions_view(chunk_positions)));
        proof {
            lemma_partition_ordered(boundaries@, buffer@.len() as int);
        }
        let current = leaf_hashes(buffer, boundaries.as_slice());
        let current_root = match merkle_root(current.as_slice()) {
            Some(root) => root,
            None => {
                return Err(SignatureError::EmptyFile);
            },
        };
        Ok(
            locate_corruption(
                &current_root,
                current.as_slice(),
                original_root.as_slice(),
                original_leaves.as_slice(),
            ),
        )
    }
}

} // verus!
