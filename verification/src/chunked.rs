//! A deduplicating arena of variable-length chunks inside one fixed-size GPU
//! buffer.
//!
//! Free space is a list of index ranges; live chunks are kept in a map from
//! the hash of their contents to their place and their number of live
//! handles, and a copy of the records written to the buffer confirms that a
//! chunk found by hash holds the data asked for.  Requesting data that is
//! already stored hands out the stored chunk again; otherwise the first free range that is long enough gives up
//! its front.  When the last handle of a chunk is released its range goes
//! back to the free list, merged with the free ranges it touches.
use std::hash::{BuildHasher, Hash, Hasher};
use std::marker::PhantomData;

use ahash::RandomState;
use mutual::DashMap;
use vstd::prelude::*;

verus! {

/// Data that can be stored in a `ChunkedBuffer`: plain records with a default
/// state, a hash by which equal chunks are looked up, and a comparison by
/// which a stored chunk is confirmed to hold the data asked for.
pub trait ChunkedBufferContent: Copy + Default + Hash {
    /// `self` and `other` are the same record.
    fn same_contents(&self, other: &Self) -> (r: bool)
        ensures
            r == (*self == *other),
    ;
}

#[verifier::external_type_specification]
#[verifier::external_body]
#[verifier::reject_recursive_types(K)]
#[verifier::reject_recursive_types(V)]
#[verifier::reject_recursive_types(S)]
pub struct ExDashMap<K, V, S>(DashMap<K, V, S>);

/// What the reserved-chunk map holds: for each content hash, the chunk's
/// start index, its length and its number of live handles.
pub uninterp spec fn reserved_entries(map: DashMap<u128, (u32, u32, usize)>) -> Map<u128, (u32, u32, usize)>;

/// `DashMap::default`: a map with no entries.
#[verifier::external_body]
fn reserved_new() -> (r: DashMap<u128, (u32, u32, usize)>)
    ensures
        reserved_entries(r).dom().is_empty(),
{
    DashMap::default()
}

/// `DashMap::get`: the value stored under `key`, copied out, or `None`.
#[verifier::external_body]
fn reserved_get(map: &DashMap<u128, (u32, u32, usize)>, key: u128) -> (r: Option<(u32, u32, usize)>)
    ensures
        r == (if reserved_entries(*map).contains_key(key) {
            Some(reserved_entries(*map)[key])
        } else {
            None
        }),
{
    match map.get(&key) {
        Some(entry) => Some(*entry),
        None => None,
    }
}

/// `DashMap::insert`: stores `value` under `key`, handing back the value it replaced.
#[verifier::external_body]
fn reserved_insert(map: &mut DashMap<u128, (u32, u32, usize)>, key: u128, value: (u32, u32, usize)) -> (prev: Option<(u32, u32, usize)>)
    ensures
        reserved_entries(*final(map)) == reserved_entries(*old(map)).insert(key, value),
        prev == (if reserved_entries(*old(map)).contains_key(key) {
            Some(reserved_entries(*old(map))[key])
        } else {
            None
        }),
{
    map.insert(key, value)
}

/// `DashMap::remove`: takes the entry under `key` out of the map.
#[verifier::external_body]
fn reserved_remove(map: &mut DashMap<u128, (u32, u32, usize)>, key: u128) -> (r: Option<(u128, (u32, u32, usize))>)
    ensures
        reserved_entries(*final(map)) == reserved_entries(*old(map)).remove(key),
        r == (if reserved_entries(*old(map)).contains_key(key) {
            Some((key, reserved_entries(*old(map))[key]))
        } else {
            None
        }),
{
    map.remove(&key)
}

/// One 64-bit aHash of `data`, from `RandomState::with_seed(seed)`.  aHash
/// draws its fixed keys from the operating system once per process, so
/// nothing is stated of the result.
#[verifier::external_body]
fn seeded_hash<T: Hash>(seed: u64, data: &[T]) -> u64 {
    let mut hasher = RandomState::with_seed(seed as usize).build_hasher();
    data.hash(&mut hasher);
    hasher.finish()
}

/// The 128-bit content hash by which equal chunks are found again: two
/// differently seeded 64-bit hashes side by side.  Both halves come from aHash
/// keys drawn once per process, so nothing is stated of the result; callers
/// take it as an unknown hash (see `ChunkedBuffer::get`).
fn hash128<T: ChunkedBufferContent>(data: &[T]) -> u128 {
    let high = seeded_hash(0x243F6A8885A308D3u64, data);
    let low = seeded_hash(0xA4093822299F31D0u64, data);
    assert((high as u128) * 0x1_0000_0000_0000_0000u128 + (low as u128) <= u128::MAX) by (nonlinear_arith)
        requires
            high <= u64::MAX,
            low <= u64::MAX,
    ;
    (high as u128) * 0x1_0000_0000_0000_0000u128 + (low as u128)
}

/// Why a chunk could not be placed.
#[derive(Debug, Clone, Copy, PartialEq, Eq)]
pub enum ChunkedBufferError {
    /// No free range is long enough for a chunk of `size` elements.
    Full { size: u32 },
}

/// Place and identity of a chunk inside a `ChunkedBuffer`.
#[derive(Debug, Clone, Copy, PartialEq, Eq)]
pub struct ChunkHandleInner {
    pub start_idx: u32,
    pub size: u32,
    pub hash: u128,
}

impl ChunkHandleInner {
    /// Index of the chunk's first element in the buffer.
    pub fn start_idx(&self) -> (r: u32)
        ensures
            r == self.start_idx,
    {
        self.start_idx
    }

    /// Number of elements in the chunk.
    pub fn size(&self) -> (r: u32)
        ensures
            r == self.size,
    {
        self.size
    }

    /// Hash of the chunk's contents.
    pub fn hash(&self) -> (r: u128)
        ensures
            r == self.hash,
    {
        self.hash
    }
}

/// Handle to a chunk inside a `ChunkedBuffer<T>`.  Every handle counts as one
/// use of the chunk; give it back with `ChunkedBuffer::release`.
pub struct ChunkHandle<T> {
    inner: ChunkHandleInner,
    _phantom: PhantomData<T>,
}

impl<T> View for ChunkHandle<T> {
    type V = ChunkHandleInner;

    closed spec fn view(&self) -> ChunkHandleInner {
        self.inner
    }
}

impl<T> ChunkHandle<T> {
    /// The chunk's place and identity.
    pub fn inner(&self) -> (r: &ChunkHandleInner)
        ensures
            *r == self@,
    {
        &self.inner
    }

    /// Index of the chunk's first element in the buffer.
    pub fn start_idx(&self) -> (r: u32)
        ensures
            r == self@.start_idx,
    {
        self.inner.start_idx
    }

    /// Number of elements in the chunk.
    pub fn size(&self) -> (r: u32)
        ensures
            r == self@.size,
    {
        self.inner.size
    }

    /// Hash of the chunk's contents.
    pub fn hash(&self) -> (r: u128)
        ensures
            r == self@.hash,
    {
        self.inner.hash
    }
}

/// `value` is a value that `T::default()` returns.
pub open spec fn is_default<T: Default>(value: T) -> bool {
    call_ensures(T::default, (), value)
}

/// Data that has to be written to the GPU buffer at `start_idx`.
pub struct PendingWrite<T> {
    pub start_idx: u32,
    pub data: Vec<T>,
}

/// A buffer of `max_size` elements, handed out in deduplicated chunks.
pub struct ChunkedBuffer<T> {
    max_size: u32,
    unreserved: Vec<(u32, u32)>,
    reserved: DashMap<u128, (u32, u32, usize)>,
    pending: Vec<PendingWrite<T>>,
    contents: Vec<T>,
}

/// `s` with the items from index `start` on replaced by `d`.
pub open spec fn overwrite<T>(s: Seq<T>, start: int, d: Seq<T>) -> Seq<T> {
    Seq::new(s.len(), |i: int| if start <= i < start + d.len() { d[i - start] } else { s[i] })
}

/// The items of `s` in the chunk `(start, size)`.
pub open spec fn chunk_items<T>(s: Seq<T>, start: u32, size: u32) -> Seq<T> {
    s.subrange(start as int, start + size)
}

// ---------------------------------------------------------------------------
// The model: free ranges and live chunks partition `[0, max_size)`.
// ---------------------------------------------------------------------------

/// Index `i` lies in the half-open range `[s, e)`.
pub open spec fn in_range(i: int, s: int, e: int) -> bool {
    s <= i < e
}

/// The half-open ranges `[a0, a1)` and `[b0, b1)` share no index.
pub open spec fn ranges_disjoint(a0: int, a1: int, b0: int, b1: int) -> bool {
    a1 <= a0 || b1 <= b0 || a1 <= b0 || b1 <= a0
}

/// Index `i` lies in one of the free ranges.
pub open spec fn free_contains(free: Seq<(u32, u32)>, i: int) -> bool {
    exists|k: int| 0 <= k < free.len() && #[trigger] in_range(i, free[k].0 as int, free[k].1 as int)
}

/// Index `i` lies in one of the live chunks.
pub open spec fn chunks_contain(chunks: Map<u128, (u32, u32, usize)>, i: int) -> bool {
    exists|h: u128|
        chunks.contains_key(h) && #[trigger] in_range(i, chunks[h].0 as int, chunks[h].0 + chunks[h].1)
}

/// Every free range is well ordered and inside the buffer.
pub open spec fn free_ranges_bounded(free: Seq<(u32, u32)>, max: u32) -> bool {
    forall|k: int| 0 <= k < free.len() ==> #[trigger] free[k].0 <= free[k].1 <= max
}

/// No two free ranges share an index.
pub open spec fn free_ranges_disjoint(free: Seq<(u32, u32)>) -> bool {
    forall|j: int, k: int|
        0 <= j < free.len() && 0 <= k < free.len() && j != k ==> ranges_disjoint(
            #[trigger] free[j].0 as int,
            free[j].1 as int,
            #[trigger] free[k].0 as int,
            free[k].1 as int,
        )
}

/// Every live chunk lies inside the buffer and has at least one handle.
pub open spec fn chunks_bounded(chunks: Map<u128, (u32, u32, usize)>, max: u32) -> bool {
    forall|h: u128| #[trigger] chunks.contains_key(h) ==> chunks[h].0 + chunks[h].1 <= max && chunks[h].2 >= 1
}

/// No two live chunks share an index.
pub open spec fn chunks_disjoint(chunks: Map<u128, (u32, u32, usize)>) -> bool {
    forall|g: u128, h: u128|
        #[trigger] chunks.contains_key(g) && #[trigger] chunks.contains_key(h) && g != h ==> ranges_disjoint(
            chunks[g].0 as int,
            chunks[g].0 + chunks[g].1,
            chunks[h].0 as int,
            chunks[h].0 + chunks[h].1,
        )
}

/// No free range shares an index with a live chunk.
pub open spec fn free_chunks_disjoint(free: Seq<(u32, u32)>, chunks: Map<u128, (u32, u32, usize)>) -> bool {
    forall|k: int, h: u128|
        0 <= k < free.len() && #[trigger] chunks.contains_key(h) ==> ranges_disjoint(
            #[trigger] free[k].0 as int,
            free[k].1 as int,
            chunks[h].0 as int,
            chunks[h].0 + chunks[h].1,
        )
}

/// Every index of the buffer is free or in a live chunk.
pub open spec fn covered(free: Seq<(u32, u32)>, chunks: Map<u128, (u32, u32, usize)>, max: u32) -> bool {
    forall|i: int| 0 <= i < max ==> #[trigger] free_contains(free, i) || #[trigger] chunks_contain(chunks, i)
}

/// The free ranges and the live chunks partition `[0, max)`.
pub open spec fn partitioned(free: Seq<(u32, u32)>, chunks: Map<u128, (u32, u32, usize)>, max: u32) -> bool {
    &&& free_ranges_bounded(free, max)
    &&& free_ranges_disjoint(free)
    &&& chunks_bounded(chunks, max)
    &&& chunks_disjoint(chunks)
    &&& free_chunks_disjoint(free, chunks)
    &&& covered(free, chunks, max)
}

/// The key tried `t` steps after `hash`, wrapping round past `u128::MAX`.
pub open spec fn probe_key(hash: u128, t: int) -> u128 {
    if hash + t <= u128::MAX { (hash + t) as u128 } else { (hash + t - 0x1_0000_0000_0000_0000_0000_0000_0000_0000int) as u128 }
}

/// Free range `k` can hold `n` elements.
pub open spec fn fits(free: Seq<(u32, u32)>, k: int, n: int) -> bool {
    free[k].1 - free[k].0 >= n
}

/// Free range `k` is the first one that can hold `n` elements.
pub open spec fn is_first_fit(free: Seq<(u32, u32)>, n: int, k: int) -> bool {
    &&& 0 <= k < free.len()
    &&& fits(free, k, n)
    &&& forall|j: int| 0 <= j < k ==> !#[trigger] fits(free, j, n)
}

/// Some free range can hold `n` elements.
pub open spec fn has_fit(free: Seq<(u32, u32)>, n: int) -> bool {
    exists|k: int| 0 <= k < free.len() && #[trigger] fits(free, k, n)
}

/// The free list after the front `n` elements of range `k` are taken: the
/// range shrinks, or goes when nothing of it is left.
pub open spec fn take_front(free: Seq<(u32, u32)>, k: int, n: int) -> Seq<(u32, u32)> {
    if free[k].1 - free[k].0 == n {
        free.remove(k)
    } else {
        free.update(k, ((free[k].0 + n) as u32, free[k].1))
    }
}


/// `p` is where a range starting at `s` goes back into the free list: every
/// range before `p` starts below `s`, and the range at `p`, if any, does not.
pub open spec fn is_seek(free: Seq<(u32, u32)>, s: int, p: int) -> bool {
    &&& 0 <= p <= free.len()
    &&& forall|j: int| 0 <= j < p ==> (#[trigger] free[j]).0 < s
    &&& p < free.len() ==> free[p].0 >= s
}

/// The free list after the range `[s, e)` is given back: it extends the range
/// before its place if that one ends at `s`, the range at its place if that
/// one starts at `e` (both, fusing them, when both touch), and is inserted
/// at its place when it touches neither.
pub open spec fn freed_ranges(free: Seq<(u32, u32)>, s: u32, e: u32) -> Seq<(u32, u32)> {
    let p = choose|p: int| is_seek(free, s as int, p);
    let left = p > 0 && free[p - 1].1 == s;
    let right = p < free.len() && free[p].0 == e;
    if left && right {
        free.update(p - 1, (free[p - 1].0, free[p].1)).remove(p)
    } else if left {
        free.update(p - 1, (free[p - 1].0, e))
    } else if right {
        free.update(p, (s, free[p].1))
    } else {
        free.insert(p, (s, e))
    }
}

// ---------------------------------------------------------------------------
// Lemmas on the model.
// ---------------------------------------------------------------------------

/// Two integer ranges that share no index are disjoint.
proof fn lemma_disjoint_pointwise(a0: int, a1: int, b0: int, b1: int)
    requires
        forall|i: int| !(#[trigger] in_range(i, a0, a1) && in_range(i, b0, b1)),
    ensures
        ranges_disjoint(a0, a1, b0, b1),
{
    if !ranges_disjoint(a0, a1, b0, b1) {
        let i = if a0 < b0 { b0 } else { a0 };
        assert(in_range(i, a0, a1) && in_range(i, b0, b1));
    }
}

/// Writing `d` at `s` leaves every range that it does not reach as it was,
/// and the range it covers holds `d`.
proof fn lemma_overwrite_items<T>(c: Seq<T>, s: int, d: Seq<T>, a: int, b: int)
    requires
        0 <= s,
        s + d.len() <= c.len(),
        0 <= a <= b <= c.len(),
    ensures
        overwrite(c, s, d).subrange(s, s + d.len()) == d,
        b <= s || s + d.len() <= a || a == b || d.len() == 0 ==> overwrite(c, s, d).subrange(a, b) == c.subrange(a, b),
{
    assert(overwrite(c, s, d).subrange(s, s + d.len()) =~= d);
    if b <= s || s + d.len() <= a || a == b || d.len() == 0 {
        assert(overwrite(c, s, d).subrange(a, b) =~= c.subrange(a, b));
    }
}

/// Handing out one more handle of a live chunk keeps the partition.
proof fn lemma_share_chunk(free: Seq<(u32, u32)>, chunks: Map<u128, (u32, u32, usize)>, max: u32, hash: u128, count: usize)
    requires
        partitioned(free, chunks, max),
        chunks.contains_key(hash),
        count >= 1,
    ensures
        partitioned(free, chunks.insert(hash, (chunks[hash].0, chunks[hash].1, count)), max),
{
    let nc = chunks.insert(hash, (chunks[hash].0, chunks[hash].1, count));
    assert forall|i: int| 0 <= i < max implies #[trigger] free_contains(free, i) || #[trigger] chunks_contain(nc, i) by {
        if !free_contains(free, i) {
            assert(chunks_contain(chunks, i));
            let h = choose|h: u128| chunks.contains_key(h) && #[trigger] in_range(i, chunks[h].0 as int, chunks[h].0 + chunks[h].1);
            assert(nc.contains_key(h) && in_range(i, nc[h].0 as int, nc[h].0 + nc[h].1));
        }
    }
    assert forall|g: u128, h: u128|
        #[trigger] nc.contains_key(g) && #[trigger] nc.contains_key(h) && g != h implies ranges_disjoint(
            nc[g].0 as int, nc[g].0 + nc[g].1, nc[h].0 as int, nc[h].0 + nc[h].1) by {
        assert(chunks.contains_key(g) && chunks.contains_key(h));
    }
    assert forall|k: int, h: u128| 0 <= k < free.len() && #[trigger] nc.contains_key(h) implies ranges_disjoint(
            #[trigger] free[k].0 as int, free[k].1 as int, nc[h].0 as int, nc[h].0 + nc[h].1) by {
        assert(chunks.contains_key(h));
    }
}

/// Taking the front `n` elements of free range `k` as a new chunk keeps the
/// partition.
proof fn lemma_take_front(free: Seq<(u32, u32)>, chunks: Map<u128, (u32, u32, usize)>, max: u32, k: int, n: int, hash: u128)
    requires
        partitioned(free, chunks, max),
        0 <= k < free.len(),
        0 <= n <= u32::MAX,
        fits(free, k, n),
        !chunks.contains_key(hash),
    ensures
        partitioned(take_front(free, k, n), chunks.insert(hash, (free[k].0, n as u32, 1usize)), max),
{
    let s = free[k].0 as int;
    let e = free[k].1 as int;
    let removed = e - s == n;
    let nf = take_front(free, k, n);
    let nc = chunks.insert(hash, (free[k].0, n as u32, 1usize));
    // Where each new entry came from.
    let from = |j: int| if removed && j >= k { j + 1 } else { j };
    assert(free[k].0 <= free[k].1 <= max);
    assert forall|j: int| 0 <= j < nf.len() implies {
        let m = #[trigger] from(j);
        &&& 0 <= m < free.len()
        &&& m != k ==> nf[j] == free[m]
        &&& m == k ==> !removed && nf[j] == ((s + n) as u32, e as u32)
    } by {}
    // bounds
    assert forall|j: int| 0 <= j < nf.len() implies #[trigger] nf[j].0 <= nf[j].1 <= max by {
        let m = from(j);
        assert(free[m].0 <= free[m].1 <= max);
    }
    // free ranges stay disjoint: each new entry lies inside its old one
    assert forall|a: int, b: int| 0 <= a < nf.len() && 0 <= b < nf.len() && a != b implies ranges_disjoint(
            #[trigger] nf[a].0 as int, nf[a].1 as int, #[trigger] nf[b].0 as int, nf[b].1 as int) by {
        let ma = from(a);
        let mb = from(b);
        assert(ranges_disjoint(free[ma].0 as int, free[ma].1 as int, free[mb].0 as int, free[mb].1 as int));
    }
    // chunks: bounds and disjointness
    assert forall|h: u128| #[trigger] nc.contains_key(h) implies nc[h].0 + nc[h].1 <= max && nc[h].2 >= 1 by {
        if h != hash {
            assert(chunks.contains_key(h));
        }
    }
    assert forall|g: u128, h: u128|
        #[trigger] nc.contains_key(g) && #[trigger] nc.contains_key(h) && g != h implies ranges_disjoint(
            nc[g].0 as int, nc[g].0 + nc[g].1, nc[h].0 as int, nc[h].0 + nc[h].1) by {
        if g == hash {
            assert(chunks.contains_key(h));
            assert(ranges_disjoint(free[k].0 as int, free[k].1 as int, chunks[h].0 as int, chunks[h].0 + chunks[h].1));
        } else if h == hash {
            assert(chunks.contains_key(g));
            assert(ranges_disjoint(free[k].0 as int, free[k].1 as int, chunks[g].0 as int, chunks[g].0 + chunks[g].1));
        } else {
            assert(chunks.contains_key(g) && chunks.contains_key(h));
        }
    }
    assert forall|j: int, h: u128| 0 <= j < nf.len() && #[trigger] nc.contains_key(h) implies ranges_disjoint(
            #[trigger] nf[j].0 as int, nf[j].1 as int, nc[h].0 as int, nc[h].0 + nc[h].1) by {
        let m = from(j);
        if h == hash {
            if m != k {
                assert(ranges_disjoint(free[m].0 as int, free[m].1 as int, free[k].0 as int, free[k].1 as int));
            }
        } else {
            assert(chunks.contains_key(h));
            assert(ranges_disjoint(free[m].0 as int, free[m].1 as int, chunks[h].0 as int, chunks[h].0 + chunks[h].1));
        }
    }
    // every index is still accounted for
    assert forall|i: int| 0 <= i < max implies #[trigger] free_contains(nf, i) || #[trigger] chunks_contain(nc, i) by {
        if free_contains(free, i) {
            let m = choose|m: int| 0 <= m < free.len() && #[trigger] in_range(i, free[m].0 as int, free[m].1 as int);
            if m == k {
                if i < s + n {
                    assert(nc.contains_key(hash) && in_range(i, nc[hash].0 as int, nc[hash].0 + nc[hash].1));
                } else {
                    assert(from(k) == k);
                    assert(in_range(i, nf[k].0 as int, nf[k].1 as int));
                }
            } else {
                let j = if removed && m > k { m - 1 } else { m };
                assert(from(j) == m);
                assert(in_range(i, nf[j].0 as int, nf[j].1 as int));
            }
        } else {
            assert(chunks_contain(chunks, i));
            let h = choose|h: u128| chunks.contains_key(h) && #[trigger] in_range(i, chunks[h].0 as int, chunks[h].0 + chunks[h].1);
            assert(nc.contains_key(h) && in_range(i, nc[h].0 as int, nc[h].0 + nc[h].1));
        }
    }
}


/// A place for a range starting at `s` exists at or after `k` when every
/// range before `k` starts below `s`.
proof fn lemma_seek_from(free: Seq<(u32, u32)>, s: int, k: int) -> (p: int)
    requires
        0 <= k <= free.len(),
        forall|j: int| 0 <= j < k ==> (#[trigger] free[j]).0 < s,
    ensures
        is_seek(free, s, p),
    decreases free.len() - k,
{
    if k == free.len() || free[k].0 >= s {
        k
    } else {
        lemma_seek_from(free, s, k + 1)
    }
}

/// The place of a range in the free list is unique.
pub proof fn lemma_seek_unique(free: Seq<(u32, u32)>, s: int, p: int)
    requires
        is_seek(free, s, p),
    ensures
        (choose|q: int| is_seek(free, s, q)) == p,
{
    let q = choose|q: int| is_seek(free, s, q);
    assert(is_seek(free, s, q));
    if q < p {
        assert(free[q].0 < s);
    } else if p < q {
        assert(free[p].0 < s);
    }
}

/// Replacing the free entries `lo..hi` (at most two) by one entry `[a, d)`
/// that covers exactly those entries and the released chunk `hash` keeps the
/// partition once the chunk is gone.
proof fn lemma_merge_back(
    free: Seq<(u32, u32)>,
    chunks: Map<u128, (u32, u32, usize)>,
    max: u32,
    hash: u128,
    lo: int,
    hi: int,
    nf: Seq<(u32, u32)>,
)
    requires
        partitioned(free, chunks, max),
        chunks.contains_key(hash),
        0 <= lo <= hi <= free.len(),
        hi - lo <= 2,
        nf.len() == free.len() - (hi - lo) + 1,
        forall|j: int| 0 <= j < lo ==> nf[j] == free[j],
        forall|j: int| lo < j < nf.len() ==> nf[j] == free[j + (hi - lo) - 1],
        nf[lo].0 <= nf[lo].1 <= max,
        forall|i: int| #[trigger] in_range(i, nf[lo].0 as int, nf[lo].1 as int) <==> (in_range(
            i,
            chunks[hash].0 as int,
            chunks[hash].0 + chunks[hash].1,
        ) || (exists|m: int| lo <= m < hi && #[trigger] in_range(i, free[m].0 as int, free[m].1 as int))),
    ensures
        partitioned(nf, chunks.remove(hash), max),
{
    let nc = chunks.remove(hash);
    let cs = chunks[hash].0 as int;
    let ce = chunks[hash].0 + chunks[hash].1;
    let from = |j: int| if j < lo { j } else { j + (hi - lo) - 1 };
    // the merged entry shares no index with anything that stays
    assert forall|x0: int, x1: int|
        (forall|i: int| #[trigger] in_range(i, x0, x1) ==> !in_range(i, cs, ce)) && (forall|m: int, i: int|
            lo <= m < hi && #[trigger] in_range(i, x0, x1) ==> !#[trigger] in_range(i, free[m].0 as int, free[m].1 as int))
        implies ranges_disjoint(nf[lo].0 as int, nf[lo].1 as int, x0, x1) by {
        assert forall|i: int| !(#[trigger] in_range(i, nf[lo].0 as int, nf[lo].1 as int) && in_range(i, x0, x1)) by {
            if in_range(i, nf[lo].0 as int, nf[lo].1 as int) && in_range(i, x0, x1) {
                if !in_range(i, cs, ce) {
                    let m = choose|m: int| lo <= m < hi && #[trigger] in_range(i, free[m].0 as int, free[m].1 as int);
                    assert(in_range(i, free[m].0 as int, free[m].1 as int));
                }
            }
        }
        lemma_disjoint_pointwise(nf[lo].0 as int, nf[lo].1 as int, x0, x1);
    }
    // bounds
    assert forall|j: int| 0 <= j < nf.len() implies #[trigger] nf[j].0 <= nf[j].1 <= max by {
        if j != lo {
            assert(free[from(j)].0 <= free[from(j)].1 <= max);
        }
    }
    // free entries stay disjoint
    assert forall|a: int, b: int| 0 <= a < nf.len() && 0 <= b < nf.len() && a != b implies ranges_disjoint(
        #[trigger] nf[a].0 as int,
        nf[a].1 as int,
        #[trigger] nf[b].0 as int,
        nf[b].1 as int,
    ) by {
        if a != lo && b != lo {
            assert(ranges_disjoint(free[from(a)].0 as int, free[from(a)].1 as int, free[from(b)].0 as int, free[from(b)].1 as int));
        } else {
            let o = if a == lo { b } else { a };
            let mo = from(o);
            assert(nf[o] == free[mo]);
            assert(!(lo <= mo < hi));
            assert(ranges_disjoint(free[mo].0 as int, free[mo].1 as int, cs, ce));
            assert forall|m: int, i: int| lo <= m < hi && #[trigger] in_range(i, free[mo].0 as int, free[mo].1 as int)
                implies !#[trigger] in_range(i, free[m].0 as int, free[m].1 as int) by {
                assert(ranges_disjoint(free[m].0 as int, free[m].1 as int, free[mo].0 as int, free[mo].1 as int));
            }
            assert(ranges_disjoint(nf[lo].0 as int, nf[lo].1 as int, free[mo].0 as int, free[mo].1 as int));
        }
    }
    // remaining chunks
    assert forall|h: u128| #[trigger] nc.contains_key(h) implies nc[h].0 + nc[h].1 <= max && nc[h].2 >= 1 by {
        assert(chunks.contains_key(h));
    }
    assert forall|g: u128, h: u128|
        #[trigger] nc.contains_key(g) && #[trigger] nc.contains_key(h) && g != h implies ranges_disjoint(
            nc[g].0 as int, nc[g].0 + nc[g].1, nc[h].0 as int, nc[h].0 + nc[h].1) by {
        assert(chunks.contains_key(g) && chunks.contains_key(h));
    }
    assert forall|j: int, h: u128| 0 <= j < nf.len() && #[trigger] nc.contains_key(h) implies ranges_disjoint(
        #[trigger] nf[j].0 as int,
        nf[j].1 as int,
        nc[h].0 as int,
        nc[h].0 + nc[h].1,
    ) by {
        assert(chunks.contains_key(h) && h != hash);
        let x0 = nc[h].0 as int;
        let x1 = nc[h].0 + nc[h].1;
        if j != lo {
            assert(ranges_disjoint(free[from(j)].0 as int, free[from(j)].1 as int, x0, x1));
        } else {
            assert(ranges_disjoint(cs, ce, x0, x1));
            assert forall|m: int, i: int| lo <= m < hi && #[trigger] in_range(i, x0, x1)
                implies !#[trigger] in_range(i, free[m].0 as int, free[m].1 as int) by {
                assert(ranges_disjoint(free[m].0 as int, free[m].1 as int, x0, x1));
            }
        }
    }
    // every index is still accounted for
    assert forall|i: int| 0 <= i < max implies #[trigger] free_contains(nf, i) || #[trigger] chunks_contain(nc, i) by {
        if free_contains(free, i) {
            let m = choose|m: int| 0 <= m < free.len() && #[trigger] in_range(i, free[m].0 as int, free[m].1 as int);
            if lo <= m < hi {
                assert(in_range(i, nf[lo].0 as int, nf[lo].1 as int));
            } else if m < lo {
                assert(in_range(i, nf[m].0 as int, nf[m].1 as int));
            } else {
                let j = m - (hi - lo) + 1;
                assert(from(j) == m);
                assert(in_range(i, nf[j].0 as int, nf[j].1 as int));
            }
        } else {
            assert(chunks_contain(chunks, i));
            let h = choose|h: u128| chunks.contains_key(h) && #[trigger] in_range(i, chunks[h].0 as int, chunks[h].0 + chunks[h].1);
            if h == hash {
                assert(in_range(i, nf[lo].0 as int, nf[lo].1 as int));
            } else {
                assert(nc.contains_key(h) && in_range(i, nc[h].0 as int, nc[h].0 + nc[h].1));
            }
        }
    }
}

/// Giving back the range of chunk `hash` keeps the partition once the chunk
/// is gone, and every index of the chunk is then free.
proof fn lemma_release_range(free: Seq<(u32, u32)>, chunks: Map<u128, (u32, u32, usize)>, max: u32, hash: u128)
    requires
        partitioned(free, chunks, max),
        chunks.contains_key(hash),
    ensures
        partitioned(
            freed_ranges(free, chunks[hash].0, (chunks[hash].0 + chunks[hash].1) as u32),
            chunks.remove(hash),
            max,
        ),
{
    let s = chunks[hash].0;
    let e = (chunks[hash].0 + chunks[hash].1) as u32;
    let p = choose|p: int| is_seek(free, s as int, p);
    let q = lemma_seek_from(free, s as int, 0);
    lemma_seek_unique(free, s as int, q);
    assert(p == q);
    let nf = freed_ranges(free, s, e);
    let left = p > 0 && free[p - 1].1 == s;
    let right = p < free.len() && free[p].0 == e;
    if p > 0 {
        assert(free[p - 1].0 < s);
    }
    if left && right {
        assert forall|i: int| #[trigger] in_range(i, nf[p - 1].0 as int, nf[p - 1].1 as int) <==> (in_range(
            i, chunks[hash].0 as int, chunks[hash].0 + chunks[hash].1,
        ) || (exists|m: int| p - 1 <= m < p + 1 && #[trigger] in_range(i, free[m].0 as int, free[m].1 as int))) by {
            if in_range(i, nf[p - 1].0 as int, nf[p - 1].1 as int) && !in_range(i, s as int, e as int) {
                if i < s {
                    assert(in_range(i, free[p - 1].0 as int, free[p - 1].1 as int));
                } else {
                    assert(in_range(i, free[p].0 as int, free[p].1 as int));
                }
            }
        }
        lemma_merge_back(free, chunks, max, hash, p - 1, p + 1, nf);
    } else if left {
        assert forall|i: int| #[trigger] in_range(i, nf[p - 1].0 as int, nf[p - 1].1 as int) <==> (in_range(
            i, chunks[hash].0 as int, chunks[hash].0 + chunks[hash].1,
        ) || (exists|m: int| p - 1 <= m < p && #[trigger] in_range(i, free[m].0 as int, free[m].1 as int))) by {
            if in_range(i, nf[p - 1].0 as int, nf[p - 1].1 as int) && !in_range(i, s as int, e as int) {
                assert(in_range(i, free[p - 1].0 as int, free[p - 1].1 as int));
            }
        }
        lemma_merge_back(free, chunks, max, hash, p - 1, p, nf);
    } else if right {
        assert(free[p].0 <= free[p].1 <= max);
        assert forall|i: int| #[trigger] in_range(i, nf[p].0 as int, nf[p].1 as int) <==> (in_range(
            i, chunks[hash].0 as int, chunks[hash].0 + chunks[hash].1,
        ) || (exists|m: int| p <= m < p + 1 && #[trigger] in_range(i, free[m].0 as int, free[m].1 as int))) by {
            if in_range(i, nf[p].0 as int, nf[p].1 as int) && !in_range(i, s as int, e as int) {
                assert(in_range(i, free[p].0 as int, free[p].1 as int));
            }
        }
        lemma_merge_back(free, chunks, max, hash, p, p + 1, nf);
    } else {
        assert forall|i: int| #[trigger] in_range(i, nf[p].0 as int, nf[p].1 as int) <==> (in_range(
            i, chunks[hash].0 as int, chunks[hash].0 + chunks[hash].1,
        ) || (exists|m: int| p <= m < p && #[trigger] in_range(i, free[m].0 as int, free[m].1 as int))) by {
        }
        lemma_merge_back(free, chunks, max, hash, p, p, nf);
    }
}

/// The free list is in canonical form: every range is non-empty, and the
/// ranges are sorted by start with a gap between any two of them (no two
/// overlap or touch).
pub open spec fn canonical(free: Seq<(u32, u32)>) -> bool {
    &&& forall|k: int| 0 <= k < free.len() ==> (#[trigger] free[k]).0 < free[k].1
    &&& forall|a: int, b: int| 0 <= a < b < free.len() ==> (#[trigger] free[a]).1 < (#[trigger] free[b]).0
}

/// Replacing the entries `lo..hi` of a canonical free list by one non-empty
/// entry that lies strictly after the entries before it and strictly before
/// the entries after it keeps the list canonical.
proof fn lemma_canonical_replace(free: Seq<(u32, u32)>, lo: int, hi: int, nf: Seq<(u32, u32)>)
    requires
        canonical(free),
        0 <= lo <= hi <= free.len(),
        nf.len() == free.len() - (hi - lo) + 1,
        forall|j: int| 0 <= j < lo ==> nf[j] == free[j],
        forall|j: int| lo < j < nf.len() ==> nf[j] == free[j + (hi - lo) - 1],
        nf[lo].0 < nf[lo].1,
        forall|o: int| 0 <= o < lo ==> (#[trigger] free[o]).1 < nf[lo].0,
        forall|o: int| hi <= o < free.len() ==> nf[lo].1 < (#[trigger] free[o]).0,
    ensures
        canonical(nf),
{
    let from = |j: int| if j < lo { j } else { j + (hi - lo) - 1 };
    assert forall|k: int| 0 <= k < nf.len() implies (#[trigger] nf[k]).0 < nf[k].1 by {
        if k != lo {
            assert(free[from(k)].0 < free[from(k)].1);
        }
    }
    assert forall|a: int, b: int| 0 <= a < b < nf.len() implies (#[trigger] nf[a]).1 < (#[trigger] nf[b]).0 by {
        if a == lo {
            assert(nf[lo].1 < free[from(b)].0);
        } else if b == lo {
            assert(free[a].1 < nf[lo].0);
        } else {
            assert(free[from(a)].1 < free[from(b)].0);
        }
    }
}

/// Removing an entry keeps a free list canonical.
proof fn lemma_canonical_remove(free: Seq<(u32, u32)>, k: int)
    requires
        canonical(free),
        0 <= k < free.len(),
    ensures
        canonical(free.remove(k)),
{
    let nf = free.remove(k);
    let from = |j: int| if j < k { j } else { j + 1 };
    assert forall|j: int| 0 <= j < nf.len() implies (#[trigger] nf[j]).0 < nf[j].1 by {
        assert(nf[j] == free[from(j)]);
    }
    assert forall|a: int, b: int| 0 <= a < b < nf.len() implies (#[trigger] nf[a]).1 < (#[trigger] nf[b]).0 by {
        assert(nf[a] == free[from(a)] && nf[b] == free[from(b)]);
    }
}

/// A fresh buffer's free list is canonical unless the buffer has no room.
pub proof fn lemma_canonical_single(max: u32)
    requires
        max > 0,
    ensures
        canonical(seq![(0u32, max)]),
{
}

/// Taking the front of a range for a new chunk keeps a canonical free list
/// canonical.
pub proof fn lemma_take_front_canonical(free: Seq<(u32, u32)>, k: int, n: int)
    requires
        canonical(free),
        0 <= k < free.len(),
        0 <= n,
        fits(free, k, n),
    ensures
        canonical(take_front(free, k, n)),
{
    if free[k].1 - free[k].0 == n {
        lemma_canonical_remove(free, k);
    } else {
        let nf = take_front(free, k, n);
        assert forall|o: int| 0 <= o < k implies (#[trigger] free[o]).1 < nf[k].0 by {
            assert(free[o].1 < free[k].0);
        }
        assert forall|o: int| k + 1 <= o < free.len() implies nf[k].1 < (#[trigger] free[o]).0 by {
            assert(free[k].1 < free[o].0);
        }
        lemma_canonical_replace(free, k, k + 1, nf);
    }
}

/// Giving back a non-empty chunk of a consistent buffer keeps a canonical
/// free list canonical: the freed range is fused with the free ranges it
/// touches, and no two ranges touch afterwards.
pub proof fn lemma_release_canonical(free: Seq<(u32, u32)>, chunks: Map<u128, (u32, u32, usize)>, max: u32, hash: u128)
    requires
        partitioned(free, chunks, max),
        canonical(free),
        chunks.contains_key(hash),
        chunks[hash].1 > 0,
    ensures
        canonical(freed_ranges(free, chunks[hash].0, (chunks[hash].0 + chunks[hash].1) as u32)),
{
    let s = chunks[hash].0;
    let e = (chunks[hash].0 + chunks[hash].1) as u32;
    let q = lemma_seek_from(free, s as int, 0);
    lemma_seek_unique(free, s as int, q);
    let p = q;
    let nf = freed_ranges(free, s, e);
    // ranges before the place end at or before s; ranges after it start at or after e
    assert forall|o: int| 0 <= o < p implies (#[trigger] free[o]).1 <= s by {
        assert(free[o].0 < s);
        assert(ranges_disjoint(free[o].0 as int, free[o].1 as int, s as int, e as int));
    }
    assert forall|o: int| p <= o < free.len() implies (#[trigger] free[o]).0 >= e by {
        assert(free[o].0 >= s);
        assert(ranges_disjoint(free[o].0 as int, free[o].1 as int, s as int, e as int));
    }
    let left = p > 0 && free[p - 1].1 == s;
    let right = p < free.len() && free[p].0 == e;
    if p > 0 {
        assert forall|o: int| 0 <= o < p - 1 implies (#[trigger] free[o]).1 < free[p - 1].0 by {
            assert(free[o].1 < free[p - 1].0);
        }
    }
    if p + 1 < free.len() {
        assert forall|o: int| p + 1 <= o < free.len() implies free[p].1 < (#[trigger] free[o]).0 by {
            assert(free[p].1 < free[o].0);
        }
    }
    if left && right {
        assert forall|o: int| 0 <= o < p - 1 implies (#[trigger] free[o]).1 < nf[p - 1].0 by {
            assert(free[o].1 < free[p - 1].0);
        }
        assert forall|o: int| p + 1 <= o < free.len() implies nf[p - 1].1 < (#[trigger] free[o]).0 by {
            assert(free[p].1 < free[o].0);
        }
        lemma_canonical_replace(free, p - 1, p + 1, nf);
    } else if left {
        assert forall|o: int| 0 <= o < p - 1 implies (#[trigger] free[o]).1 < nf[p - 1].0 by {
            assert(free[o].1 < free[p - 1].0);
        }
        assert forall|o: int| p <= o < free.len() implies nf[p - 1].1 < (#[trigger] free[o]).0 by {
            assert(free[o].0 >= e);
            if o == p {
                assert(free[p].0 != e);
            } else {
                assert(free[p].0 >= e && free[p].1 < free[o].0);
                assert(free[p].0 < free[p].1);
            }
        }
        lemma_canonical_replace(free, p - 1, p, nf);
    } else if right {
        assert forall|o: int| 0 <= o < p implies (#[trigger] free[o]).1 < nf[p].0 by {
            assert(free[o].1 <= s);
            if o == p - 1 {
                assert(free[p - 1].1 != s);
            } else {
                assert(free[o].1 < free[p - 1].0);
                assert(free[p - 1].0 < free[p - 1].1 && free[p - 1].1 <= s);
            }
        }
        assert forall|o: int| p + 1 <= o < free.len() implies nf[p].1 < (#[trigger] free[o]).0 by {
            assert(free[p].1 < free[o].0);
        }
        lemma_canonical_replace(free, p, p + 1, nf);
    } else {
        assert forall|o: int| 0 <= o < p implies (#[trigger] free[o]).1 < nf[p].0 by {
            assert(free[o].1 <= s);
            if o == p - 1 {
                assert(free[p - 1].1 != s);
            } else {
                assert(free[o].1 < free[p - 1].0);
                assert(free[p - 1].0 < free[p - 1].1 && free[p - 1].1 <= s);
            }
        }
        assert forall|o: int| p <= o < free.len() implies nf[p].1 < (#[trigger] free[o]).0 by {
            assert(free[o].0 >= e);
            if o == p {
                assert(free[p].0 != e);
            } else {
                assert(free[p].0 >= e && free[p].1 < free[o].0);
                assert(free[p].0 < free[p].1);
            }
        }
        lemma_canonical_replace(free, p, p, nf);
    }
}

/// The free list is sorted and gap-separated: every range is well ordered
/// (empty ranges allowed), and each range ends strictly before the next one
/// starts, so no two ranges overlap or touch.
pub open spec fn sorted_apart(free: Seq<(u32, u32)>) -> bool {
    &&& forall|k: int| 0 <= k < free.len() ==> (#[trigger] free[k]).0 <= free[k].1
    &&& forall|a: int, b: int| 0 <= a < b < free.len() ==> (#[trigger] free[a]).1 < (#[trigger] free[b]).0
}

/// The range `[s, e)` can go back into the free list without touching
/// anything it should not: every free range lies wholly at or before `s` or
/// at or after `e`, and no empty free range sits at `s`, at `e` or between.
pub open spec fn clear_around(free: Seq<(u32, u32)>, s: int, e: int) -> bool {
    forall|k: int|
        0 <= k < free.len() ==> {
            &&& ((#[trigger] free[k]).1 <= s || free[k].0 >= e)
            &&& (free[k].0 == free[k].1 ==> free[k].0 < s || free[k].0 > e)
        }
}

/// A canonical free list is sorted and gap-separated.
pub proof fn lemma_canonical_sorted_apart(free: Seq<(u32, u32)>)
    requires
        canonical(free),
    ensures
        sorted_apart(free),
{
}

/// Replacing the entries `lo..hi` of a sorted, gap-separated free list by one
/// well-ordered entry that lies strictly after the entries before it and
/// strictly before the entries after it keeps the list so.
proof fn lemma_sorted_apart_replace(free: Seq<(u32, u32)>, lo: int, hi: int, nf: Seq<(u32, u32)>)
    requires
        sorted_apart(free),
        0 <= lo <= hi <= free.len(),
        nf.len() == free.len() - (hi - lo) + 1,
        forall|j: int| 0 <= j < lo ==> nf[j] == free[j],
        forall|j: int| lo < j < nf.len() ==> nf[j] == free[j + (hi - lo) - 1],
        nf[lo].0 <= nf[lo].1,
        forall|o: int| 0 <= o < lo ==> (#[trigger] free[o]).1 < nf[lo].0,
        forall|o: int| hi <= o < free.len() ==> nf[lo].1 < (#[trigger] free[o]).0,
    ensures
        sorted_apart(nf),
{
    let from = |j: int| if j < lo { j } else { j + (hi - lo) - 1 };
    assert forall|k: int| 0 <= k < nf.len() implies (#[trigger] nf[k]).0 <= nf[k].1 by {
        if k != lo {
            assert(free[from(k)].0 <= free[from(k)].1);
        }
    }
    assert forall|a: int, b: int| 0 <= a < b < nf.len() implies (#[trigger] nf[a]).1 < (#[trigger] nf[b]).0 by {
        if a == lo {
            assert(nf[lo].1 < free[from(b)].0);
        } else if b == lo {
            assert(free[a].1 < nf[lo].0);
        } else {
            assert(free[from(a)].1 < free[from(b)].0);
        }
    }
}

/// A fresh buffer's free list is sorted and gap-separated.
pub proof fn lemma_sorted_apart_single(max: u32)
    ensures
        sorted_apart(seq![(0u32, max)]),
{
}

/// Taking the front of a range for a new chunk keeps a sorted,
/// gap-separated free list so.
pub proof fn lemma_take_front_sorted_apart(free: Seq<(u32, u32)>, k: int, n: int)
    requires
        sorted_apart(free),
        0 <= k < free.len(),
        0 <= n,
        fits(free, k, n),
    ensures
        sorted_apart(take_front(free, k, n)),
{
    let nf = take_front(free, k, n);
    if free[k].1 - free[k].0 == n {
        let from = |j: int| if j < k { j } else { j + 1 };
        assert forall|j: int| 0 <= j < nf.len() implies (#[trigger] nf[j]).0 <= nf[j].1 by {
            assert(nf[j] == free[from(j)]);
        }
        assert forall|a: int, b: int| 0 <= a < b < nf.len() implies (#[trigger] nf[a]).1 < (#[trigger] nf[b]).0 by {
            assert(nf[a] == free[from(a)] && nf[b] == free[from(b)]);
        }
    } else {
        assert forall|o: int| 0 <= o < k implies (#[trigger] free[o]).1 < nf[k].0 by {
            assert(free[o].1 < free[k].0);
        }
        assert forall|o: int| k + 1 <= o < free.len() implies nf[k].1 < (#[trigger] free[o]).0 by {
            assert(free[k].1 < free[o].0);
        }
        lemma_sorted_apart_replace(free, k, k + 1, nf);
    }
}

/// Giving back a chunk keeps a sorted, gap-separated free list so, empty
/// ranges and an empty chunk included, as long as the chunk's range is
/// clear of the free ranges: the freed range is fused with the free ranges
/// it touches and no two ranges touch afterwards.
pub proof fn lemma_release_sorted_apart(free: Seq<(u32, u32)>, s: u32, e: u32)
    requires
        sorted_apart(free),
        s <= e,
        clear_around(free, s as int, e as int),
    ensures
        sorted_apart(freed_ranges(free, s, e)),
{
    let q = lemma_seek_from(free, s as int, 0);
    lemma_seek_unique(free, s as int, q);
    let p = q;
    let nf = freed_ranges(free, s, e);
    assert forall|o: int| 0 <= o < p implies (#[trigger] free[o]).1 <= s by {
        assert(free[o].0 < s);
    }
    assert forall|o: int| p <= o < free.len() implies (#[trigger] free[o]).0 >= e by {
        assert(free[o].0 >= s);
    }
    let left = p > 0 && free[p - 1].1 == s;
    let right = p < free.len() && free[p].0 == e;
    if left && right {
        assert forall|o: int| 0 <= o < p - 1 implies (#[trigger] free[o]).1 < nf[p - 1].0 by {
            assert(free[o].1 < free[p - 1].0);
        }
        assert forall|o: int| p + 1 <= o < free.len() implies nf[p - 1].1 < (#[trigger] free[o]).0 by {
            assert(free[p].1 < free[o].0);
        }
        assert(free[p - 1].0 <= free[p - 1].1 && free[p].0 <= free[p].1);
        lemma_sorted_apart_replace(free, p - 1, p + 1, nf);
    } else if left {
        assert forall|o: int| 0 <= o < p - 1 implies (#[trigger] free[o]).1 < nf[p - 1].0 by {
            assert(free[o].1 < free[p - 1].0);
        }
        assert forall|o: int| p <= o < free.len() implies nf[p - 1].1 < (#[trigger] free[o]).0 by {
            if o > p {
                assert(free[p].1 < free[o].0);
                assert(free[p].0 <= free[p].1);
            }
        }
        assert(free[p - 1].0 <= free[p - 1].1);
        lemma_sorted_apart_replace(free, p - 1, p, nf);
    } else if right {
        assert forall|o: int| 0 <= o < p implies (#[trigger] free[o]).1 < nf[p].0 by {
            if o < p - 1 {
                assert(free[o].1 < free[p - 1].0);
                assert(free[p - 1].0 <= free[p - 1].1);
            }
        }
        assert forall|o: int| p + 1 <= o < free.len() implies nf[p].1 < (#[trigger] free[o]).0 by {
            assert(free[p].1 < free[o].0);
        }
        assert(free[p].0 <= free[p].1);
        lemma_sorted_apart_replace(free, p, p + 1, nf);
    } else {
        assert forall|o: int| 0 <= o < p implies (#[trigger] free[o]).1 < nf[p].0 by {
            if o < p - 1 {
                assert(free[o].1 < free[p - 1].0);
                assert(free[p - 1].0 <= free[p - 1].1);
            }
        }
        assert forall|o: int| p <= o < free.len() implies nf[p].1 < (#[trigger] free[o]).0 by {
            if o > p {
                assert(free[p].1 < free[o].0);
                assert(free[p].0 <= free[p].1);
            }
        }
        lemma_sorted_apart_replace(free, p, p, nf);
    }
}

/// In a consistent buffer with a canonical free list, the range of any
/// non-empty live chunk is clear of the free ranges.
pub proof fn lemma_canonical_clear(free: Seq<(u32, u32)>, chunks: Map<u128, (u32, u32, usize)>, max: u32, hash: u128)
    requires
        partitioned(free, chunks, max),
        canonical(free),
        chunks.contains_key(hash),
        chunks[hash].1 > 0,
    ensures
        clear_around(free, chunks[hash].0 as int, chunks[hash].0 + chunks[hash].1),
{
    assert forall|k: int| 0 <= k < free.len() implies {
        &&& ((#[trigger] free[k]).1 <= chunks[hash].0 || free[k].0 >= chunks[hash].0 + chunks[hash].1)
        &&& (free[k].0 == free[k].1 ==> free[k].0 < chunks[hash].0 || free[k].0 > chunks[hash].0 + chunks[hash].1)
    } by {
        assert(ranges_disjoint(free[k].0 as int, free[k].1 as int, chunks[hash].0 as int, chunks[hash].0 + chunks[hash].1));
        assert(free[k].0 < free[k].1);
    }
}

// ---------------------------------------------------------------------------
// The buffer.
// ---------------------------------------------------------------------------

impl<T> ChunkedBuffer<T> {
    /// The free ranges, in list order, each as `(start, end)`.
    pub closed spec fn free_ranges(&self) -> Seq<(u32, u32)> {
        self.unreserved@
    }

    /// The live chunks: content hash to `(start, size, live handles)`.
    pub closed spec fn chunks(&self) -> Map<u128, (u32, u32, usize)> {
        reserved_entries(self.reserved)
    }

    /// Number of elements the buffer holds.
    pub closed spec fn capacity(&self) -> u32 {
        self.max_size
    }

    /// What the buffer holds once every queued write has reached the GPU:
    /// one record per index.
    pub closed spec fn contents(&self) -> Seq<T> {
        self.contents@
    }

    /// The writes that still have to reach the GPU, oldest first.
    pub closed spec fn uploads(&self) -> Seq<(u32, Seq<T>)> {
        self.pending@.map_values(|w: PendingWrite<T>| (w.start_idx, w.data@))
    }

    /// The buffer is consistent: free ranges and live chunks partition it,
    /// and it holds one record per index.
    pub open spec fn wf(&self) -> bool {
        &&& partitioned(self.free_ranges(), self.chunks(), self.capacity())
        &&& self.contents().len() == self.capacity()
    }

    /// No live chunk has so many handles that one more would overflow a
    /// reference count.
    pub open spec fn handles_below_limit(&self) -> bool {
        forall|h: u128| #[trigger] self.chunks().contains_key(h) ==> self.chunks()[h].2 < isize::MAX
    }

    /// `handle` is a live handle of this buffer.
    pub open spec fn holds(&self, handle: ChunkHandleInner) -> bool {
        &&& self.chunks().contains_key(handle.hash)
        &&& self.chunks()[handle.hash].0 == handle.start_idx
        &&& self.chunks()[handle.hash].1 == handle.size
    }

    /// What `get` does when the contents of `data` hash to `hash`: a chunk
    /// with that hash is handed out again with one more handle; otherwise the
    /// first free range long enough gives up its front to a new chunk, and the
    /// data is queued for upload there; with no such range the buffer is full
    /// and nothing changes.
    pub open spec fn get_spec(self, post: Self, hash: u128, data: Seq<T>, res: Result<ChunkHandle<T>, ChunkedBufferError>) -> bool {
        let free = self.free_ranges();
        let n = data.len() as int;
        &&& post.capacity() == self.capacity()
        &&& if self.chunks().contains_key(hash) {
            let e = self.chunks()[hash];
            &&& res matches Ok(h) && h@ == (ChunkHandleInner { start_idx: e.0, size: e.1, hash })
            &&& post.chunks() == self.chunks().insert(hash, (e.0, e.1, (e.2 + 1) as usize))
            &&& post.free_ranges() == free
            &&& post.uploads() == self.uploads()
        } else if has_fit(free, n) {
            let k = choose|k: int| is_first_fit(free, n, k);
            let start = free[k].0;
            &&& res matches Ok(h) && h@ == (ChunkHandleInner { start_idx: start, size: n as u32, hash })
            &&& post.chunks() == self.chunks().insert(hash, (start, n as u32, 1usize))
            &&& post.free_ranges() == take_front(free, k, n)
            &&& post.uploads() == self.uploads().push((start, data))
        } else {
            &&& res == Err::<ChunkHandle<T>, ChunkedBufferError>(ChunkedBufferError::Full { size: n as u32 })
            &&& post.chunks() == self.chunks()
            &&& post.free_ranges() == free
            &&& post.uploads() == self.uploads()
        }
    }

    /// What releasing `handle` does: a chunk with other live handles just
    /// loses one; the last handle takes the chunk out and gives its range
    /// back to the free list.
    pub open spec fn release_spec(self, post: Self, handle: ChunkHandleInner) -> bool {
        let entry = self.chunks()[handle.hash];
        &&& post.capacity() == self.capacity()
        &&& post.uploads() == self.uploads()
        &&& if entry.2 > 1 {
            &&& post.chunks() == self.chunks().insert(handle.hash, (entry.0, entry.1, (entry.2 - 1) as usize))
            &&& post.free_ranges() == self.free_ranges()
        } else {
            &&& post.chunks() == self.chunks().remove(handle.hash)
            &&& post.free_ranges() == freed_ranges(
                self.free_ranges(),
                handle.start_idx,
                (handle.start_idx + handle.size) as u32,
            )
        }
    }

    /// What `get` does to the stored records when the data hashes to `hash`:
    /// a new chunk gets the data written at its place; otherwise nothing
    /// changes.
    pub open spec fn get_contents_spec(self, post: Self, hash: u128, data: Seq<T>) -> bool {
        let free = self.free_ranges();
        let n = data.len() as int;
        if !self.chunks().contains_key(hash) && has_fit(free, n) {
            let k = choose|k: int| is_first_fit(free, n, k);
            post.contents() == overwrite(self.contents(), free[k].0 as int, data)
        } else {
            post.contents() == self.contents()
        }
    }

    /// What `clone_handle` does for `handle`: its chunk has one more live
    /// handle, and nothing else changes.
    pub open spec fn shared_spec(self, post: Self, handle: ChunkHandleInner) -> bool {
        &&& post.chunks() == self.chunks().insert(
            handle.hash,
            (handle.start_idx, handle.size, (self.chunks()[handle.hash].2 + 1) as usize),
        )
        &&& post.free_ranges() == self.free_ranges()
        &&& post.uploads() == self.uploads()
        &&& post.capacity() == self.capacity()
    }

    /// `get` stored `data` with some content hash: the outcome is the one
    /// `get_spec` gives for that hash.
    pub open spec fn stored(self, post: Self, data: Seq<T>, res: Result<ChunkHandle<T>, ChunkedBufferError>) -> bool {
        exists|hash: u128| #[trigger] self.get_spec(post, hash, data, res)
    }

    /// The chunk `handle` of this buffer holds the records `data`.
    pub open spec fn chunk_holds(&self, handle: ChunkHandleInner, data: Seq<T>) -> bool {
        chunk_items(self.contents(), handle.start_idx, handle.size) == data
    }

    /// Every content key is taken by a live chunk: no key is left for new
    /// contents.
    pub open spec fn keys_exhausted(&self) -> bool {
        forall|k: u128| #[trigger] self.chunks().contains_key(k)
    }

    /// Every chunk that is live in `self` holds in `post` the records it
    /// held in `self`.
    pub open spec fn live_chunks_kept(self, post: Self) -> bool {
        forall|h: u128|
            #[trigger] self.chunks().contains_key(h) ==> chunk_items(post.contents(), self.chunks()[h].0, self.chunks()[h].1)
                == chunk_items(self.contents(), self.chunks()[h].0, self.chunks()[h].1)
    }

    /// Number of elements the buffer holds.
    pub fn max_size(&self) -> (r: u32)
        ensures
            r == self.capacity(),
    {
        self.max_size
    }

    /// Number of elements the buffer holds.
    pub fn size(&self) -> (r: u32)
        ensures
            r == self.capacity(),
    {
        self.max_size
    }
}

/// There is a first fitting range whenever some range fits.
pub proof fn lemma_first_fit_exists(free: Seq<(u32, u32)>, n: int)
    requires
        has_fit(free, n),
    ensures
        exists|k: int| is_first_fit(free, n, k),
    decreases free.len(),
{
    let k0 = choose|k: int| 0 <= k < free.len() && #[trigger] fits(free, k, n);
    if exists|j: int| 0 <= j < k0 && #[trigger] fits(free, j, n) {
        let j0 = choose|j: int| 0 <= j < k0 && #[trigger] fits(free, j, n);
        let shorter = free.subrange(0, k0);
        assert(fits(shorter, j0, n));
        lemma_first_fit_exists(shorter, n);
        let k = choose|k: int| is_first_fit(shorter, n, k);
        assert forall|j: int| 0 <= j < k implies !#[trigger] fits(free, j, n) by {
            assert(!fits(shorter, j, n));
        }
        assert(is_first_fit(free, n, k));
    } else {
        assert(is_first_fit(free, n, k0));
    }
}

/// The first fitting range is unique.
pub proof fn lemma_first_fit_unique(free: Seq<(u32, u32)>, n: int, k: int)
    requires
        is_first_fit(free, n, k),
    ensures
        has_fit(free, n),
        (choose|j: int| is_first_fit(free, n, j)) == k,
{
    assert(fits(free, k, n));
    let j = choose|j: int| is_first_fit(free, n, j);
    assert(is_first_fit(free, n, j));
    if j < k {
        assert(!fits(free, j, n));
    } else if k < j {
        assert(!fits(free, k, n));
    }
}

impl<T: ChunkedBufferContent> ChunkedBuffer<T> {
    /// An empty buffer of `max_size` elements: all of it is one free range,
    /// and the whole buffer is queued to be filled with the default record,
    /// over which chunks are then written one at a time.
    pub fn new(max_size: u32) -> (r: Self)
        ensures
            r.wf(),
            r.capacity() == max_size,
            r.free_ranges() == seq![(0u32, max_size)],
            max_size > 0 ==> canonical(r.free_ranges()),
            sorted_apart(r.free_ranges()),
            r.chunks() == Map::<u128, (u32, u32, usize)>::empty(),
            r.uploads().len() == 1,
            r.uploads()[0].0 == 0,
            r.uploads()[0].1.len() == max_size,
            forall|i: int| 0 <= i < max_size ==> is_default(#[trigger] r.uploads()[0].1[i]),
            r.contents() == r.uploads()[0].1,
    {
        let mut unreserved: Vec<(u32, u32)> = Vec::new();
        unreserved.push((0, max_size));
        let fill = T::default();
        let mut data: Vec<T> = Vec::new();
        let mut i: u32 = 0;
        while i < max_size
            invariant
                i <= max_size,
                data@.len() == i,
                is_default(fill),
                forall|j: int| 0 <= j < i ==> #[trigger] data@[j] == fill,
            decreases max_size - i,
        {
            data.push(fill);
            i = i + 1;
        }
        let contents = vstd::slice::slice_to_vec(data.as_slice());
        let mut pending: Vec<PendingWrite<T>> = Vec::new();
        pending.push(PendingWrite { start_idx: 0, data });
        let r = ChunkedBuffer { max_size, unreserved, reserved: reserved_new(), pending, contents };
        proof {
            assert(r.chunks() =~= Map::<u128, (u32, u32, usize)>::empty());
            assert(r.uploads()[0].1 == data@);
            assert forall|i: int| 0 <= i < max_size implies #[trigger] free_contains(r.free_ranges(), i)
                || #[trigger] chunks_contain(r.chunks(), i) by {
                assert(in_range(i, r.free_ranges()[0].0 as int, r.free_ranges()[0].1 as int));
            }
        }
        r
    }

    /// `get` for data whose contents hash to `hash`.
    pub fn get_with_hash(&mut self, hash: u128, data: &[T]) -> (res: Result<ChunkHandle<T>, ChunkedBufferError>)
        requires
            old(self).wf(),
            data@.len() <= u32::MAX,
            old(self).chunks().contains_key(hash) ==> old(self).chunks()[hash].2 < isize::MAX,
        ensures
            final(self).wf(),
            old(self).get_spec(*final(self), hash, data@, res),
            old(self).get_contents_spec(*final(self), hash, data@),
            old(self).live_chunks_kept(*final(self)),
            !old(self).chunks().contains_key(hash) ==> (res matches Ok(h) ==> final(self).chunk_holds(h@, data@)),
            canonical(old(self).free_ranges()) ==> canonical(final(self).free_ranges()),
            sorted_apart(old(self).free_ranges()) ==> sorted_apart(final(self).free_ranges()),
    {
        let ghost free0 = self.free_ranges();
        if let Some(entry) = reserved_get(&self.reserved, hash) {
            let _ = reserved_insert(&mut self.reserved, hash, (entry.0, entry.1, entry.2 + 1));
            proof {
                lemma_share_chunk(free0, old(self).chunks(), self.max_size, hash, (entry.2 + 1) as usize);
            }
            return Ok(ChunkHandle { inner: ChunkHandleInner { start_idx: entry.0, size: entry.1, hash }, _phantom: PhantomData });
        }
        let size = data.len() as u32;
        let mut i: usize = 0;
        while i < self.unreserved.len()
            invariant
                self.unreserved@ == free0,
                free0 == old(self).free_ranges(),
                self.reserved == old(self).reserved,
                self.pending@ == old(self).pending@,
                self.contents@ == old(self).contents@,
                self.max_size == old(self).max_size,
                old(self).wf(),
                !old(self).chunks().contains_key(hash),
                size == data@.len(),
                0 <= i <= free0.len(),
                forall|j: int| 0 <= j < i ==> !#[trigger] fits(free0, j, size as int),
            decreases free0.len() - i,
        {
            let range = self.unreserved[i];
            proof {
                assert(free0[i as int].0 <= free0[i as int].1);
            }
            let available = range.1 - range.0;
            if available >= size {
                let start = range.0;
                if available == size {
                    self.unreserved.remove(i);
                } else {
                    self.unreserved.set(i, (range.0 + size, range.1));
                }
                let copy = vstd::slice::slice_to_vec(data);
                self.pending.push(PendingWrite { start_idx: start, data: copy });
                proof {
                    assert(range.1 <= self.max_size);
                }
                let ghost free1 = self.unreserved@;
                let ghost pending1 = self.pending@;
                let mut j: usize = 0;
                while j < data.len()
                    invariant
                        self.unreserved@ == free1,
                        self.pending@ == pending1,
                        self.reserved == old(self).reserved,
                        self.max_size == old(self).max_size,
                        j <= data@.len(),
                        data@.len() == size,
                        start + size <= self.max_size,
                        self.contents@.len() == self.max_size,
                        self.contents@ == overwrite(old(self).contents@, start as int, data@.subrange(0, j as int)),
                    decreases data@.len() - j,
                {
                    self.contents.set(start as usize + j, data[j]);
                    proof {
                        assert(self.contents@ =~= overwrite(old(self).contents@, start as int, data@.subrange(0, j + 1)));
                    }
                    j = j + 1;
                }
                proof {
                    assert(data@.subrange(0, data@.len() as int) =~= data@);
                    let c0 = old(self).contents@;
                    lemma_overwrite_items(c0, start as int, data@, start as int, start + size);
                    assert forall|h: u128| #[trigger] old(self).chunks().contains_key(h) implies chunk_items(
                        self.contents@, old(self).chunks()[h].0, old(self).chunks()[h].1)
                        == chunk_items(c0, old(self).chunks()[h].0, old(self).chunks()[h].1) by {
                        let e = old(self).chunks()[h];
                        assert(ranges_disjoint(free0[i as int].0 as int, free0[i as int].1 as int, e.0 as int, e.0 + e.1));
                        lemma_overwrite_items(c0, start as int, data@, e.0 as int, e.0 + e.1);
                    }
                }
                let _ = reserved_insert(&mut self.reserved, hash, (start, size, 1));
                proof {
                    assert(is_first_fit(free0, size as int, i as int));
                    lemma_first_fit_unique(free0, size as int, i as int);
                    lemma_take_front(free0, old(self).chunks(), self.max_size, i as int, size as int, hash);
                    if canonical(free0) {
                        lemma_take_front_canonical(free0, i as int, size as int);
                    }
                    if sorted_apart(free0) {
                        lemma_take_front_sorted_apart(free0, i as int, size as int);
                    }
                    assert(self.free_ranges() =~= take_front(free0, i as int, size as int));
                    assert(self.uploads() =~= old(self).uploads().push((start, data@)));
                }
                return Ok(ChunkHandle { inner: ChunkHandleInner { start_idx: start, size, hash }, _phantom: PhantomData });
            }
            i = i + 1;
        }
        proof {
            if has_fit(free0, size as int) {
                let k = choose|k: int| 0 <= k < free0.len() && #[trigger] fits(free0, k, size as int);
                assert(!fits(free0, k, size as int));
            }
        }
        Err(ChunkedBufferError::Full { size })
    }

    /// The chunk `(start, size)` holds exactly the records of `data`.
    fn chunk_matches(&self, start: u32, size: u32, data: &[T]) -> (r: bool)
        requires
            self.wf(),
            start + size <= self.capacity(),
        ensures
            r == (chunk_items(self.contents(), start, size) == data@),
    {
        if size as usize != data.len() {
            proof {
                assert(chunk_items(self.contents(), start, size).len() != data@.len());
            }
            return false;
        }
        let mut j: usize = 0;
        while j < data.len()
            invariant
                self.wf(),
                start + size <= self.capacity(),
                size == data@.len(),
                j <= data@.len(),
                forall|k: int| 0 <= k < j ==> self.contents()[start + k] == #[trigger] data@[k],
            decreases data@.len() - j,
        {
            if !self.contents[start as usize + j].same_contents(&data[j]) {
                proof {
                    assert(chunk_items(self.contents(), start, size)[j as int] != data@[j as int]);
                }
                return false;
            }
            j = j + 1;
        }
        proof {
            assert(chunk_items(self.contents(), start, size) =~= data@);
        }
        true
    }

    /// The key under which `data` is stored or goes: the first key from
    /// `hash` on (wrapping round) that is free or whose chunk holds exactly
    /// `data`.  Only when every key is taken by other contents is `hash`
    /// itself returned.
    fn find_key(&self, hash: u128, data: &[T]) -> (key: u128)
        requires
            self.wf(),
        ensures
            !self.chunks().contains_key(key) || chunk_items(self.contents(), self.chunks()[key].0, self.chunks()[key].1)
                == data@ || self.keys_exhausted(),
    {
        let mut key = hash;
        let mut tries: u128 = 0;
        loop
            invariant
                self.wf(),
                key == probe_key(hash, tries as int),
                forall|t: int|
                    0 <= t < tries ==> #[trigger] self.chunks().contains_key(probe_key(hash, t)) && chunk_items(
                        self.contents(),
                        self.chunks()[probe_key(hash, t)].0,
                        self.chunks()[probe_key(hash, t)].1,
                    ) != data@,
            decreases u128::MAX - tries,
        {
            let entry = reserved_get(&self.reserved, key);
            match entry {
                None => {
                    return key;
                },
                Some(e) => {
                    if self.chunk_matches(e.0, e.1, data) {
                        return key;
                    }
                    if tries == u128::MAX {
                        proof {
                            assert forall|k: u128| #[trigger] self.chunks().contains_key(k) by {
                                let t: int = if k >= hash { k - hash } else { k + 0x1_0000_0000_0000_0000_0000_0000_0000_0000int - hash };
                                assert(probe_key(hash, t) == k);
                                if t < tries {
                                    assert(self.chunks().contains_key(probe_key(hash, t)));
                                }
                            }
                        }
                        return hash;
                    }
                    key = if key == u128::MAX { 0 } else { key + 1 };
                    tries = tries + 1;
                },
            }
        }
    }

    /// Stores `data` in the buffer.  If a live chunk found under the content
    /// hash holds exactly these records, it is handed out again; otherwise
    /// the first free range long enough gives up its front, and the data is
    /// queued for upload there (under the next free key when the hash's key
    /// is taken by other contents).  When the last handle of a chunk is released, its range returns
    /// to the free list; the old contents stay until they are overwritten.
    pub fn get(&mut self, data: &[T]) -> (res: Result<ChunkHandle<T>, ChunkedBufferError>)
        requires
            old(self).wf(),
            old(self).handles_below_limit(),
            data@.len() <= u32::MAX,
        ensures
            final(self).wf(),
            old(self).stored(*final(self), data@, res),
            has_fit(old(self).free_ranges(), data@.len() as int) ==> res is Ok,
            canonical(old(self).free_ranges()) ==> canonical(final(self).free_ranges()),
            sorted_apart(old(self).free_ranges()) ==> sorted_apart(final(self).free_ranges()),
            exists|key: u128|
                #[trigger] old(self).get_spec(*final(self), key, data@, res) && old(self).get_contents_spec(
                    *final(self),
                    key,
                    data@,
                ),
            res matches Ok(h) ==> final(self).chunk_holds(h@, data@) || old(self).keys_exhausted(),
            old(self).live_chunks_kept(*final(self)),
    {
        let hash = hash128(data);
        let key = self.find_key(hash, data);
        let res = self.get_with_hash(key, data);
        proof {
            assert(old(self).get_spec(*self, key, data@, res));
        }
        res
    }

    /// Another handle to the chunk of `handle` (one more live handle).
    pub fn clone_handle(&mut self, handle: &ChunkHandle<T>) -> (r: ChunkHandle<T>)
        requires
            old(self).wf(),
            old(self).holds(handle@),
            old(self).chunks()[handle@.hash].2 < isize::MAX,
        ensures
            final(self).wf(),
            r@ == handle@,
            final(self).chunks() == old(self).chunks().insert(
                handle@.hash,
                (handle@.start_idx, handle@.size, (old(self).chunks()[handle@.hash].2 + 1) as usize),
            ),
            final(self).free_ranges() == old(self).free_ranges(),
            final(self).uploads() == old(self).uploads(),
            final(self).capacity() == old(self).capacity(),
            final(self).contents() == old(self).contents(),
    {
        let hash = handle.inner.hash;
        let entry = reserved_get(&self.reserved, hash);
        let count = match entry {
            Some(e) => e.2,
            None => 0,
        };
        let _ = reserved_insert(&mut self.reserved, hash, (handle.inner.start_idx, handle.inner.size, count + 1));
        proof {
            lemma_share_chunk(old(self).free_ranges(), old(self).chunks(), self.max_size, hash, (count + 1) as usize);
        }
        ChunkHandle { inner: handle.inner, _phantom: PhantomData }
    }

    /// Gives up `handle`.  When it was the chunk's last handle, the chunk's
    /// range returns to the free list, merged with the free ranges it
    /// touches; its old contents are simply overwritten later.
    pub fn release(&mut self, handle: ChunkHandle<T>)
        requires
            old(self).wf(),
            old(self).holds(handle@),
        ensures
            final(self).wf(),
            old(self).release_spec(*final(self), handle@),
            final(self).contents() == old(self).contents(),
            old(self).chunks()[handle@.hash].2 == 1 ==> forall|i: int|
                #![trigger in_range(i, handle@.start_idx as int, handle@.start_idx + handle@.size)]
                in_range(i, handle@.start_idx as int, handle@.start_idx + handle@.size) ==> free_contains(
                    final(self).free_ranges(),
                    i,
                ),
            canonical(old(self).free_ranges()) && handle@.size > 0 ==> canonical(final(self).free_ranges()),
            sorted_apart(old(self).free_ranges()) && clear_around(
                old(self).free_ranges(),
                handle@.start_idx as int,
                handle@.start_idx + handle@.size,
            ) ==> sorted_apart(final(self).free_ranges()),
    {
        let hash = handle.inner.hash;
        let entry = reserved_get(&self.reserved, hash);
        let count = match entry {
            Some(e) => e.2,
            None => 0,
        };
        if count > 1 {
            let _ = reserved_insert(&mut self.reserved, hash, (handle.inner.start_idx, handle.inner.size, count - 1));
            proof {
                lemma_share_chunk(old(self).free_ranges(), old(self).chunks(), self.max_size, hash, (count - 1) as usize);
            }
            return;
        }
        let _ = reserved_remove(&mut self.reserved, hash);
        let ghost free0 = old(self).free_ranges();
        proof {
            assert(free0 == self.unreserved@);
            lemma_release_range(free0, old(self).chunks(), self.max_size, hash);
            if canonical(free0) && handle@.size > 0 {
                lemma_release_canonical(free0, old(self).chunks(), self.max_size, hash);
            }
            if sorted_apart(free0) && clear_around(free0, handle@.start_idx as int, handle@.start_idx + handle@.size) {
                lemma_release_sorted_apart(free0, handle@.start_idx, (handle@.start_idx + handle@.size) as u32);
            }
        }
        let start = handle.inner.start_idx;
        let end = handle.inner.start_idx + handle.inner.size;

        // Advance to the first range that does not start below the freed one.
        let mut i: usize = 0;
        while i < self.unreserved.len() && self.unreserved[i].0 < start
            invariant
                self.unreserved@ == free0,
                0 <= i <= free0.len(),
                forall|j: int| 0 <= j < i ==> (#[trigger] free0[j]).0 < start,
            decreases free0.len() - i,
        {
            i = i + 1;
        }
        proof {
            assert(is_seek(free0, start as int, i as int));
            lemma_seek_unique(free0, start as int, i as int);
        }

        // Does the previous range end exactly where the freed one starts?
        let left_merged = if i > 0 && self.unreserved[i - 1].1 == start {
            let prev = self.unreserved[i - 1];
            self.unreserved.set(i - 1, (prev.0, end));
            true
        } else {
            false
        };

        // Does the current range start exactly where the freed one ends?
        let right_touches = i < self.unreserved.len() && self.unreserved[i].0 == end;

        if left_merged && right_touches {
            // fuse the extended previous range with the current one
            let next_end = self.unreserved[i].1;
            self.unreserved.remove(i);
            let prev = self.unreserved[i - 1];
            self.unreserved.set(i - 1, (prev.0, next_end));
        } else if left_merged {
            // already absorbed into the previous range
        } else if right_touches {
            let cur = self.unreserved[i];
            self.unreserved.set(i, (start, cur.1));
        } else {
            self.unreserved.insert(i, (start, end));
        }
        proof {
            assert(self.free_ranges() =~= freed_ranges(free0, start, end));
            if old(self).chunks()[hash].2 == 1 {
                assert forall|x: int| #![trigger in_range(x, start as int, start + handle@.size)]
                    in_range(x, start as int, start + handle@.size) implies free_contains(self.free_ranges(), x) by {
                    assert(0 <= x < self.max_size);
                    if chunks_contain(self.chunks(), x) {
                        let h = choose|h: u128| self.chunks().contains_key(h) && #[trigger] in_range(
                            x, self.chunks()[h].0 as int, self.chunks()[h].0 + self.chunks()[h].1);
                        assert(old(self).chunks().contains_key(h) && old(self).chunks().contains_key(hash) && h != hash);
                    }
                }
            }
        }
    }

    /// Hands over the writes that still have to reach the GPU, oldest first.
    pub fn take_pending_writes(&mut self) -> (r: Vec<PendingWrite<T>>)
        requires
            old(self).wf(),
        ensures
            final(self).wf(),
            r@.map_values(|w: PendingWrite<T>| (w.start_idx, w.data@)) == old(self).uploads(),
            final(self).uploads() == Seq::<(u32, Seq<T>)>::empty(),
            final(self).chunks() == old(self).chunks(),
            final(self).free_ranges() == old(self).free_ranges(),
            final(self).capacity() == old(self).capacity(),
            final(self).contents() == old(self).contents(),
    {
        let mut r: Vec<PendingWrite<T>> = Vec::new();
        std::mem::swap(&mut r, &mut self.pending);
        proof {
            assert(self.uploads() =~= Seq::<(u32, Seq<T>)>::empty());
        }
        r
    }
}


// ---------------------------------------------------------------------------
// Laws.
// ---------------------------------------------------------------------------

/// Every index of a consistent buffer is owned exactly once: it is either in
/// a free range or in a live chunk, never both, and never in two free ranges
/// or two chunks.
pub proof fn lemma_index_owned_once<T>(buf: &ChunkedBuffer<T>, i: int)
    requires
        buf.wf(),
        0 <= i < buf.capacity(),
    ensures
        free_contains(buf.free_ranges(), i) != chunks_contain(buf.chunks(), i),
        forall|j: int, k: int|
            0 <= j < buf.free_ranges().len() && 0 <= k < buf.free_ranges().len() && #[trigger] in_range(
                i,
                buf.free_ranges()[j].0 as int,
                buf.free_ranges()[j].1 as int,
            ) && #[trigger] in_range(i, buf.free_ranges()[k].0 as int, buf.free_ranges()[k].1 as int) ==> j == k,
        forall|g: u128, h: u128|
            buf.chunks().contains_key(g) && buf.chunks().contains_key(h) && #[trigger] in_range(
                i,
                buf.chunks()[g].0 as int,
                buf.chunks()[g].0 + buf.chunks()[g].1,
            ) && #[trigger] in_range(i, buf.chunks()[h].0 as int, buf.chunks()[h].0 + buf.chunks()[h].1) ==> g == h,
{
    let free = buf.free_ranges();
    let chunks = buf.chunks();
    if free_contains(free, i) && chunks_contain(chunks, i) {
        let k = choose|k: int| 0 <= k < free.len() && #[trigger] in_range(i, free[k].0 as int, free[k].1 as int);
        let h = choose|h: u128| chunks.contains_key(h) && #[trigger] in_range(i, chunks[h].0 as int, chunks[h].0 + chunks[h].1);
        assert(ranges_disjoint(free[k].0 as int, free[k].1 as int, chunks[h].0 as int, chunks[h].0 + chunks[h].1));
    }
    assert forall|j: int, k: int|
        0 <= j < free.len() && 0 <= k < free.len() && #[trigger] in_range(i, free[j].0 as int, free[j].1 as int)
            && #[trigger] in_range(i, free[k].0 as int, free[k].1 as int) implies j == k by {
        if j != k {
            assert(ranges_disjoint(free[j].0 as int, free[j].1 as int, free[k].0 as int, free[k].1 as int));
        }
    }
    assert forall|g: u128, h: u128|
        chunks.contains_key(g) && chunks.contains_key(h) && #[trigger] in_range(i, chunks[g].0 as int, chunks[g].0 + chunks[g].1)
            && #[trigger] in_range(i, chunks[h].0 as int, chunks[h].0 + chunks[h].1) implies g == h by {
        if g != h {
            assert(ranges_disjoint(chunks[g].0 as int, chunks[g].0 + chunks[g].1, chunks[h].0 as int, chunks[h].0 + chunks[h].1));
        }
    }
}

/// Two consistent buffers of one size with the same live chunks have the
/// same free indices.
pub proof fn lemma_free_indices_follow_chunks<T>(a: &ChunkedBuffer<T>, b: &ChunkedBuffer<T>)
    requires
        a.wf(),
        b.wf(),
        a.capacity() == b.capacity(),
        a.chunks() == b.chunks(),
    ensures
        forall|i: int| #[trigger] free_contains(a.free_ranges(), i) == free_contains(b.free_ranges(), i),
{
    assert forall|i: int| #[trigger] free_contains(a.free_ranges(), i) == free_contains(b.free_ranges(), i) by {
        if 0 <= i < a.capacity() {
            lemma_index_owned_once(a, i);
            lemma_index_owned_once(b, i);
        } else {
            if free_contains(a.free_ranges(), i) {
                let k = choose|k: int| 0 <= k < a.free_ranges().len() && #[trigger] in_range(
                    i, a.free_ranges()[k].0 as int, a.free_ranges()[k].1 as int);
                assert(a.free_ranges()[k].1 <= a.capacity());
            }
            if free_contains(b.free_ranges(), i) {
                let k = choose|k: int| 0 <= k < b.free_ranges().len() && #[trigger] in_range(
                    i, b.free_ranges()[k].0 as int, b.free_ranges()[k].1 as int);
                assert(b.free_ranges()[k].1 <= b.capacity());
            }
        }
    }
}

/// Storing data whose hash is already stored hands out the stored chunk:
/// asking twice for the same contents gives the same place.
pub proof fn lemma_same_contents_same_chunk<T>(
    b0: ChunkedBuffer<T>,
    b1: ChunkedBuffer<T>,
    b2: ChunkedBuffer<T>,
    hash: u128,
    d1: Seq<T>,
    d2: Seq<T>,
    r1: Result<ChunkHandle<T>, ChunkedBufferError>,
    r2: Result<ChunkHandle<T>, ChunkedBufferError>,
)
    requires
        b0.get_spec(b1, hash, d1, r1),
        b1.get_spec(b2, hash, d2, r2),
        r1 is Ok,
    ensures
        r2 is Ok,
        r2->Ok_0@ == r1->Ok_0@,
        b2.free_ranges() == b1.free_ranges(),
        b2.chunks()[hash].2 == (b1.chunks()[hash].2 + 1) as usize,
{
}

/// A chunk that `get` hands out holds the data asked for, and later calls
/// leave it so while it is live: two successive `get` calls that hand out the
/// same place were asked for the same data.  (The one exception is a buffer in
/// which every content key is already taken.)
pub proof fn lemma_same_chunk_same_contents<T>(
    b0: ChunkedBuffer<T>,
    b1: ChunkedBuffer<T>,
    b2: ChunkedBuffer<T>,
    d1: Seq<T>,
    d2: Seq<T>,
    r1: Result<ChunkHandle<T>, ChunkedBufferError>,
    r2: Result<ChunkHandle<T>, ChunkedBufferError>,
)
    requires
        b0.stored(b1, d1, r1),
        r1 matches Ok(h) ==> b1.chunk_holds(h@, d1) || b0.keys_exhausted(),
        b1.stored(b2, d2, r2),
        r2 matches Ok(h) ==> b2.chunk_holds(h@, d2) || b1.keys_exhausted(),
        b1.live_chunks_kept(b2),
        !b0.keys_exhausted(),
        !b1.keys_exhausted(),
        r1 is Ok,
        r2 is Ok,
    ensures
        b2.chunk_holds(r1->Ok_0@, d1),
        b2.chunk_holds(r2->Ok_0@, d2),
        r1->Ok_0@.start_idx == r2->Ok_0@.start_idx && r1->Ok_0@.size == r2->Ok_0@.size ==> d1 == d2,
        d1 != d2 ==> r1->Ok_0@.start_idx != r2->Ok_0@.start_idx || r1->Ok_0@.size != r2->Ok_0@.size,
{
    let h1 = r1->Ok_0@;
    let key = choose|key: u128| #[trigger] b0.get_spec(b1, key, d1, r1);
    assert(b0.get_spec(b1, key, d1, r1));
    assert(b1.chunks().contains_key(h1.hash) && b1.chunks()[h1.hash].0 == h1.start_idx && b1.chunks()[h1.hash].1 == h1.size);
}

/// The handle that a successful `get` hands out is live in the buffer
/// afterwards, at the place it names, and lies inside the buffer.
pub proof fn lemma_stored_handle_live<T>(
    b0: ChunkedBuffer<T>,
    b1: ChunkedBuffer<T>,
    data: Seq<T>,
    res: Result<ChunkHandle<T>, ChunkedBufferError>,
)
    requires
        b0.stored(b1, data, res),
        b1.wf(),
        res is Ok,
    ensures
        b1.holds(res->Ok_0@),
        res->Ok_0@.start_idx + res->Ok_0@.size <= b1.contents().len(),
{
    let key = choose|key: u128| #[trigger] b0.get_spec(b1, key, data, res);
    assert(b0.get_spec(b1, key, data, res));
    assert(b1.chunks().contains_key(res->Ok_0@.hash));
}

/// Storing new contents and then releasing the only handle to them gives
/// back the buffer's live chunks and its free indices as they were.
pub proof fn lemma_get_release_roundtrip<T>(
    b0: ChunkedBuffer<T>,
    b1: ChunkedBuffer<T>,
    b2: ChunkedBuffer<T>,
    hash: u128,
    data: Seq<T>,
    res: Result<ChunkHandle<T>, ChunkedBufferError>,
)
    requires
        b0.wf(),
        b1.wf(),
        b2.wf(),
        !b0.chunks().contains_key(hash),
        b0.get_spec(b1, hash, data, res),
        res is Ok,
        b1.release_spec(b2, res->Ok_0@),
    ensures
        b2.chunks() == b0.chunks(),
        forall|i: int| #[trigger] free_contains(b2.free_ranges(), i) == free_contains(b0.free_ranges(), i),
{
    assert(b2.chunks() =~= b0.chunks());
    lemma_free_indices_follow_chunks(&b0, &b2);
}

/// Handing out another handle and then releasing one gives back the chunk
/// map and the free list unchanged.
pub proof fn lemma_clone_release_roundtrip<T>(
    b0: ChunkedBuffer<T>,
    b1: ChunkedBuffer<T>,
    b2: ChunkedBuffer<T>,
    handle: ChunkHandleInner,
)
    requires
        b0.wf(),
        b0.holds(handle),
        b0.chunks()[handle.hash].2 < isize::MAX,
        b1.chunks() == b0.chunks().insert(
            handle.hash,
            (handle.start_idx, handle.size, (b0.chunks()[handle.hash].2 + 1) as usize),
        ),
        b1.free_ranges() == b0.free_ranges(),
        b1.release_spec(b2, handle),
    ensures
        b2.chunks() == b0.chunks(),
        b2.free_ranges() == b0.free_ranges(),
{
    assert(b2.chunks() =~= b0.chunks());
}

} // verus!
