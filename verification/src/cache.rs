//! Block cache: at most one in-memory copy of any given block while it is
//! resident, whole-block reads and writes against the device, and an
//! eviction policy that never drops an entry some caller still holds.
//!
//! Residency and recency live in an `LruCache` from block id to slot
//! index; the entries themselves sit in a slot vector beside an explicit
//! reference counter per slot, consulted before eviction.

use vstd::prelude::*;

use crate::device::DiskImage;
use crate::lru_api::{
    lru_cap, lru_get, lru_len, lru_map, lru_new_unbounded, lru_pairs, lru_peek, lru_peek_lru,
    lru_pop_lru, lru_put, lru_used, remove_key,
};
use crate::{BLOCK_CACHE_LIMIT, BLOCK_SIZE};

verus! {

/// One cached block: its bytes, which block it holds, and whether it has
/// been written since it was loaded or last synced.
pub struct BlockCache {
    cache: Vec<u8>,
    block_id: usize,
    modified: bool,
}

/// What every cache entry offers: a byte view, an identity, a dirty flag,
/// reads and writes at sub-block offsets, and write-back.
pub trait Cache {
    /// The cached bytes.
    spec fn data(&self) -> Seq<u8>;

    /// The id of the block the bytes belong to.
    spec fn id(&self) -> int;

    /// Whether the bytes have been modified since the last write-back.
    spec fn dirty(&self) -> bool;

    /// Copies `len` bytes starting at `offset` out of the cache.
    fn read(&self, offset: usize, len: usize) -> (r: Vec<u8>)
        requires
            offset + len <= self.data().len(),
        ensures
            r@ =~= self.data().subrange(offset as int, offset as int + len as int),
    ;

    /// Overwrites the bytes at `offset` with `src` and marks the entry
    /// dirty.
    fn modify(&mut self, offset: usize, src: &[u8])
        requires
            offset + src@.len() <= old(self).data().len(),
        ensures
            final(self).data().len() == old(self).data().len(),
            forall|i: int|
                0 <= i < final(self).data().len() ==> final(self).data()[i] == (if offset <= i
                    < offset + src@.len() {
                    src@[i - offset]
                } else {
                    old(self).data()[i]
                }),
            final(self).id() == old(self).id(),
            final(self).dirty(),
    ;

    /// Writes the block back to the device if it is dirty; afterwards the
    /// entry is clean.
    fn sync(&mut self, device: &mut DiskImage)
        requires
            old(self).data().len() == BLOCK_SIZE,
            0 <= old(self).id() < old(device).spec_num_blocks(),
        ensures
            final(self).data() == old(self).data(),
            final(self).id() == old(self).id(),
            !final(self).dirty(),
            final(device).spec_num_blocks() == old(device).spec_num_blocks(),
            old(self).dirty() ==> final(device).block_view(old(self).id()) =~= old(self).data(),
            forall|b: int|
                0 <= b < old(device).spec_num_blocks() && b != old(self).id() ==> final(device).block_view(b) =~= old(device).block_view(b),
            !old(self).dirty() ==> final(device).bytes() == old(device).bytes(),
    ;
}

impl BlockCache {
    /// Loads block `block_id` from the device into a fresh, clean entry.
    pub fn new(block_id: usize, block_device: &DiskImage) -> (r: Self)
        requires
            block_id < block_device.spec_num_blocks(),
        ensures
            r.data() =~= block_device.block_view(block_id as int),
            r.data().len() == BLOCK_SIZE,
            r.id() == block_id,
            !r.dirty(),
    {
        let mut cache: Vec<u8> = Vec::new();
        block_device.read_block(block_id, &mut cache);
        Self { cache, block_id, modified: false }
    }
}

impl Cache for BlockCache {
    closed spec fn data(&self) -> Seq<u8> {
        self.cache@
    }

    closed spec fn id(&self) -> int {
        self.block_id as int
    }

    closed spec fn dirty(&self) -> bool {
        self.modified
    }

    fn read(&self, offset: usize, len: usize) -> (r: Vec<u8>) {
        let cl = self.cache.len();
        let mut r: Vec<u8> = Vec::new();
        let mut i: usize = 0;
        while i < len
            invariant
                i <= len,
                offset + len <= cl,
                cl == self.cache@.len(),
                r@ =~= self.cache@.subrange(offset as int, offset as int + i as int),
            decreases len - i,
        {
            r.push(self.cache[offset + i]);
            assert(r@ =~= self.cache@.subrange(offset as int, offset as int + i + 1));
            i = i + 1;
        }
        r
    }

    fn modify(&mut self, offset: usize, src: &[u8]) {
        let cl = self.cache.len();
        let n = src.len();
        let mut i: usize = 0;
        while i < n
            invariant
                i <= n,
                n == src@.len(),
                offset + n <= cl,
                cl == self.cache@.len(),
                self.cache@.len() == old(self).cache@.len(),
                self.block_id == old(self).block_id,
                self.modified == old(self).modified,
                forall|j: int|
                    0 <= j < self.cache@.len() ==> self.cache@[j] == (if offset <= j < offset
                        + i {
                        src@[j - offset]
                    } else {
                        old(self).cache@[j]
                    }),
            decreases n - i,
        {
            self.cache.set(offset + i, src[i]);
            i = i + 1;
        }
        self.modified = true;
    }

    fn sync(&mut self, device: &mut DiskImage) {
        if self.modified {
            self.modified = false;
            device.write_block(self.block_id, self.cache.as_slice());
        }
    }
}

/// A checkout token for one resident block, handed out by
/// `get_block_cache` and given back through `release`.
#[derive(Debug, Clone, Copy, PartialEq, Eq, Structural)]
pub struct CacheHandle {
    pub block_id: usize,
}

/// The cache manager: the residency/recency table, the entry slots, one
/// live-reference counter per slot, and the list of slots free for reuse.
pub struct BlockCacheManager {
    lru: lru::LruCache<usize, usize>,
    slots: Vec<BlockCache>,
    refs: Vec<usize>,
    free: Vec<usize>,
}

impl BlockCacheManager {
    /// Whether block `b` is resident.
    pub closed spec fn is_resident(self, b: usize) -> bool {
        lru_map(self.lru).dom().contains(b)
    }

    /// The slot holding block `b`.
    pub closed spec fn slot_of(self, b: usize) -> int {
        lru_map(self.lru)[b] as int
    }

    /// The cached bytes of resident block `b`.
    pub closed spec fn data_of(self, b: usize) -> Seq<u8> {
        self.slots[self.slot_of(b)].data()
    }

    /// Whether resident block `b` has unwritten changes.
    pub closed spec fn dirty_of(self, b: usize) -> bool {
        self.slots[self.slot_of(b)].dirty()
    }

    /// How many outstanding handles block `b` has.
    pub closed spec fn refs_of(self, b: usize) -> nat {
        self.refs[self.slot_of(b)] as nat
    }

    /// How many blocks are resident.
    pub closed spec fn resident_count(self) -> nat {
        lru_used(self.lru).len()
    }

    /// The current content of block `b` as the engine sees it: the cached
    /// bytes while resident, the device's bytes otherwise.
    pub open spec fn cur_block(self, d: DiskImage, b: usize) -> Seq<u8> {
        if self.is_resident(b) {
            self.data_of(b)
        } else {
            d.block_view(b as int)
        }
    }

    /// Structural well-formedness of the manager.
    pub closed spec fn wf(self) -> bool {
        let m = lru_map(self.lru);
        let u = lru_used(self.lru);
        &&& lru_cap(self.lru) == usize::MAX
        &&& u.no_duplicates()
        &&& forall|b: usize|
            #![trigger m.dom().contains(b)]
            #![trigger u.contains(b)]
            m.dom().contains(b) == u.contains(b)
        &&& self.slots.len() == self.refs.len()
        &&& forall|b: usize| #[trigger]
            m.dom().contains(b) ==> m[b] < self.slots.len() && self.slots[m[b] as int].id() == b
                && self.slots[m[b] as int].data().len() == BLOCK_SIZE
        &&& forall|b1: usize, b2: usize|
            m.dom().contains(b1) && m.dom().contains(b2) && b1 != b2 ==> #[trigger] m[b1]
                != #[trigger] m[b2]
        &&& self.free@.no_duplicates()
        &&& forall|i: int| 0 <= i < self.free@.len() ==> #[trigger] self.free@[i] < self.slots.len()
        &&& forall|i: int, b: usize|
            #![trigger self.free@[i], m[b]]
            0 <= i < self.free@.len() && m.dom().contains(b) ==> m[b] != self.free@[i]
        &&& u.len() + self.free@.len() <= self.slots.len()
    }

    /// No block is checked out: every reference counter is zero.
    pub open spec fn quiescent(self) -> bool {
        forall|b: usize| #[trigger] self.is_resident(b) ==> self.refs_of(b) == 0
    }

    /// Every resident block id lies below the device's block count.
    pub open spec fn bounded(self, nb: int) -> bool {
        forall|b: usize| #[trigger] self.is_resident(b) ==> (b as int) < nb
    }

    /// Every clean resident entry agrees with the device: together with
    /// `wf` this makes the cache a faithful overlay.
    pub open spec fn coherent(self, d: DiskImage) -> bool {
        forall|b: usize|
            #[trigger] self.is_resident(b) && !self.dirty_of(b) ==> self.data_of(b)
                == d.block_view(b as int)
    }

    /// An empty manager.
    pub fn new() -> (r: Self)
        ensures
            r.wf(),
            forall|b: usize| !r.is_resident(b),
            r.resident_count() == 0,
    {
        let r = Self {
            lru: lru_new_unbounded(),
            slots: Vec::new(),
            refs: Vec::new(),
            free: Vec::new(),
        };
        proof {
            assert(forall|b: usize| !lru_map(r.lru).dom().contains(b));
            assert(forall|b: usize| !lru_used(r.lru).contains(b));
        }
        r
    }

    /// Evicts the least recently used entry if nothing references it,
    /// syncing it to the device first; a referenced entry stays, and the
    /// combined content of every block is unchanged.
    fn try_evict_lru(&mut self, device: &mut DiskImage)
        requires
            old(self).wf(),
            old(self).bounded(old(device).spec_num_blocks()),
            old(self).coherent(*old(device)),
        ensures
            final(self).wf(),
            final(self).bounded(final(device).spec_num_blocks()),
            final(self).coherent(*final(device)),
            final(device).spec_num_blocks() == old(device).spec_num_blocks(),
            forall|b: usize| final(self).is_resident(b) ==> old(self).is_resident(b),
            forall|b: usize|
                old(self).is_resident(b) && old(self).refs_of(b) > 0 ==> final(self).is_resident(b),
            forall|b: usize|
                final(self).is_resident(b) ==> final(self).data_of(b) == old(self).data_of(b)
                    && final(self).dirty_of(b) == old(self).dirty_of(b) && final(self).refs_of(b)
                    == old(self).refs_of(b),
            forall|b: usize|
                (b as int) < old(device).spec_num_blocks() ==> final(self).cur_block(
                    *final(device),
                    b,
                ) =~= old(self).cur_block(*old(device), b),
    {
        let ghost m0 = lru_map(self.lru);
        let ghost u0 = lru_used(self.lru);
        let lru_pair = lru_peek_lru(&self.lru);
        if let Some((lru_b, lru_slot)) = lru_pair {
            proof {
                assert(u0.contains(u0[0]));
                assert(m0.dom().contains(lru_b));
                assert(lru_slot == m0[lru_b]);
            }
            if self.refs[lru_slot] == 0 {
                lru_pop_lru(&mut self.lru);
                proof {
                    lemma_pop_contains(u0, lru_b);
                    assert forall|b: usize|
                        lru_map(self.lru).dom().contains(b) == lru_used(self.lru).contains(
                            b,
                        ) by {
                        assert(lru_map(self.lru).dom().contains(b) == (m0.dom().contains(b) && b
                            != lru_b));
                    }
                    assert(m0 == lru_map(old(self).lru));
                    assert(m0.dom().contains(lru_b));
                    assert(old(self).is_resident(lru_b));
                    assert((lru_b as int) < old(device).spec_num_blocks());
                }
                self.slots[lru_slot].sync(device);
                self.free.push(lru_slot);
                proof {
                    let m1 = lru_map(self.lru);
                    assert(self.slots@ =~= old(self).slots@.update(
                        lru_slot as int,
                        self.slots@[lru_slot as int],
                    ));
                    assert forall|i: int, b: usize|
                        #![trigger self.free@[i], m1[b]]
                        0 <= i < self.free@.len() && m1.dom().contains(b) implies m1[b]
                        != self.free@[i] by {
                        if i == self.free@.len() - 1 {
                            assert(self.free@[i] == lru_slot);
                            assert(m0.dom().contains(b) && b != lru_b);
                            assert(m0[b] != m0[lru_b]);
                        } else {
                            assert(self.free@[i] == old(self).free@[i]);
                            assert(m0.dom().contains(b));
                        }
                    }
                    assert(!old(self).free@.contains(lru_slot)) by {
                        if old(self).free@.contains(lru_slot) {
                            let j = choose|j: int|
                                0 <= j < old(self).free@.len() && old(self).free@[j] == lru_slot;
                            assert(m0[lru_b] != old(self).free@[j]);
                        }
                    }
                    lemma_push_nodup(old(self).free@, lru_slot);
                    assert(final(self).wf()) by {
                        assert forall|b: usize| #[trigger]
                            lru_map(self.lru).dom().contains(b) implies lru_map(self.lru)[b]
                            < self.slots.len() && self.slots[lru_map(self.lru)[b] as int].id() == b
                            && self.slots[lru_map(self.lru)[b] as int].data().len()
                            == BLOCK_SIZE by {
                            assert(m0.dom().contains(b));
                            assert(lru_map(self.lru)[b] == m0[b]);
                        }
                    }
                    assert forall|b: usize|
                        (b as int) < old(device).spec_num_blocks() implies final(self).cur_block(
                        *final(device),
                        b,
                    ) =~= old(self).cur_block(*old(device), b) by {
                        if b == lru_b {
                            if old(self).dirty_of(b) {
                            } else {
                                assert(old(self).data_of(b) == old(device).block_view(b as int));
                            }
                        } else if old(self).is_resident(b) {
                            assert(m0[b] != m0[lru_b]);
                        }
                    }
                    assert forall|b: usize|
                        final(self).is_resident(b) implies old(self).is_resident(b) && final(self).data_of(b) == old(self).data_of(b) && final(self).dirty_of(b) == old(self).dirty_of(b) && final(self).refs_of(b) == old(self).refs_of(b) by {
                        assert(m0.dom().contains(b) && b != lru_b);
                        assert(m0[b] != m0[lru_b]);
                    }
                    assert forall|b: usize| #[trigger]
                        final(self).is_resident(b) implies (b as int) < final(device).spec_num_blocks() by {
                        assert(old(self).is_resident(b));
                    }
                    assert(final(self).coherent(*final(device))) by {
                        assert forall|b: usize|
                            #[trigger] final(self).is_resident(b) && !final(self).dirty_of(
                                b,
                            ) implies final(self).data_of(b) == final(device).block_view(
                            b as int,
                        ) by {
                            assert(old(self).is_resident(b) && b != lru_b);
                            assert(m0[b] != m0[lru_b]);
                            assert(old(self).data_of(b) == old(device).block_view(b as int));
                            assert((b as int) < old(device).spec_num_blocks());
                            assert(final(device).block_view(b as int) =~= old(device).block_view(
                                b as int,
                            ));
                        }
                    }
                }
            }
        }
    }

    /// Stores a freshly loaded entry for a block that is not resident,
    /// reusing a free slot when one exists; the new entry starts with one
    /// reference.
    fn insert_entry(&mut self, block_id: usize, entry: BlockCache)
        requires
            old(self).wf(),
            !old(self).is_resident(block_id),
            entry.data().len() == BLOCK_SIZE,
            entry.id() == block_id,
            !entry.dirty(),
        ensures
            final(self).wf(),
            forall|b: usize|
                final(self).is_resident(b) == (old(self).is_resident(b) || b == block_id),
            final(self).data_of(block_id) == entry.data(),
            !final(self).dirty_of(block_id),
            final(self).refs_of(block_id) == 1,
            forall|b: usize|
                b != block_id && old(self).is_resident(b) ==> final(self).data_of(b) == old(self).data_of(b) && final(self).dirty_of(b) == old(self).dirty_of(b) && final(self).refs_of(b) == old(self).refs_of(b),
    {
        let ghost m0 = lru_map(self.lru);
        let ghost u0 = lru_used(self.lru);
        let slot: usize;
        let popped = self.free.pop();
        if let Some(s) = popped {
            slot = s;
            proof {
                assert(old(self).free@[old(self).free@.len() - 1] == s);
                assert(s < self.slots.len());
            }
            self.slots[slot] = entry;
            self.refs[slot] = 1;
            proof {
                assert(self.slots@ =~= old(self).slots@.update(slot as int, self.slots@[slot as int]));
                assert(self.refs@ =~= old(self).refs@.update(slot as int, 1usize));
            }
        } else {
            self.slots.push(entry);
            self.refs.push(1);
            slot = self.slots.len() - 1;
        }
        proof {
            assert(u0.len() < usize::MAX) by {
                if popped is Some {
                    assert(u0.len() + old(self).free@.len() <= self.slots.len());
                } else {
                    assert(u0.len() <= old(self).slots.len());
                }
            }
            assert(!u0.contains(block_id));
        }
        lru_put(&mut self.lru, block_id, slot);
        proof {
            let m1 = lru_map(self.lru);
            let u1 = lru_used(self.lru);
            lemma_remove_key(u0, block_id);
            assert(remove_key(u0, block_id) =~= u0);
            assert(u1 =~= u0.push(block_id));
            lemma_push_nodup(u0, block_id);
            assert forall|b: usize| m1.dom().contains(b) == u1.contains(b) by {
                if b == block_id {
                    assert(u1[u1.len() - 1] == block_id);
                } else {
                    if u0.contains(b) {
                        let j = choose|j: int| 0 <= j < u0.len() && u0[j] == b;
                        assert(u1[j] == b);
                    }
                    if u1.contains(b) {
                        let j = choose|j: int| 0 <= j < u1.len() && u1[j] == b;
                        assert(j < u0.len());
                        assert(u0[j] == b);
                    }
                    assert(m1.dom().contains(b) == m0.dom().contains(b));
                }
            }
            assert forall|i: int, b: usize|
                #![trigger self.free@[i], m1[b]]
                0 <= i < self.free@.len() && m1.dom().contains(b) implies m1[b] != self.free@[
                i] by {
                if popped is Some {
                    assert(self.free@[i] == old(self).free@[i]);
                } else {
                    assert(self.free@[i] == old(self).free@[i]);
                }
                if b == block_id {
                    if popped is Some {
                        assert(self.free@[i] != slot) by {
                            assert(old(self).free@[old(self).free@.len() - 1] == slot);
                        }
                    } else {
                        assert(self.free@[i] < old(self).slots.len());
                    }
                } else {
                    assert(m0.dom().contains(b));
                    assert(m1[b] == m0[b]);
                }
            }
            assert(final(self).wf()) by {
                assert forall|b1: usize, b2: usize|
                    m1.dom().contains(b1) && m1.dom().contains(b2) && b1 != b2 implies #[trigger] m1[b1] != #[trigger] m1[b2] by {
                    if b1 != block_id && b2 != block_id {
                        assert(m0.dom().contains(b1) && m0.dom().contains(b2));
                    } else if b1 == block_id {
                        assert(m0.dom().contains(b2));
                        if popped is Some {
                            assert(m0[b2] != old(self).free@[old(self).free@.len() - 1]);
                        } else {
                            assert(m0[b2] < old(self).slots.len());
                        }
                    } else {
                        assert(m0.dom().contains(b1));
                        if popped is Some {
                            assert(m0[b1] != old(self).free@[old(self).free@.len() - 1]);
                        } else {
                            assert(m0[b1] < old(self).slots.len());
                        }
                    }
                }
            }
            assert forall|b: usize|
                b != block_id && old(self).is_resident(b) implies final(self).data_of(b) == old(self).data_of(b) && final(self).dirty_of(b) == old(self).dirty_of(b) && final(self).refs_of(b) == old(self).refs_of(b) by {
                assert(m0.dom().contains(b));
                assert(m1[b] == m0[b]);
                if popped is Some {
                    assert(m0[b] != old(self).free@[old(self).free@.len() - 1]);
                } else {
                    assert(m0[b] < old(self).slots.len());
                }
            }
        }
    }

    /// Checks out block `block_id`: returns the existing entry or loads it
    /// from the device, evicting the least recently used entry only when
    /// nothing else holds it; a referenced entry is never evicted, and the
    /// combined cache-plus-device content of every block is unchanged.
    pub fn get_block_cache(&mut self, block_id: usize, device: &mut DiskImage) -> (h: CacheHandle)
        requires
            old(self).wf(),
            old(self).bounded(old(device).spec_num_blocks()),
            old(self).coherent(*old(device)),
            block_id < old(device).spec_num_blocks(),
            old(self).is_resident(block_id) ==> old(self).refs_of(block_id) < usize::MAX,
        ensures
            final(self).wf(),
            final(self).bounded(final(device).spec_num_blocks()),
            final(self).coherent(*final(device)),
            final(device).spec_num_blocks() == old(device).spec_num_blocks(),
            h.block_id == block_id,
            final(self).is_resident(block_id),
            final(self).data_of(block_id).len() == BLOCK_SIZE,
            final(self).data_of(block_id) =~= old(self).cur_block(*old(device), block_id),
            final(self).dirty_of(block_id) == (if old(self).is_resident(block_id) {
                old(self).dirty_of(block_id)
            } else {
                false
            }),
            final(self).refs_of(block_id) == (if old(self).is_resident(block_id) {
                old(self).refs_of(block_id) + 1
            } else {
                1nat
            }),
            forall|b: usize|
                b != block_id && old(self).is_resident(b) && final(self).is_resident(b) ==> final(self).data_of(b) == old(self).data_of(b) && final(self).dirty_of(b) == old(self).dirty_of(b) && final(self).refs_of(b) == old(self).refs_of(b),
            forall|b: usize|
                b != block_id && old(self).is_resident(b) && old(self).refs_of(b) > 0 ==> final(self).is_resident(b),
            forall|b: usize|
                b != block_id && !old(self).is_resident(b) ==> !final(self).is_resident(b),
            forall|b: usize|
                (b as int) < old(device).spec_num_blocks() ==> final(self).cur_block(
                    *final(device),
                    b,
                ) =~= old(self).cur_block(*old(device), b),
    {
        let ghost m0 = lru_map(self.lru);
        let ghost u0 = lru_used(self.lru);
        let probe = lru_peek(&self.lru, block_id);
        if probe.is_some() {
            let hit = lru_get(&mut self.lru, block_id);
            let slot = hit.unwrap();
            proof {
                lemma_remove_key(u0, block_id);
                assert(u0.contains(block_id));
                let u1 = lru_used(self.lru);
                assert(u1 =~= remove_key(u0, block_id).push(block_id));
                assert(u1.len() == u0.len());
                assert forall|b: usize|
                    lru_map(self.lru).dom().contains(b) == lru_used(self.lru).contains(b) by {
                    if b == block_id {
                        assert(u1[u1.len() - 1] == block_id);
                    } else {
                        assert(u1.contains(b) == remove_key(u0, block_id).contains(b)) by {
                            if u1.contains(b) {
                                let j = choose|j: int| 0 <= j < u1.len() && u1[j] == b;
                                assert(j < u1.len() - 1);
                                assert(remove_key(u0, block_id)[j] == b);
                            }
                            if remove_key(u0, block_id).contains(b) {
                                let j = choose|j: int|
                                    0 <= j < remove_key(u0, block_id).len() && remove_key(
                                        u0,
                                        block_id,
                                    )[j] == b;
                                assert(u1[j] == b);
                            }
                        }
                    }
                }
            }
            let r = self.refs[slot];
            self.refs[slot] = r + 1;
            proof {
                assert(self.refs@ =~= old(self).refs@.update(slot as int, (r + 1) as usize));
                assert forall|b: usize|
                    b != block_id && old(self).is_resident(b) && final(self).is_resident(
                        b,
                    ) implies final(self).data_of(b) == old(self).data_of(b) && final(self).dirty_of(b) == old(self).dirty_of(b) && final(self).refs_of(b) == old(self).refs_of(b) by {
                    assert(m0[b] != m0[block_id]);
                }
                assert(final(self).data_of(block_id) == old(self).data_of(block_id));
                assert forall|b: usize| #[trigger]
                    final(self).is_resident(b) implies (b as int) < final(device).spec_num_blocks() by {
                    assert(old(self).is_resident(b));
                }
                assert(final(self).coherent(*final(device))) by {
                    assert forall|b: usize|
                        #[trigger] final(self).is_resident(b) && !final(self).dirty_of(
                            b,
                        ) implies final(self).data_of(b) == final(device).block_view(
                        b as int,
                    ) by {
                        assert(old(self).is_resident(b) && !old(self).dirty_of(b));
                        assert(final(self).data_of(b) == old(self).data_of(b));
                    }
                }
                assert forall|b: usize|
                    (b as int) < old(device).spec_num_blocks() implies final(self).cur_block(
                    *final(device),
                    b,
                ) =~= old(self).cur_block(*old(device), b) by {
                    assert(final(self).is_resident(b) == old(self).is_resident(b));
                    if old(self).is_resident(b) {
                        assert(final(self).data_of(b) == old(self).data_of(b));
                    }
                }
            }
            CacheHandle { block_id }
        } else {
            if lru_len(&self.lru) == BLOCK_CACHE_LIMIT {
                self.try_evict_lru(device);
            }
            let ghost s1 = *self;
            let ghost d1 = *device;
            proof {
                assert(!s1.is_resident(block_id)) by {
                    if s1.is_resident(block_id) {
                        assert(old(self).is_resident(block_id));
                    }
                }
                assert(s1.cur_block(d1, block_id) =~= old(self).cur_block(
                    *old(device),
                    block_id,
                ));
                assert(d1.block_view(block_id as int) =~= old(device).block_view(
                    block_id as int,
                ));
            }
            let entry = BlockCache::new(block_id, device);
            self.insert_entry(block_id, entry);
            proof {
                assert(final(self).data_of(block_id) =~= old(device).block_view(
                    block_id as int,
                ));
                assert forall|b: usize| #[trigger]
                    final(self).is_resident(b) implies (b as int) < final(device).spec_num_blocks() by {
                    if b != block_id {
                        assert(s1.is_resident(b));
                    }
                }
                assert forall|b: usize|
                    b != block_id && old(self).is_resident(b) && final(self).is_resident(
                        b,
                    ) implies final(self).data_of(b) == old(self).data_of(b) && final(self).dirty_of(b) == old(self).dirty_of(b) && final(self).refs_of(b) == old(self).refs_of(b) by {
                    assert(s1.is_resident(b));
                }
                assert forall|b: usize|
                    b != block_id && old(self).is_resident(b) && old(self).refs_of(b)
                        > 0 implies final(self).is_resident(b) by {
                    assert(s1.is_resident(b));
                }
                assert forall|b: usize|
                    b != block_id && !old(self).is_resident(b) implies !final(self).is_resident(
                    b,
                ) by {
                    if final(self).is_resident(b) {
                        assert(s1.is_resident(b));
                        assert(old(self).is_resident(b));
                    }
                }
                assert(final(self).coherent(*final(device))) by {
                    assert forall|b: usize|
                        #[trigger] final(self).is_resident(b) && !final(self).dirty_of(
                            b,
                        ) implies final(self).data_of(b) == final(device).block_view(
                        b as int,
                    ) by {
                        if b == block_id {
                            assert(final(self).data_of(b) == d1.block_view(b as int));
                        } else {
                            assert(s1.is_resident(b) && !s1.dirty_of(b));
                            assert(final(self).data_of(b) == s1.data_of(b));
                        }
                    }
                }
                assert forall|b: usize|
                    (b as int) < old(device).spec_num_blocks() implies final(self).cur_block(
                    *final(device),
                    b,
                ) =~= old(self).cur_block(*old(device), b) by {
                    if b == block_id {
                        assert(final(self).data_of(b) =~= old(device).block_view(b as int));
                    } else if s1.is_resident(b) {
                        assert(final(self).data_of(b) == s1.data_of(b) && final(self).dirty_of(b)
                            == s1.dirty_of(b));
                        assert(s1.cur_block(d1, b) =~= old(self).cur_block(*old(device), b));
                    } else {
                        assert(!final(self).is_resident(b));
                        assert(s1.cur_block(d1, b) =~= old(self).cur_block(*old(device), b));
                    }
                }
            }
            CacheHandle { block_id }
        }
    }

    /// Gives a checkout back: one outstanding reference fewer.
    pub fn release(&mut self, h: CacheHandle)
        requires
            old(self).wf(),
            old(self).is_resident(h.block_id),
            old(self).refs_of(h.block_id) > 0,
        ensures
            final(self).wf(),
            forall|b: usize| final(self).is_resident(b) == old(self).is_resident(b),
            forall|b: usize|
                old(self).is_resident(b) ==> final(self).data_of(b) == old(self).data_of(b)
                    && final(self).dirty_of(b) == old(self).dirty_of(b),
            final(self).refs_of(h.block_id) == old(self).refs_of(h.block_id) - 1,
            forall|b: usize|
                b != h.block_id && old(self).is_resident(b) ==> final(self).refs_of(b) == old(self).refs_of(b),
            final(self).resident_count() == old(self).resident_count(),
    {
        let slot = lru_peek(&self.lru, h.block_id).unwrap();
        let r = self.refs[slot];
        self.refs[slot] = r - 1;
        proof {
            assert(self.refs@ =~= old(self).refs@.update(slot as int, (r - 1) as usize));
            assert forall|b: usize|
                b != h.block_id && old(self).is_resident(b) implies final(self).refs_of(b) == old(self).refs_of(b) by {
                assert(lru_map(self.lru)[b] != lru_map(self.lru)[h.block_id]);
            }
        }
    }

    /// Reads `len` bytes at `offset` inside checked-out block `h`.
    pub fn read(&self, h: CacheHandle, offset: usize, len: usize) -> (r: Vec<u8>)
        requires
            self.wf(),
            self.is_resident(h.block_id),
            offset + len <= BLOCK_SIZE,
        ensures
            r@.len() == len,
            self.data_of(h.block_id).len() == BLOCK_SIZE,
            r@ =~= self.data_of(h.block_id).subrange(offset as int, offset as int + len as int),
    {
        let slot = lru_peek(&self.lru, h.block_id).unwrap();
        self.slots[slot].read(offset, len)
    }

    /// Overwrites bytes at `offset` inside checked-out block `h`, marking
    /// it dirty; no other state changes.
    pub fn modify(&mut self, h: CacheHandle, offset: usize, src: &[u8])
        requires
            old(self).wf(),
            old(self).is_resident(h.block_id),
            offset + src@.len() <= BLOCK_SIZE,
        ensures
            final(self).wf(),
            forall|b: usize| final(self).is_resident(b) == old(self).is_resident(b),
            final(self).data_of(h.block_id).len() == BLOCK_SIZE,
            forall|i: int|
                0 <= i < BLOCK_SIZE ==> final(self).data_of(h.block_id)[i] == (if offset <= i
                    < offset + src@.len() {
                    src@[i - offset]
                } else {
                    old(self).data_of(h.block_id)[i]
                }),
            final(self).dirty_of(h.block_id),
            forall|b: usize|
                b != h.block_id && old(self).is_resident(b) ==> final(self).data_of(b) == old(self).data_of(b) && final(self).dirty_of(b) == old(self).dirty_of(b),
            forall|b: usize|
                old(self).is_resident(b) ==> final(self).refs_of(b) == old(self).refs_of(b),
            final(self).resident_count() == old(self).resident_count(),
    {
        let slot = lru_peek(&self.lru, h.block_id).unwrap();
        self.slots[slot].modify(offset, src);
        proof {
            assert(self.slots@ =~= old(self).slots@.update(slot as int, self.slots@[slot as int]));
            assert forall|b: usize|
                b != h.block_id && old(self).is_resident(b) implies final(self).data_of(b) == old(self).data_of(b) && final(self).dirty_of(b) == old(self).dirty_of(b) by {
                assert(lru_map(self.lru)[b] != lru_map(self.lru)[h.block_id]);
            }
        }
    }

    /// Writes checked-out block `h` back to the device if it is dirty;
    /// afterwards the device holds its current bytes.
    pub fn sync(&mut self, h: CacheHandle, device: &mut DiskImage)
        requires
            old(self).wf(),
            old(self).bounded(old(device).spec_num_blocks()),
            old(self).coherent(*old(device)),
            old(self).is_resident(h.block_id),
        ensures
            final(self).wf(),
            final(self).bounded(final(device).spec_num_blocks()),
            final(self).coherent(*final(device)),
            final(device).spec_num_blocks() == old(device).spec_num_blocks(),
            forall|b: usize| final(self).is_resident(b) == old(self).is_resident(b),
            forall|b: usize|
                old(self).is_resident(b) ==> final(self).data_of(b) == old(self).data_of(b)
                    && final(self).refs_of(b) == old(self).refs_of(b),
            !final(self).dirty_of(h.block_id),
            forall|b: usize|
                b != h.block_id && old(self).is_resident(b) ==> final(self).dirty_of(b) == old(self).dirty_of(b),
            forall|b: usize|
                (b as int) < old(device).spec_num_blocks() ==> final(self).cur_block(
                    *final(device),
                    b,
                ) =~= old(self).cur_block(*old(device), b),
            final(device).block_view(h.block_id as int) =~= old(self).data_of(h.block_id),
    {
        let slot = lru_peek(&self.lru, h.block_id).unwrap();
        proof {
            assert((h.block_id as int) < old(device).spec_num_blocks());
        }
        self.slots[slot].sync(device);
        proof {
            assert(self.slots@ =~= old(self).slots@.update(slot as int, self.slots@[slot as int]));
            assert forall|b: usize|
                b != h.block_id && old(self).is_resident(b) implies final(self).dirty_of(b) == old(self).dirty_of(b) && final(self).data_of(b) == old(self).data_of(b) by {
                assert(lru_map(self.lru)[b] != lru_map(self.lru)[h.block_id]);
            }
            assert forall|b: usize|
                (b as int) < old(device).spec_num_blocks() implies final(self).cur_block(
                *final(device),
                b,
            ) =~= old(self).cur_block(*old(device), b) by {
                if b != h.block_id && !old(self).is_resident(b) {
                    assert(final(device).block_view(b as int) =~= old(device).block_view(b as int));
                }
            }
            assert(final(device).block_view(h.block_id as int) =~= old(self).data_of(
                h.block_id,
            )) by {
                if !old(self).dirty_of(h.block_id) {
                    assert(old(self).data_of(h.block_id) == old(device).block_view(
                        h.block_id as int,
                    ));
                    assert(final(device).bytes() == old(device).bytes());
                }
            }
            assert forall|b: usize| #[trigger]
                final(self).is_resident(b) implies (b as int) < final(device).spec_num_blocks() by {
                assert(old(self).is_resident(b));
            }
            assert(final(self).coherent(*final(device))) by {
                assert forall|b: usize|
                    #[trigger] final(self).is_resident(b) && !final(self).dirty_of(
                        b,
                    ) implies final(self).data_of(b) == final(device).block_view(b as int) by {
                    assert(old(self).is_resident(b));
                    assert((b as int) < old(device).spec_num_blocks());
                    if b == h.block_id {
                    } else {
                        assert(lru_map(self.lru)[b] != lru_map(self.lru)[h.block_id]);
                        assert(final(device).block_view(b as int) =~= old(device).block_view(
                            b as int,
                        ));
                        assert(old(self).data_of(b) == old(device).block_view(b as int));
                    }
                }
            }
        }
    }

    /// Writes every dirty resident block back to the device: afterwards no
    /// resident entry is dirty and the device holds the engine's current
    /// content of every block.
    pub fn sync_all(&mut self, device: &mut DiskImage)
        requires
            old(self).wf(),
            old(self).bounded(old(device).spec_num_blocks()),
            old(self).coherent(*old(device)),
        ensures
            final(self).wf(),
            final(self).bounded(final(device).spec_num_blocks()),
            final(self).coherent(*final(device)),
            final(device).spec_num_blocks() == old(device).spec_num_blocks(),
            forall|b: usize| final(self).is_resident(b) == old(self).is_resident(b),
            forall|b: usize|
                old(self).is_resident(b) ==> final(self).data_of(b) == old(self).data_of(b)
                    && final(self).refs_of(b) == old(self).refs_of(b),
            forall|b: usize| final(self).is_resident(b) ==> !final(self).dirty_of(b),
            forall|b: usize|
                (b as int) < old(device).spec_num_blocks() ==> final(self).cur_block(
                    *final(device),
                    b,
                ) =~= old(self).cur_block(*old(device), b),
            forall|b: usize|
                (b as int) < old(device).spec_num_blocks() ==> final(device).block_view(b as int)
                    =~= old(self).cur_block(*old(device), b),
    {
        let pairs = lru_pairs(&self.lru);
        let ghost u = lru_used(self.lru);
        let ghost m = lru_map(self.lru);
        let n = pairs.len();
        let mut i: usize = 0;
        while i < n
            invariant
                self.wf(),
                self.bounded(device.spec_num_blocks()),
                self.coherent(*device),
                device.spec_num_blocks() == old(device).spec_num_blocks(),
                n == pairs@.len(),
                i <= n,
                u == lru_used(self.lru),
                m == lru_map(self.lru),
                u == lru_used(old(self).lru),
                m == lru_map(old(self).lru),
                pairs@.len() == u.len(),
                forall|j: int|
                    0 <= j < pairs@.len() ==> pairs@[j].0 == u[u.len() - 1 - j] && pairs@[j].1
                        == m[pairs@[j].0],
                forall|b: usize| self.is_resident(b) == old(self).is_resident(b),
                forall|b: usize|
                    old(self).is_resident(b) ==> self.data_of(b) == old(self).data_of(b)
                        && self.refs_of(b) == old(self).refs_of(b),
                forall|j: int| 0 <= j < i ==> !self.dirty_of(pairs@[j].0),
                forall|b: usize|
                    (b as int) < old(device).spec_num_blocks() ==> self.cur_block(*device, b)
                        =~= old(self).cur_block(*old(device), b),
                forall|b: usize|
                    (b as int) < old(device).spec_num_blocks() && !self.is_resident(b)
                        ==> device.block_view(b as int) =~= old(device).block_view(b as int),
            decreases n - i,
        {
            let b = pairs[i].0;
            let slot = pairs[i].1;
            proof {
                assert(u.contains(u[u.len() - 1 - i]));
                assert(lru_map(self.lru).dom().contains(b));
                assert(self.is_resident(b));
                assert((b as int) < device.spec_num_blocks());
            }
            let ghost self1 = *self;
            let ghost device1 = *device;
            self.slots[slot].sync(device);
            proof {
                assert(self.slots@ =~= self1.slots@.update(slot as int, self.slots@[slot as int]));
                assert forall|j: int| 0 <= j <= i implies !self.dirty_of(pairs@[j].0) by {
                    if pairs@[j].0 != b {
                        assert(u.contains(u[u.len() - 1 - j]));
                        assert(m.dom().contains(pairs@[j].0));
                        assert(m[pairs@[j].0] != m[b]);
                    }
                }
                assert forall|bb: usize|
                    (bb as int) < old(device).spec_num_blocks() implies self.cur_block(
                    *device,
                    bb,
                ) =~= self1.cur_block(device1, bb) by {
                    if bb != b {
                        if self.is_resident(bb) {
                            assert(m[bb] != m[b]);
                        } else {
                            assert(device.block_view(bb as int) =~= device1.block_view(bb as int));
                        }
                    } else {
                        if self1.dirty_of(b) {
                        } else {
                            assert(self1.data_of(b) == device1.block_view(b as int));
                        }
                    }
                }
                assert forall|bb: usize|
                    (bb as int) < old(device).spec_num_blocks() && self.is_resident(
                        bb,
                    ) && !self.dirty_of(bb) implies self.data_of(bb) == device.block_view(
                    bb as int,
                ) by {
                    if bb != b {
                        assert(m[bb] != m[b]);
                        assert(device.block_view(bb as int) =~= device1.block_view(bb as int));
                    }
                }
                assert(self.coherent(*device)) by {
                    assert forall|bb: usize|
                        #[trigger] self.is_resident(bb) && !self.dirty_of(bb) implies self.data_of(
                        bb,
                    ) == device.block_view(bb as int) by {
                        assert(self1.is_resident(bb));
                        assert((bb as int) < device.spec_num_blocks());
                    }
                }
                assert forall|bb: usize| #[trigger]
                    self.is_resident(bb) implies (bb as int) < device.spec_num_blocks() by {
                    assert(self1.is_resident(bb));
                }
            }
            i = i + 1;
        }
        proof {
            assert forall|b: usize| final(self).is_resident(b) implies !final(self).dirty_of(
                b,
            ) by {
                assert(u.contains(b));
                let k = choose|k: int| 0 <= k < u.len() && u[k] == b;
                assert(pairs@[u.len() - 1 - k].0 == b);
            }
            assert forall|b: usize|
                (b as int) < old(device).spec_num_blocks() implies final(device).block_view(
                b as int,
            ) =~= old(self).cur_block(*old(device), b) by {
                if final(self).is_resident(b) {
                    assert(!final(self).dirty_of(b)) by {
                        assert(u.contains(b));
                        let k = choose|k: int| 0 <= k < u.len() && u[k] == b;
                        assert(pairs@[u.len() - 1 - k].0 == b);
                    }
                    assert(final(self).data_of(b) == final(device).block_view(b as int));
                    assert(final(self).cur_block(*final(device), b) =~= final(device).block_view(
                        b as int,
                    ));
                }
            }
        }
    }
}

/// Dropping the head of a duplicate-free sequence removes exactly that
/// element from what it contains.
proof fn lemma_pop_contains(s: Seq<usize>, k: usize)
    requires
        s.no_duplicates(),
        s.len() > 0,
        s[0] == k,
    ensures
        s.drop_first().no_duplicates(),
        forall|x: usize| s.drop_first().contains(x) == (s.contains(x) && x != k),
{
    let d = s.drop_first();
    assert(d.no_duplicates()) by {
        assert(forall|i: int| 0 <= i < d.len() ==> d[i] == s[i + 1]);
    }
    assert forall|x: usize| d.contains(x) == (s.contains(x) && x != k) by {
        if d.contains(x) {
            let j = choose|j: int| 0 <= j < d.len() && d[j] == x;
            assert(s[j + 1] == x);
            assert(x != k) by {
                if x == k {
                    assert(s[0] == x && s[j + 1] == x);
                }
            }
        }
        if s.contains(x) && x != k {
            let j = choose|j: int| 0 <= j < s.len() && s[j] == x;
            assert(j != 0);
            assert(d[j - 1] == x);
        }
    }
}

/// Removing one key from a duplicate-free sequence leaves it duplicate
/// free, drops exactly that key, and keeps every other key.
pub proof fn lemma_remove_key(s: Seq<usize>, k: usize)
    requires
        s.no_duplicates(),
    ensures
        remove_key(s, k).no_duplicates(),
        !remove_key(s, k).contains(k),
        forall|x: usize| x != k ==> (remove_key(s, k).contains(x) == s.contains(x)),
        s.contains(k) ==> remove_key(s, k).len() == s.len() - 1,
        !s.contains(k) ==> remove_key(s, k) =~= s,
        remove_key(s, k).push(k).no_duplicates(),
    decreases s.len(),
{
    reveal(Seq::filter);
    let pred = |x: usize| x != k;
    if s.len() == 0 {
        assert(remove_key(s, k) =~= s);
    } else {
        let l = s.last();
        let d = s.drop_last();
        assert(d.no_duplicates()) by {
            assert(forall|i: int| 0 <= i < d.len() ==> d[i] == s[i]);
        }
        lemma_remove_key(d, k);
        assert(s.filter(pred) == (if pred(l) {
            d.filter(pred).push(l)
        } else {
            d.filter(pred)
        }));
        if l == k {
            assert(s.contains(k)) by {
                assert(s[s.len() - 1] == k);
            }
            assert(!d.contains(k)) by {
                if d.contains(k) {
                    let j = choose|j: int| 0 <= j < d.len() && d[j] == k;
                    assert(s[j] == k && s[s.len() - 1] == k);
                }
            }
            assert(remove_key(d, k) =~= d);
            assert(remove_key(s, k) =~= d);
            assert forall|x: usize| x != k implies (remove_key(s, k).contains(x) == s.contains(
                x,
            )) by {
                if s.contains(x) {
                    let j = choose|j: int| 0 <= j < s.len() && s[j] == x;
                    assert(j < s.len() - 1);
                    assert(d[j] == x);
                }
                if d.contains(x) {
                    let j = choose|j: int| 0 <= j < d.len() && d[j] == x;
                    assert(s[j] == x);
                }
            }
        } else {
            assert(!d.contains(l)) by {
                if d.contains(l) {
                    let j = choose|j: int| 0 <= j < d.len() && d[j] == l;
                    assert(s[j] == l && s[s.len() - 1] == l);
                }
            }
            assert(!remove_key(d, k).contains(l));
            assert(remove_key(s, k) =~= remove_key(d, k).push(l));
            lemma_push_nodup(remove_key(d, k), l);
            assert forall|x: usize| x != k implies (remove_key(s, k).contains(x) == s.contains(
                x,
            )) by {
                if x == l {
                    assert(remove_key(s, k)[remove_key(s, k).len() - 1] == l);
                    assert(s[s.len() - 1] == l);
                } else {
                    assert(remove_key(s, k).contains(x) == remove_key(d, k).contains(x)) by {
                        if remove_key(s, k).contains(x) {
                            let j = choose|j: int|
                                0 <= j < remove_key(s, k).len() && remove_key(s, k)[j] == x;
                            assert(j < remove_key(d, k).len());
                            assert(remove_key(d, k)[j] == x);
                        }
                        if remove_key(d, k).contains(x) {
                            let j = choose|j: int|
                                0 <= j < remove_key(d, k).len() && remove_key(d, k)[j] == x;
                            assert(remove_key(s, k)[j] == x);
                        }
                    }
                    assert(s.contains(x) == d.contains(x)) by {
                        if s.contains(x) {
                            let j = choose|j: int| 0 <= j < s.len() && s[j] == x;
                            assert(j < d.len());
                            assert(d[j] == x);
                        }
                        if d.contains(x) {
                            let j = choose|j: int| 0 <= j < d.len() && d[j] == x;
                            assert(s[j] == x);
                        }
                    }
                }
            }
            if s.contains(k) {
                assert(d.contains(k)) by {
                    let j = choose|j: int| 0 <= j < s.len() && s[j] == k;
                    assert(j < s.len() - 1);
                    assert(d[j] == k);
                }
            }
            if !s.contains(k) {
                assert(!d.contains(k)) by {
                    if d.contains(k) {
                        let j = choose|j: int| 0 <= j < d.len() && d[j] == k;
                        assert(s[j] == k);
                    }
                }
                assert(remove_key(s, k) =~= s);
            }
        }
    }
    lemma_push_nodup(remove_key(s, k), k);
}

/// Pushing an element absent from a duplicate-free sequence keeps it
/// duplicate free.
proof fn lemma_push_nodup(s: Seq<usize>, x: usize)
    requires
        s.no_duplicates(),
        !s.contains(x),
    ensures
        s.push(x).no_duplicates(),
{
    assert forall|i: int, j: int|
        0 <= i < s.push(x).len() && 0 <= j < s.push(x).len() && i != j implies s.push(x)[i]
        != s.push(x)[j] by {
        if i < s.len() && j < s.len() {
        } else if i < s.len() {
            assert(s[i] == s.push(x)[i]);
            if s.push(x)[i] == x {
                assert(s.contains(x));
            }
        } else if j < s.len() {
            assert(s[j] == s.push(x)[j]);
            if s.push(x)[j] == x {
                assert(s.contains(x));
            }
        }
    }
}

} // verus!
