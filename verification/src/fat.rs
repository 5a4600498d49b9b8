//! Cluster allocator: the File Allocation Table as an in-memory mirror of
//! the on-disk linkage, every change written through the block cache, and
//! the cluster-chain operations built on it.

use vstd::prelude::*;

use crate::cache::BlockCacheManager;
use crate::device::DiskImage;
use crate::entry::u32_byte;
use crate::{BLOCK_SIZE, END_OF_CLUSTER, FREE_CLUSTER};

verus! {

/// Whether `c` can hold file data: cluster ids 0 and 1 are reserved, and
/// ids at or above the table length do not exist.
pub open spec fn is_data_cluster(entries: Seq<u32>, c: u32) -> bool {
    2 <= c && (c as int) < entries.len()
}

/// `ch` is the cluster chain that starts at `start` under `entries`: its
/// links follow one another and the last one carries the end marker; a
/// start that is no data cluster has the empty chain.
pub open spec fn is_chain(entries: Seq<u32>, start: u32, ch: Seq<u32>) -> bool {
    &&& ch.no_duplicates()
    &&& forall|i: int| 0 <= i < ch.len() ==> is_data_cluster(entries, #[trigger] ch[i])
    &&& if ch.len() == 0 {
        !is_data_cluster(entries, start)
    } else {
        &&& ch[0] == start
        &&& forall|i: int| 0 <= i < ch.len() - 1 ==> entries[#[trigger] ch[i] as int] == ch[i + 1]
        &&& entries[ch.last() as int] == END_OF_CLUSTER
    }
}

/// Whether the walk from `start` reaches the end marker: the chain exists.
pub open spec fn chain_ok(entries: Seq<u32>, start: u32) -> bool {
    exists|ch: Seq<u32>| is_chain(entries, start, ch)
}

/// The chain from `start`, where one exists.
pub open spec fn spec_chain(entries: Seq<u32>, start: u32) -> Seq<u32> {
    choose|ch: Seq<u32>| is_chain(entries, start, ch)
}

/// How many free data clusters lie below `n`.
pub open spec fn count_free_upto(entries: Seq<u32>, n: int) -> int
    decreases n,
{
    if n <= 2 {
        0
    } else {
        count_free_upto(entries, n - 1) + if entries[n - 1] == FREE_CLUSTER {
            1int
        } else {
            0int
        }
    }
}

/// How many free data clusters the table has.
pub open spec fn count_free(entries: Seq<u32>) -> int {
    count_free_upto(entries, entries.len() as int)
}

/// What allocation does to the table: `ids` were free, they now link one
/// to the next and end with the end marker, the previous tail `prev` (when
/// it is a real cluster) links to the first of them, and nothing else
/// changed.
pub open spec fn linked_up(old_e: Seq<u32>, new_e: Seq<u32>, ids: Seq<u32>, prev: u32) -> bool {
    &&& new_e.len() == old_e.len()
    &&& ids.no_duplicates()
    &&& ids.len() >= 1
    &&& forall|i: int|
        0 <= i < ids.len() ==> is_data_cluster(old_e, #[trigger] ids[i]) && old_e[ids[i] as int]
            == FREE_CLUSTER
    &&& forall|c: int|
        0 <= c < old_e.len() && !ids.contains(c as u32) && c != prev ==> new_e[c] == #[trigger] old_e[c]
    &&& forall|i: int| 0 <= i < ids.len() - 1 ==> new_e[#[trigger] ids[i] as int] == ids[i + 1]
    &&& new_e[ids.last() as int] == END_OF_CLUSTER
    &&& is_data_cluster(old_e, prev) ==> new_e[prev as int] == ids[0]
    &&& !is_data_cluster(old_e, prev) ==> (forall|c: int|
        0 <= c < old_e.len() && !ids.contains(c as u32) ==> new_e[c] == #[trigger] old_e[c])
}

/// The FAT table: the mirror of every cluster's link, and where the first
/// copy of the table sits on disk.
pub struct FatTable {
    entries: Vec<u32>,
    fat_offset: usize,
}

impl FatTable {
    /// The mirrored links.
    pub closed spec fn spec_entries(self) -> Seq<u32> {
        self.entries@
    }

    /// Byte offset of the table on disk.
    pub closed spec fn spec_fat_offset(self) -> int {
        self.fat_offset as int
    }

    /// Structural bounds: the table is block aligned, holds at least the
    /// two reserved entries, and is small enough that every entry address
    /// fits comfortably.
    pub closed spec fn wf(self) -> bool {
        &&& self.fat_offset % 512 == 0
        &&& 2 <= self.entries@.len()
        &&& self.entries@.len() <= 0x0FFF_FF00
        &&& self.fat_offset + 4 * self.entries@.len() <= usize::MAX
    }

    /// The disk byte address of cluster `c`'s table entry.
    pub open spec fn entry_addr(self, c: int) -> int {
        self.spec_fat_offset() + 4 * c
    }

    /// The table fits inside a device of `nb` blocks.
    pub open spec fn fits(self, nb: int) -> bool {
        self.spec_fat_offset() + 4 * self.spec_entries().len() <= nb * 512
    }

    /// The mirror agrees with the engine's current bytes of the on-disk
    /// table: every entry is stored little-endian at its address.
    pub open spec fn synced(self, cache: BlockCacheManager, d: DiskImage) -> bool {
        forall|c: int|
            0 <= c < self.spec_entries().len() ==> #[trigger] fat_bytes_hold(
                self,
                cache,
                d,
                c,
                self.spec_entries()[c],
            )
    }

    /// A fresh mirror with every cell zero, matching a zeroed disk; the
    /// caller then marks the two reserved cells and the root chain.
    pub fn new(fat_offset: usize, n_clusters: usize) -> (r: Self)
        requires
            fat_offset % 512 == 0,
            2 <= n_clusters <= 0x0FFF_FF00,
            fat_offset + 4 * n_clusters <= usize::MAX,
        ensures
            r.wf(),
            r.spec_fat_offset() == fat_offset,
            r.spec_entries().len() == n_clusters,
            forall|c: int| 0 <= c < n_clusters ==> r.spec_entries()[c] == FREE_CLUSTER,
    {
        let mut entries: Vec<u32> = Vec::new();
        let mut c: usize = 0;
        while c < n_clusters
            invariant
                c <= n_clusters,
                entries@.len() == c,
                forall|i: int| 0 <= i < c ==> entries@[i] == FREE_CLUSTER,
            decreases n_clusters - c,
        {
            entries.push(FREE_CLUSTER);
            c = c + 1;
        }
        Self { entries, fat_offset }
    }

    /// Marks the two reserved cells, which never hold data, with the end
    /// marker, writing through the cache like every other table change.
    pub fn init_reserved(
        &mut self,
        cache: &mut BlockCacheManager,
        device: &mut DiskImage,
    )
        requires
            old(self).wf(),
            old(self).fits(old(device).spec_num_blocks()),
            old(cache).wf(),
            old(cache).bounded(old(device).spec_num_blocks()),
            old(cache).coherent(*old(device)),
            old(cache).quiescent(),
            old(self).synced(*old(cache), *old(device)),
        ensures
            final(self).wf(),
            final(self).spec_fat_offset() == old(self).spec_fat_offset(),
            final(self).spec_entries() =~= old(self).spec_entries().update(
                0,
                END_OF_CLUSTER,
            ).update(1, END_OF_CLUSTER),
            final(self).synced(*final(cache), *final(device)),
            final(cache).wf(),
            final(cache).bounded(final(device).spec_num_blocks()),
            final(cache).coherent(*final(device)),
            final(cache).quiescent(),
            final(device).spec_num_blocks() == old(device).spec_num_blocks(),
            forall|a: int|
                0 <= a < old(device).spec_num_blocks() * 512 && !(old(self).spec_fat_offset() <= a
                    < old(self).spec_fat_offset() + 8) ==> cur_byte(
                    *final(cache),
                    *final(device),
                    a,
                ) == cur_byte(*old(cache), *old(device), a),
    {
        self.write_entry(0, END_OF_CLUSTER, cache, device);
        self.write_entry(1, END_OF_CLUSTER, cache, device);
    }

    /// Walks the chain from `start` with an explicit revisit check:
    /// returns the materialized chain, or nothing when the on-disk table
    /// is corrupt (a cycle or an out-of-range link).
    pub fn try_get_all(&self, start: u32) -> (r: Option<Vec<u32>>)
        requires
            self.wf(),
        ensures
            r is Some <==> chain_ok(self.spec_entries(), start),
            r matches Some(v) ==> is_chain(self.spec_entries(), start, v@) && v@ == spec_chain(
                self.spec_entries(),
                start,
            ),
    {
        let ghost e = self.spec_entries();
        let n = self.entries.len();
        let mut v: Vec<u32> = Vec::new();
        let mut cur = start;
        let mut steps: usize = 0;
        while cur >= 2 && (cur as usize) < n
            invariant
                self.wf(),
                e == self.spec_entries(),
                n == e.len(),
                steps == v@.len() <= n,
                v@.no_duplicates(),
                forall|i: int| 0 <= i < v@.len() ==> is_data_cluster(e, #[trigger] v@[i]),
                v@.len() > 0 ==> v@[0] == start,
                v@.len() == 0 ==> cur == start,
                forall|i: int|
                    0 <= i < v@.len() - 1 ==> e[#[trigger] v@[i] as int] == v@[i + 1],
                v@.len() > 0 ==> e[v@.last() as int] == cur,
                chain_ok(e, start) ==> v@.len() <= spec_chain(e, start).len() && v@ =~= spec_chain(
                    e,
                    start,
                ).take(v@.len() as int) && (v@.len() < spec_chain(e, start).len() ==> cur
                    == spec_chain(e, start)[v@.len() as int]) && (v@.len() == spec_chain(
                    e,
                    start,
                ).len() ==> (if spec_chain(e, start).len() == 0 {
                    cur == start
                } else {
                    cur == END_OF_CLUSTER
                })),
            decreases n - steps,
        {
            proof {
                if chain_ok(e, start) {
                    let ch = spec_chain(e, start);
                    assert(is_chain(e, start, ch));
                    assert(v@.len() < ch.len()) by {
                        if v@.len() == ch.len() {
                            if ch.len() == 0 {
                                assert(is_data_cluster(e, start));
                            }
                        }
                    }
                }
            }
            if steps >= n {
                proof {
                    if chain_ok(e, start) {
                        let ch = spec_chain(e, start);
                        assert(is_chain(e, start, ch));
                        lemma_distinct_bounded(ch, e.len() as int);
                        assert(false);
                    }
                }
                return None;
            }
            let mut seen = false;
            let mut j: usize = 0;
            while j < v.len()
                invariant
                    j <= v@.len(),
                    seen == (exists|k: int| 0 <= k < j && v@[k] == cur),
                decreases v@.len() - j,
            {
                if v[j] == cur {
                    seen = true;
                    proof {
                        assert(v@[j as int] == cur);
                    }
                }
                j = j + 1;
            }
            if seen {
                proof {
                    if chain_ok(e, start) {
                        let ch = spec_chain(e, start);
                        assert(is_chain(e, start, ch));
                        let k = choose|k: int| 0 <= k < v@.len() && v@[k] == cur;
                        assert(ch[k] == cur && ch[v@.len() as int] == cur);
                        assert(false);
                    }
                }
                return None;
            }
            proof {
                assert(!v@.contains(cur)) by {
                    if v@.contains(cur) {
                        let k = choose|k: int| 0 <= k < v@.len() && v@[k] == cur;
                        assert(exists|k2: int| 0 <= k2 < v@.len() && v@[k2] == cur);
                    }
                }
                lemma_push_nodup32(v@, cur);
                if chain_ok(e, start) {
                    let ch = spec_chain(e, start);
                    assert(is_chain(e, start, ch));
                    assert(cur == ch[v@.len() as int]);
                    assert(v@.push(cur) =~= ch.take(v@.len() as int + 1));
                    if v@.len() + 1 == ch.len() {
                        assert(ch[v@.len() as int] == ch.last());
                    }
                }
            }
            v.push(cur);
            cur = self.entries[cur as usize];
            steps = steps + 1;
        }
        if v.len() > 0 && cur != END_OF_CLUSTER {
            proof {
                if chain_ok(e, start) {
                    let ch = spec_chain(e, start);
                    assert(is_chain(e, start, ch));
                    assert(v@.len() == ch.len()) by {
                        if v@.len() < ch.len() {
                            assert(is_data_cluster(e, ch[v@.len() as int]));
                        }
                    }
                    assert(false);
                }
            }
            return None;
        }
        proof {
            assert(is_chain(self.spec_entries(), start, v@)) by {
                if v@.len() == 0 {
                    assert(cur == start);
                    assert(!is_data_cluster(self.spec_entries(), start));
                } else {
                    assert(self.spec_entries()[v@.last() as int] == cur);
                }
            }
            lemma_chain_unique(e, start, v@, spec_chain(e, start));
        }
        Some(v)
    }

    /// How many data clusters are currently free: the size of the pool
    /// `alloc_cluster_chain` draws from.
    pub fn count_free_clusters(&self) -> (r: usize)
        requires
            self.wf(),
        ensures
            r as int == count_free(self.spec_entries()),
    {
        let n = self.entries.len();
        let mut count: usize = 0;
        let mut c: usize = 2;
        while c < n
            invariant
                2 <= c <= n || (n < 2 && c == 2),
                n == self.spec_entries().len(),
                count <= c,
                count as int == count_free_upto(self.spec_entries(), c as int),
            decreases n - c,
        {
            if self.entries[c] == FREE_CLUSTER {
                count = count + 1;
            }
            c = c + 1;
        }
        count
    }

    /// How many clusters the table covers.
    pub fn len(&self) -> (r: usize)
        ensures
            r == self.spec_entries().len(),
    {
        self.entries.len()
    }

    /// The link stored for cluster `c`.
    pub fn get_next_cluster(&self, c: u32) -> (r: u32)
        requires
            is_data_cluster(self.spec_entries(), c),
        ensures
            r == self.spec_entries()[c as int],
    {
        self.entries[c as usize]
    }

    /// Materializes the whole chain from `start`, ending at the end
    /// marker.
    pub fn get_all_cluster_id(&self, start: u32) -> (r: Vec<u32>)
        requires
            self.wf(),
            chain_ok(self.spec_entries(), start),
        ensures
            is_chain(self.spec_entries(), start, r@),
            r@ == spec_chain(self.spec_entries(), start),
    {
        let ghost ch = spec_chain(self.spec_entries(), start);
        proof {
            assert(is_chain(self.spec_entries(), start, ch));
        }
        let mut v: Vec<u32> = Vec::new();
        let mut cur = start;
        let n = self.entries.len();
        while cur >= 2 && (cur as usize) < n
            invariant
                self.wf(),
                n == self.spec_entries().len(),
                is_chain(self.spec_entries(), start, ch),
                v@.len() <= ch.len(),
                v@ =~= ch.take(v@.len() as int),
                v@.len() < ch.len() ==> cur == ch[v@.len() as int],
                v@.len() == ch.len() ==> !is_data_cluster(self.spec_entries(), cur),
            decreases ch.len() - v@.len(),
        {
            proof {
                assert(is_data_cluster(self.spec_entries(), cur));
                assert(v@.len() < ch.len()) by {
                    if v@.len() == ch.len() {
                        assert(!is_data_cluster(self.spec_entries(), cur));
                    }
                }
            }
            let ghost i = v@.len() as int;
            v.push(cur);
            cur = self.entries[cur as usize];
            proof {
                assert(v@ =~= ch.take(i + 1));
                if i + 1 < ch.len() {
                    assert(cur == ch[i + 1]);
                } else {
                    assert(ch.last() == ch[i]);
                    assert(cur == END_OF_CLUSTER);
                }
            }
        }
        proof {
            assert(v@.len() == ch.len()) by {
                if v@.len() < ch.len() {
                    assert(is_data_cluster(self.spec_entries(), ch[v@.len() as int]));
                }
            }
            assert(v@ =~= ch);
        }
        v
    }

    /// How many clusters the chain from `start` holds.
    pub fn cluster_chain_len(&self, start: u32) -> (r: usize)
        requires
            self.wf(),
            chain_ok(self.spec_entries(), start),
        ensures
            r == spec_chain(self.spec_entries(), start).len(),
    {
        let v = self.get_all_cluster_id(start);
        v.len()
    }

    /// The cluster `index` links forward of `start`, or nothing when the
    /// chain ends first.
    pub fn get_cluster_at(&self, start: u32, index: u32) -> (r: Option<u32>)
        requires
            self.wf(),
            chain_ok(self.spec_entries(), start),
        ensures
            r == (if (index as int) < spec_chain(self.spec_entries(), start).len() {
                Some(spec_chain(self.spec_entries(), start)[index as int])
            } else {
                None::<u32>
            }),
    {
        let v = self.get_all_cluster_id(start);
        if (index as usize) < v.len() {
            Some(v[index as usize])
        } else {
            None
        }
    }
}

impl FatTable {
    /// Reads the table back from the engine's current disk content.
    pub fn load(
        fat_offset: usize,
        n_clusters: usize,
        cache: &mut BlockCacheManager,
        device: &mut DiskImage,
    ) -> (r: Self)
        requires
            fat_offset % 512 == 0,
            2 <= n_clusters <= 0x0FFF_FF00,
            fat_offset + 4 * n_clusters <= old(device).spec_num_blocks() * 512,
            old(cache).wf(),
            old(cache).bounded(old(device).spec_num_blocks()),
            old(cache).coherent(*old(device)),
            old(cache).quiescent(),
        ensures
            r.wf(),
            r.spec_fat_offset() == fat_offset,
            r.spec_entries().len() == n_clusters,
            r.fits(final(device).spec_num_blocks()),
            r.synced(*final(cache), *final(device)),
            final(cache).wf(),
            final(cache).bounded(final(device).spec_num_blocks()),
            final(cache).coherent(*final(device)),
            final(cache).quiescent(),
            final(device).spec_num_blocks() == old(device).spec_num_blocks(),
            forall|a: int|
                0 <= a < old(device).spec_num_blocks() * 512 ==> cur_byte(
                    *final(cache),
                    *final(device),
                    a,
                ) == cur_byte(*old(cache), *old(device), a),
    {
        let ghost nb = old(device).spec_num_blocks();
        proof {
            old(device).lemma_bytes_fit();
        }
        let mut entries: Vec<u32> = Vec::new();
        let mut c: usize = 0;
        while c < n_clusters
            invariant
                c <= n_clusters,
                entries@.len() == c,
                fat_offset % 512 == 0,
                2 <= n_clusters <= 0x0FFF_FF00,
                fat_offset + 4 * n_clusters <= nb * 512,
                nb * 512 <= usize::MAX,
                cache.wf(),
                cache.bounded(nb),
                cache.coherent(*device),
                cache.quiescent(),
                device.spec_num_blocks() == nb,
                forall|a: int|
                    0 <= a < nb * 512 ==> cur_byte(*cache, *device, a) == cur_byte(
                        *old(cache),
                        *old(device),
                        a,
                    ),
                forall|i: int, k: int|
                    #![trigger cur_byte(*cache, *device, fat_offset + 4 * i + k)]
                    0 <= i < c && 0 <= k < 4 ==> cur_byte(*cache, *device, fat_offset + 4 * i + k)
                        == u32_byte(entries@[i], k),
            decreases n_clusters - c,
        {
            let v = read_fat_cell(fat_offset, c, cache, device);
            entries.push(v);
            c = c + 1;
        }
        let r = Self { entries, fat_offset };
        proof {
            assert forall|c0: int|
                0 <= c0 < r.spec_entries().len() implies #[trigger] fat_bytes_hold(
                r,
                *cache,
                *device,
                c0,
                r.spec_entries()[c0],
            ) by {
                assert(cur_byte(*cache, *device, fat_offset + 4 * c0 + 0) == u32_byte(
                    r.spec_entries()[c0],
                    0,
                ));
                assert(cur_byte(*cache, *device, fat_offset + 4 * c0 + 1) == u32_byte(
                    r.spec_entries()[c0],
                    1,
                ));
                assert(cur_byte(*cache, *device, fat_offset + 4 * c0 + 2) == u32_byte(
                    r.spec_entries()[c0],
                    2,
                ));
                assert(cur_byte(*cache, *device, fat_offset + 4 * c0 + 3) == u32_byte(
                    r.spec_entries()[c0],
                    3,
                ));
            }
        }
        r
    }

    /// Writes the link for `cluster`: the mirror and, through the cache,
    /// the on-disk table entry.
    pub fn set_next_cluster(
        &mut self,
        cluster: u32,
        next: u32,
        cache: &mut BlockCacheManager,
        device: &mut DiskImage,
    )
        requires
            old(self).wf(),
            is_data_cluster(old(self).spec_entries(), cluster),
            old(self).fits(old(device).spec_num_blocks()),
            old(cache).wf(),
            old(cache).bounded(old(device).spec_num_blocks()),
            old(cache).coherent(*old(device)),
            old(cache).quiescent(),
            old(self).synced(*old(cache), *old(device)),
        ensures
            final(self).wf(),
            final(self).spec_fat_offset() == old(self).spec_fat_offset(),
            final(self).spec_entries() =~= old(self).spec_entries().update(cluster as int, next),
            final(self).synced(*final(cache), *final(device)),
            final(cache).wf(),
            final(cache).bounded(final(device).spec_num_blocks()),
            final(cache).coherent(*final(device)),
            final(cache).quiescent(),
            final(device).spec_num_blocks() == old(device).spec_num_blocks(),
            forall|a: int|
                0 <= a < old(device).spec_num_blocks() * 512 && !(old(self).entry_addr(
                    cluster as int,
                ) <= a < old(self).entry_addr(cluster as int) + 4) ==> cur_byte(
                    *final(cache),
                    *final(device),
                    a,
                ) == cur_byte(*old(cache), *old(device), a),
    {
        self.write_entry(cluster, next, cache, device);
    }

    /// The write-through primitive shared by allocation, deallocation and
    /// relinking: updates one mirror cell and its four on-disk bytes.
    fn write_entry(
        &mut self,
        cluster: u32,
        next: u32,
        cache: &mut BlockCacheManager,
        device: &mut DiskImage,
    )
        requires
            old(self).wf(),
            (cluster as int) < old(self).spec_entries().len(),
            old(self).fits(old(device).spec_num_blocks()),
            old(cache).wf(),
            old(cache).bounded(old(device).spec_num_blocks()),
            old(cache).coherent(*old(device)),
            old(cache).quiescent(),
            old(self).synced(*old(cache), *old(device)),
        ensures
            final(self).wf(),
            final(self).spec_fat_offset() == old(self).spec_fat_offset(),
            final(self).spec_entries() =~= old(self).spec_entries().update(cluster as int, next),
            final(self).synced(*final(cache), *final(device)),
            final(cache).wf(),
            final(cache).bounded(final(device).spec_num_blocks()),
            final(cache).coherent(*final(device)),
            final(cache).quiescent(),
            final(device).spec_num_blocks() == old(device).spec_num_blocks(),
            forall|a: int|
                0 <= a < old(device).spec_num_blocks() * 512 && !(old(self).entry_addr(
                    cluster as int,
                ) <= a < old(self).entry_addr(cluster as int) + 4) ==> cur_byte(
                    *final(cache),
                    *final(device),
                    a,
                ) == cur_byte(*old(cache), *old(device), a),
    {
        let ghost nb = old(device).spec_num_blocks();
        proof {
            old(device).lemma_bytes_fit();
        }
        let c = cluster as usize;
        let block: usize = self.fat_offset / 512 + c / 128;
        let off: usize = 4 * (c % 128);
        let ghost addr = self.entry_addr(cluster as int);
        proof {
            lemma_fat_cell_pos(self.fat_offset as int, c as int, nb);
            assert(block == addr / 512 && off == addr % 512);
        }
        let mut bytes: Vec<u8> = Vec::new();
        bytes.push((next % 256) as u8);
        bytes.push(((next / 256) % 256) as u8);
        bytes.push(((next / 65536) % 256) as u8);
        bytes.push(((next / 16777216) % 256) as u8);
        let ghost cache0 = *cache;
        let ghost device0 = *device;
        let h = cache.get_block_cache(block, device);
        let ghost cache1 = *cache;
        let ghost device1 = *device;
        cache.modify(h, off, bytes.as_slice());
        let ghost cache2 = *cache;
        cache.release(h);
        self.entries.set(c, next);
        proof {
            assert(final(cache).quiescent()) by {
                assert forall|b: usize| #[trigger]
                    final(cache).is_resident(b) implies final(cache).refs_of(b) == 0 by {
                    if b == block {
                    } else {
                        if cache0.is_resident(b) {
                            assert(cache0.refs_of(b) == 0);
                        } else {
                            assert(!cache1.is_resident(b));
                        }
                    }
                }
            }
            assert(final(cache).coherent(*final(device))) by {
                assert forall|b: usize|
                    #[trigger] final(cache).is_resident(b) && !final(cache).dirty_of(
                        b,
                    ) implies final(cache).data_of(b) == final(device).block_view(b as int) by {
                    assert(b != block);
                    assert(cache2.is_resident(b) == cache1.is_resident(b));
                    assert(cache1.coherent(device1));
                }
            }
            assert forall|a: int|
                0 <= a < nb * 512 && !(addr <= a < addr + 4) implies cur_byte(
                *final(cache),
                *final(device),
                a,
            ) == cur_byte(cache0, device0, a) by {
                let ab = (a / 512) as usize;
                vstd::arithmetic::div_mod::lemma_fundamental_div_mod(a, 512);
                assert(0 <= a % 512 < 512);
                assert((ab as int) < nb) by {
                    lemma_div_bound(a, nb);
                }
                assert(cache1.cur_block(device1, ab) =~= cache0.cur_block(device0, ab));
                if ab == block {
                    assert(a % 512 != off + 0 && a % 512 != off + 1 && a % 512 != off + 2 && a
                        % 512 != off + 3) by {
                        if off <= a % 512 < off + 4 {
                            assert(a == 512 * (a / 512) + a % 512);
                            assert(addr == 512 * (block as int) + off);
                            assert(addr <= a < addr + 4);
                        }
                    }
                    assert(final(cache).data_of(block)[a % 512] == cache1.data_of(block)[a % 512]);
                    assert(cache1.data_of(block) =~= cache1.cur_block(device1, block));
                } else {
                    assert(final(cache).cur_block(*final(device), ab) =~= cache2.cur_block(
                        device1,
                        ab,
                    ));
                    assert(cache2.cur_block(device1, ab) =~= cache1.cur_block(device1, ab)) by {
                        if cache1.is_resident(ab) {
                            assert(cache2.data_of(ab) == cache1.data_of(ab));
                        }
                    }
                }
            }
            assert forall|k: int| 0 <= k < 4 implies cur_byte(
                *final(cache),
                *final(device),
                addr + k,
            ) == u32_byte(next, k) by {
                vstd::arithmetic::div_mod::lemma_fundamental_div_mod_converse(
                    addr + k,
                    512,
                    block as int,
                    off + k,
                );
                assert(final(cache).data_of(block)[off + k] == bytes@[k]);
            }
            assert(final(self).synced(*final(cache), *final(device))) by {
                assert forall|c0: int|
                    0 <= c0 < final(self).spec_entries().len() implies #[trigger] fat_bytes_hold(
                    *final(self),
                    *final(cache),
                    *final(device),
                    c0,
                    final(self).spec_entries()[c0],
                ) by {
                    if c0 == c {
                        assert(final(self).spec_entries()[c0] == next);
                    } else {
                        assert(fat_bytes_hold(
                            *old(self),
                            cache0,
                            device0,
                            c0,
                            old(self).spec_entries()[c0],
                        ));
                        assert(!(addr <= old(self).entry_addr(c0) + 0 < addr + 4));
                        assert(!(addr <= old(self).entry_addr(c0) + 1 < addr + 4));
                        assert(!(addr <= old(self).entry_addr(c0) + 2 < addr + 4));
                        assert(!(addr <= old(self).entry_addr(c0) + 3 < addr + 4));
                        assert(0 <= old(self).entry_addr(c0) && old(self).entry_addr(c0) + 4 <= nb
                            * 512);
                        assert(final(self).spec_entries()[c0] == old(self).spec_entries()[c0]);
                    }
                }
            }
        }
    }

    /// Scans the free pool from the low clusters up for `count` free
    /// entries; returns them exactly when enough exist.
    fn find_free_clusters(&self, count: usize) -> (r: Option<Vec<u32>>)
        requires
            self.wf(),
            count >= 1,
        ensures
            r is Some <==> count <= count_free(self.spec_entries()),
            r matches Some(ids) ==> ids@.len() == count && ids@.no_duplicates() && (forall|i: int|
                0 <= i < ids@.len() ==> is_data_cluster(self.spec_entries(), #[trigger] ids@[i])
                    && self.spec_entries()[ids@[i] as int] == FREE_CLUSTER),
    {
        let n = self.entries.len();
        let mut v: Vec<u32> = Vec::new();
        let mut c: usize = 2;
        while c < n && v.len() < count
            invariant
                self.wf(),
                n == self.spec_entries().len(),
                2 <= c <= n,
                v@.len() <= count,
                v@.len() < count ==> v@.len() == count_free_upto(self.spec_entries(), c as int),
                v@.len() == count ==> count <= count_free_upto(self.spec_entries(), c as int),
                forall|i: int|
                    0 <= i < v@.len() ==> is_data_cluster(self.spec_entries(), #[trigger] v@[i])
                        && self.spec_entries()[v@[i] as int] == FREE_CLUSTER,
                forall|i: int, j: int| 0 <= i < j < v@.len() ==> v@[i] < v@[j],
                forall|i: int| 0 <= i < v@.len() ==> (v@[i] as int) < c,
            decreases n - c,
        {
            if self.entries[c] == FREE_CLUSTER {
                v.push(c as u32);
            }
            c = c + 1;
        }
        proof {
            lemma_count_free_mono(self.spec_entries(), c as int, n as int);
        }
        if v.len() == count {
            proof {
                assert(v@.no_duplicates()) by {
                    assert forall|i: int, j: int|
                        0 <= i < v@.len() && 0 <= j < v@.len() && i != j implies v@[i] != v@[j] by {
                        if i < j {
                            assert(v@[i] < v@[j]);
                        } else {
                            assert(v@[j] < v@[i]);
                        }
                    }
                }
            }
            Some(v)
        } else {
            proof {
                assert(c == n);
                assert(count_free(self.spec_entries()) < count);
            }
            None
        }
    }

    /// Allocates `count` clusters from the free pool, links them together
    /// ending at the end marker, and hangs them off `current_last_cluster`
    /// when the file already has clusters; returns the new chain's head,
    /// or nothing exactly when fewer than `count` clusters are free.
    pub fn alloc_cluster_chain(
        &mut self,
        count: usize,
        current_last_cluster: u32,
        cache: &mut BlockCacheManager,
        device: &mut DiskImage,
    ) -> (r: Option<u32>)
        requires
            old(self).wf(),
            count >= 1,
            old(self).fits(old(device).spec_num_blocks()),
            old(cache).wf(),
            old(cache).bounded(old(device).spec_num_blocks()),
            old(cache).coherent(*old(device)),
            old(cache).quiescent(),
            old(self).synced(*old(cache), *old(device)),
            is_data_cluster(old(self).spec_entries(), current_last_cluster) ==> old(
                self,
            ).spec_entries()[current_last_cluster as int] == END_OF_CLUSTER,
        ensures
            final(self).wf(),
            final(self).spec_fat_offset() == old(self).spec_fat_offset(),
            final(self).spec_entries().len() == old(self).spec_entries().len(),
            final(self).synced(*final(cache), *final(device)),
            final(cache).wf(),
            final(cache).bounded(final(device).spec_num_blocks()),
            final(cache).coherent(*final(device)),
            final(cache).quiescent(),
            final(device).spec_num_blocks() == old(device).spec_num_blocks(),
            r is Some <==> count <= count_free(old(self).spec_entries()),
            r is None ==> final(self).spec_entries() =~= old(self).spec_entries(),
            r matches Some(first) ==> exists|ids: Seq<u32>|
                #[trigger] linked_up(
                    old(self).spec_entries(),
                    final(self).spec_entries(),
                    ids,
                    current_last_cluster,
                ) && ids.len() == count && ids[0] == first,
            forall|a: int|
                0 <= a < old(device).spec_num_blocks() * 512 && !(old(self).spec_fat_offset() <= a
                    < old(self).spec_fat_offset() + 4 * old(self).spec_entries().len())
                    ==> cur_byte(*final(cache), *final(device), a) == cur_byte(
                    *old(cache),
                    *old(device),
                    a,
                ),
    {
        let found = self.find_free_clusters(count);
        if found.is_none() {
            return None;
        }
        let ids = found.unwrap();
        let ghost e0 = self.spec_entries();
        let ghost nb = old(device).spec_num_blocks();
        let ghost fat_lo = self.spec_fat_offset();
        let ghost fat_hi = self.spec_fat_offset() + 4 * self.spec_entries().len();
        let n = ids.len();
        let mut i: usize = 0;
        while i < n
            invariant
                self.wf(),
                n == ids@.len() == count,
                count >= 1,
                i <= n,
                self.spec_fat_offset() == fat_lo,
                self.spec_entries().len() == e0.len(),
                fat_hi == fat_lo + 4 * e0.len(),
                ids@.no_duplicates(),
                forall|k: int|
                    0 <= k < ids@.len() ==> is_data_cluster(e0, #[trigger] ids@[k]) && e0[ids@[k] as int]
                        == FREE_CLUSTER,
                forall|c: int|
                    0 <= c < e0.len() && !ids@.take(i as int).contains(c as u32)
                        ==> self.spec_entries()[c] == #[trigger] e0[c],
                forall|k: int|
                    0 <= k < i ==> self.spec_entries()[#[trigger] ids@[k] as int] == (if k + 1 < n {
                        ids@[k + 1]
                    } else {
                        END_OF_CLUSTER
                    }),
                self.fits(nb),
                cache.wf(),
                cache.bounded(nb),
                cache.coherent(*device),
                cache.quiescent(),
                device.spec_num_blocks() == nb,
                self.synced(*cache, *device),
                forall|a: int|
                    0 <= a < nb * 512 && !(fat_lo <= a < fat_hi) ==> cur_byte(*cache, *device, a)
                        == cur_byte(*old(cache), *old(device), a),
            decreases n - i,
        {
            let nxt: u32;
            if i + 1 < n {
                nxt = ids[i + 1];
            } else {
                nxt = END_OF_CLUSTER;
            }
            let ghost before = self.spec_entries();
            self.write_entry(ids[i], nxt, cache, device);
            proof {
                assert(0 <= self.entry_addr(ids@[i as int] as int) && self.entry_addr(
                    ids@[i as int] as int,
                ) + 4 <= fat_hi);
                assert forall|c: int|
                    0 <= c < e0.len() && !ids@.take(i + 1).contains(c as u32) implies self.spec_entries()[c] == #[trigger] e0[c] by {
                    assert(!ids@.take(i as int).contains(c as u32)) by {
                        if ids@.take(i as int).contains(c as u32) {
                            let j = choose|j: int|
                                0 <= j < i && #[trigger] ids@.take(i as int)[j] == c as u32;
                            assert(ids@.take(i + 1)[j] == c as u32);
                        }
                    }
                    assert(c != ids@[i as int]) by {
                        if c == ids@[i as int] {
                            assert(ids@.take(i + 1)[i as int] == c as u32);
                        }
                    }
                }
                assert forall|k: int|
                    0 <= k < i + 1 implies self.spec_entries()[#[trigger] ids@[k] as int] == (if k
                    + 1 < n {
                    ids@[k + 1]
                } else {
                    END_OF_CLUSTER
                }) by {
                    if k < i {
                        assert(ids@[k] != ids@[i as int]);
                        assert(self.spec_entries()[ids@[k] as int] == before[ids@[k] as int]);
                    }
                }
            }
            i = i + 1;
        }
        let first = ids[0];
        let is_linked = current_last_cluster >= 2 && (current_last_cluster as usize)
            < self.entries.len();
        let ghost e_mid = self.spec_entries();
        if is_linked {
            proof {
                assert(!ids@.contains(current_last_cluster)) by {
                    if ids@.contains(current_last_cluster) {
                        let j = choose|j: int|
                            0 <= j < ids@.len() && ids@[j] == current_last_cluster;
                        assert(e0[current_last_cluster as int] == FREE_CLUSTER);
                        assert(e0[current_last_cluster as int] == END_OF_CLUSTER);
                    }
                }
                assert(ids@.take(n as int) =~= ids@);
            }
            self.write_entry(current_last_cluster, first, cache, device);
        }
        proof {
            assert(ids@.take(n as int) =~= ids@);
            let ef = self.spec_entries();
            assert(linked_up(e0, ef, ids@, current_last_cluster)) by {
                if is_linked {
                    assert(!ids@.contains(current_last_cluster));
                    assert forall|c: int|
                        0 <= c < e0.len() && !ids@.contains(c as u32) && c
                            != current_last_cluster implies ef[c] == #[trigger] e0[c] by {
                        assert(e_mid[c] == e0[c]);
                    }
                    assert forall|k: int|
                        0 <= k < ids@.len() - 1 implies ef[#[trigger] ids@[k] as int] == ids@[k
                        + 1] by {
                        assert(ids@[k] != current_last_cluster);
                        assert(e_mid[ids@[k] as int] == ids@[k + 1]);
                    }
                    assert(ids@.last() != current_last_cluster);
                    assert(ef[ids@.last() as int] == e_mid[ids@.last() as int]);
                } else {
                    assert(!is_data_cluster(e0, current_last_cluster));
                }
            }
            assert(count <= count_free(e0)) by {
                lemma_count_free_ids(e0, ids@);
            }
        }
        Some(first)
    }

    /// Marks each listed cluster free, in the mirror and on disk; the
    /// order does not matter since each link is independent.
    pub fn dealloc_cluster(
        &mut self,
        list: Vec<u32>,
        cache: &mut BlockCacheManager,
        device: &mut DiskImage,
    )
        requires
            old(self).wf(),
            old(self).fits(old(device).spec_num_blocks()),
            old(cache).wf(),
            old(cache).bounded(old(device).spec_num_blocks()),
            old(cache).coherent(*old(device)),
            old(cache).quiescent(),
            old(self).synced(*old(cache), *old(device)),
            forall|i: int|
                0 <= i < list@.len() ==> is_data_cluster(
                    old(self).spec_entries(),
                    #[trigger] list@[i],
                ),
        ensures
            final(self).wf(),
            final(self).spec_fat_offset() == old(self).spec_fat_offset(),
            final(self).spec_entries().len() == old(self).spec_entries().len(),
            final(self).synced(*final(cache), *final(device)),
            final(cache).wf(),
            final(cache).bounded(final(device).spec_num_blocks()),
            final(cache).coherent(*final(device)),
            final(cache).quiescent(),
            final(device).spec_num_blocks() == old(device).spec_num_blocks(),
            forall|c: int|
                0 <= c < old(self).spec_entries().len() ==> final(self).spec_entries()[c] == (
                if list@.contains(c as u32) {
                    FREE_CLUSTER
                } else {
                    old(self).spec_entries()[c]
                }),
            forall|a: int|
                0 <= a < old(device).spec_num_blocks() * 512 && !(old(self).spec_fat_offset() <= a
                    < old(self).spec_fat_offset() + 4 * old(self).spec_entries().len())
                    ==> cur_byte(*final(cache), *final(device), a) == cur_byte(
                    *old(cache),
                    *old(device),
                    a,
                ),
    {
        let ghost e0 = self.spec_entries();
        let ghost nb = old(device).spec_num_blocks();
        let ghost fat_lo = self.spec_fat_offset();
        let ghost fat_hi = self.spec_fat_offset() + 4 * self.spec_entries().len();
        let n = list.len();
        let mut i: usize = 0;
        while i < n
            invariant
                self.wf(),
                n == list@.len(),
                i <= n,
                self.spec_fat_offset() == fat_lo,
                self.spec_entries().len() == e0.len(),
                fat_hi == fat_lo + 4 * e0.len(),
                forall|k: int| 0 <= k < list@.len() ==> is_data_cluster(e0, #[trigger] list@[k]),
                forall|c: int|
                    0 <= c < e0.len() && !list@.take(i as int).contains(c as u32)
                        ==> self.spec_entries()[c] == #[trigger] e0[c],
                forall|k: int|
                    0 <= k < i ==> self.spec_entries()[#[trigger] list@[k] as int] == FREE_CLUSTER,
                self.fits(nb),
                cache.wf(),
                cache.bounded(nb),
                cache.coherent(*device),
                cache.quiescent(),
                device.spec_num_blocks() == nb,
                self.synced(*cache, *device),
                forall|a: int|
                    0 <= a < nb * 512 && !(fat_lo <= a < fat_hi) ==> cur_byte(*cache, *device, a)
                        == cur_byte(*old(cache), *old(device), a),
            decreases n - i,
        {
            let ghost before = self.spec_entries();
            self.write_entry(list[i], FREE_CLUSTER, cache, device);
            proof {
                assert(0 <= self.entry_addr(list@[i as int] as int) && self.entry_addr(
                    list@[i as int] as int,
                ) + 4 <= fat_hi);
                assert forall|c: int|
                    0 <= c < e0.len() && !list@.take(i + 1).contains(
                        c as u32,
                    ) implies self.spec_entries()[c] == #[trigger] e0[c] by {
                    assert(!list@.take(i as int).contains(c as u32)) by {
                        if list@.take(i as int).contains(c as u32) {
                            let j = choose|j: int|
                                0 <= j < i && #[trigger] list@.take(i as int)[j] == c as u32;
                            assert(list@.take(i + 1)[j] == c as u32);
                        }
                    }
                    assert(c != list@[i as int] as int) by {
                        if c == list@[i as int] as int {
                            assert(list@.take(i + 1)[i as int] == c as u32);
                        }
                    }
                    assert(before[c] == e0[c]);
                }
                assert forall|k: int|
                    0 <= k < i + 1 implies self.spec_entries()[#[trigger] list@[k] as int]
                    == FREE_CLUSTER by {
                    if list@[k] as int != list@[i as int] as int {
                        assert(self.spec_entries()[list@[k] as int] == before[list@[k] as int]);
                    }
                }
            }
            i = i + 1;
        }
        proof {
            assert(list@.take(n as int) =~= list@);
            assert forall|c: int|
                0 <= c < e0.len() implies final(self).spec_entries()[c] == (if list@.contains(
                c as u32,
            ) {
                FREE_CLUSTER
            } else {
                e0[c]
            }) by {
                if list@.contains(c as u32) {
                    let k = choose|k: int| 0 <= k < list@.len() && #[trigger] list@[k] == c as u32;
                    assert(final(self).spec_entries()[list@[k] as int] == FREE_CLUSTER);
                }
            }
        }
    }
}

/// Reads the four bytes of entry `c` through the cache.
fn read_fat_cell(
    fat_offset: usize,
    c: usize,
    cache: &mut BlockCacheManager,
    device: &mut DiskImage,
) -> (r: u32)
    requires
        fat_offset % 512 == 0,
        c < 0x0FFF_FF00,
        fat_offset + 4 * c + 4 <= old(device).spec_num_blocks() * 512,
        old(cache).wf(),
        old(cache).bounded(old(device).spec_num_blocks()),
        old(cache).coherent(*old(device)),
        old(cache).quiescent(),
    ensures
        final(cache).wf(),
        final(cache).bounded(final(device).spec_num_blocks()),
        final(cache).coherent(*final(device)),
        final(cache).quiescent(),
        final(device).spec_num_blocks() == old(device).spec_num_blocks(),
        forall|a: int|
            0 <= a < old(device).spec_num_blocks() * 512 ==> cur_byte(
                *final(cache),
                *final(device),
                a,
            ) == cur_byte(*old(cache), *old(device), a),
        forall|k: int|
            0 <= k < 4 ==> cur_byte(*final(cache), *final(device), fat_offset + 4 * c + k)
                == u32_byte(r, k),
{
    let ghost nb = old(device).spec_num_blocks();
    proof {
        old(device).lemma_bytes_fit();
    }
    let block: usize = fat_offset / 512 + c / 128;
    let off: usize = 4 * (c % 128);
    let ghost addr = fat_offset + 4 * c;
    proof {
        lemma_fat_cell_pos(fat_offset as int, c as int, nb);
        assert(block == addr / 512 && off == addr % 512);
    }
    let ghost cache0 = *cache;
    let ghost device0 = *device;
    let h = cache.get_block_cache(block, device);
    let ghost cache1 = *cache;
    let bytes = cache.read(h, off, 4);
    let r = crate::entry::read_u32_le(bytes.as_slice(), 0);
    cache.release(h);
    proof {
        assert(final(cache).quiescent()) by {
            assert forall|b: usize| #[trigger]
                final(cache).is_resident(b) implies final(cache).refs_of(b) == 0 by {
                if b == block {
                } else {
                    if cache0.is_resident(b) {
                        assert(cache0.refs_of(b) == 0);
                    } else {
                        assert(!cache1.is_resident(b));
                    }
                }
            }
        }
        assert forall|a: int|
            0 <= a < nb * 512 implies cur_byte(*final(cache), *final(device), a) == cur_byte(
            cache0,
            device0,
            a,
        ) by {
            vstd::arithmetic::div_mod::lemma_fundamental_div_mod(a, 512);
            lemma_div_bound(a, nb);
            let ab = (a / 512) as usize;
            assert(cache1.cur_block(*device, ab) =~= cache0.cur_block(device0, ab));
            if cache1.is_resident(ab) {
                assert(final(cache).data_of(ab) == cache1.data_of(ab));
            }
        }
        assert forall|k: int| 0 <= k < 4 implies cur_byte(
            *final(cache),
            *final(device),
            addr + k,
        ) == u32_byte(r, k) by {
            vstd::arithmetic::div_mod::lemma_fundamental_div_mod_converse(
                addr + k,
                512,
                block as int,
                off + k,
            );
            assert(bytes@[k] == cache1.data_of(block)[off + k]);
            assert(cache1.data_of(block) =~= cache1.cur_block(*device, block));
            assert(cur_byte(*final(cache), *final(device), addr + k) == cache1.data_of(block)[off
                + k]);
        }
    }
    r
}

/// An address below the device's end lies in a block below the block
/// count.
pub proof fn lemma_div_bound(a: int, nb: int)
    requires
        0 <= a < nb * 512,
    ensures
        0 <= a / 512 < nb,
{
    assert(0 <= a / 512 && a / 512 < nb) by (nonlinear_arith)
        requires
            0 <= a < nb * 512,
    ;
}

/// Block and offset of FAT cell `c`: the table is block aligned, so the
/// cell sits at block `fat_offset / 512 + c / 128`, offset `4 * (c % 128)`,
/// wholly inside that block.
proof fn lemma_fat_cell_pos(fat_offset: int, c: int, nb: int)
    requires
        fat_offset % 512 == 0,
        0 <= c,
        fat_offset >= 0,
        fat_offset + 4 * c + 4 <= nb * 512,
    ensures
        0 <= 4 * (c % 128) <= 508,
        fat_offset + 4 * c == 512 * (fat_offset / 512 + c / 128) + 4 * (c % 128),
        (fat_offset + 4 * c) / 512 == fat_offset / 512 + c / 128,
        (fat_offset + 4 * c) % 512 == 4 * (c % 128),
        fat_offset / 512 + c / 128 < nb,
{
    vstd::arithmetic::div_mod::lemma_fundamental_div_mod(fat_offset, 512);
    vstd::arithmetic::div_mod::lemma_fundamental_div_mod(c, 128);
    assert(0 <= c % 128 < 128 && 0 <= fat_offset % 512);
    assert(fat_offset + 4 * c == 512 * (fat_offset / 512 + c / 128) + 4 * (c % 128))
        by (nonlinear_arith)
        requires
            fat_offset == 512 * (fat_offset / 512) + fat_offset % 512,
            fat_offset % 512 == 0,
            c == 128 * (c / 128) + c % 128,
    ;
    vstd::arithmetic::div_mod::lemma_fundamental_div_mod_converse(
        fat_offset + 4 * c,
        512,
        fat_offset / 512 + c / 128,
        4 * (c % 128),
    );
    assert(fat_offset / 512 + c / 128 < nb) by (nonlinear_arith)
        requires
            512 * (fat_offset / 512 + c / 128) + 4 * (c % 128) + 4 <= nb * 512,
            0 <= 4 * (c % 128),
    ;
}

/// Free-count monotonicity in the scan bound.
proof fn lemma_count_free_mono(entries: Seq<u32>, m: int, n: int)
    requires
        m <= n,
    ensures
        count_free_upto(entries, m) <= count_free_upto(entries, n),
    decreases n - m,
{
    if m < n {
        lemma_count_free_mono(entries, m, n - 1);
    }
}

/// A duplicate-free set of free data clusters is a lower bound on the free
/// count.
proof fn lemma_count_free_ids(entries: Seq<u32>, ids: Seq<u32>)
    requires
        entries.len() <= 0x0FFF_FF00,
        ids.no_duplicates(),
        forall|i: int|
            0 <= i < ids.len() ==> is_data_cluster(entries, #[trigger] ids[i]) && entries[ids[i] as int]
                == FREE_CLUSTER,
    ensures
        ids.len() <= count_free(entries),
    decreases entries.len(),
{
    lemma_count_free_ids_upto(entries, ids, entries.len() as int);
}

proof fn lemma_count_free_ids_upto(entries: Seq<u32>, ids: Seq<u32>, n: int)
    requires
        entries.len() <= 0x0FFF_FF00,
        ids.no_duplicates(),
        n <= entries.len(),
        forall|i: int|
            0 <= i < ids.len() ==> is_data_cluster(entries, #[trigger] ids[i]) && entries[ids[i] as int]
                == FREE_CLUSTER && (ids[i] as int) < n,
    ensures
        ids.len() <= count_free_upto(entries, n),
    decreases n,
{
    if n <= 2 {
        assert(ids.len() == 0) by {
            if ids.len() > 0 {
                assert(2 <= ids[0] && (ids[0] as int) < n);
            }
        }
    } else {
        let here = (n - 1) as u32;
        if ids.contains(here) {
            let j = choose|j: int| 0 <= j < ids.len() && ids[j] == here;
            let rest = ids.remove(j);
            assert(rest.no_duplicates()) by {
                assert forall|a: int, b: int|
                    0 <= a < rest.len() && 0 <= b < rest.len() && a != b implies rest[a]
                    != rest[b] by {
                    let a2 = if a < j { a } else { a + 1 };
                    let b2 = if b < j { b } else { b + 1 };
                    assert(rest[a] == ids[a2] && rest[b] == ids[b2]);
                }
            }
            assert forall|i: int|
                0 <= i < rest.len() implies is_data_cluster(entries, #[trigger] rest[i])
                && entries[rest[i] as int] == FREE_CLUSTER && (rest[i] as int) < n - 1 by {
                if i < j {
                    assert(rest[i] == ids[i]);
                } else {
                    assert(rest[i] == ids[i + 1]);
                }
                assert(rest[i] != here) by {
                    if i < j {
                        assert(ids[i] != ids[j]);
                    } else {
                        assert(ids[i + 1] != ids[j]);
                    }
                }
            }
            lemma_count_free_ids_upto(entries, rest, n - 1);
            assert(entries[n - 1] == FREE_CLUSTER);
        } else {
            assert forall|i: int|
                0 <= i < ids.len() implies is_data_cluster(entries, #[trigger] ids[i])
                && entries[ids[i] as int] == FREE_CLUSTER && (ids[i] as int) < n - 1 by {
                assert(ids[i] != here);
            }
            lemma_count_free_ids_upto(entries, ids, n - 1);
        }
    }
}

/// A materialized cluster chain: the first cluster and the full ordered
/// list of clusters, regenerated from the table after a structural change.
pub struct ClusterChain {
    pub start_cluster: u32,
    pub cluster_vec: Vec<u32>,
}

impl ClusterChain {
    /// Whether the list is the table's chain from the start cluster.
    pub open spec fn matches(self, entries: Seq<u32>) -> bool {
        is_chain(entries, self.start_cluster, self.cluster_vec@)
    }

    /// A chain handle that has not been materialized yet.
    pub fn new(start_cluster: u32) -> (r: Self)
        ensures
            r.start_cluster == start_cluster,
            r.cluster_vec@.len() == 0,
    {
        Self { start_cluster, cluster_vec: Vec::new() }
    }

    /// Re-walks the table from the start cluster.
    pub fn generate(&mut self, fat: &FatTable)
        requires
            fat.wf(),
            chain_ok(fat.spec_entries(), old(self).start_cluster),
        ensures
            final(self).start_cluster == old(self).start_cluster,
            final(self).matches(fat.spec_entries()),
            final(self).cluster_vec@ == spec_chain(fat.spec_entries(), old(self).start_cluster),
    {
        self.cluster_vec = fat.get_all_cluster_id(self.start_cluster);
    }

    /// Points the handle at a new first cluster; the list must be
    /// regenerated afterwards.
    pub fn refresh(&mut self, start_cluster: u32)
        ensures
            final(self).start_cluster == start_cluster,
            final(self).cluster_vec@.len() == 0,
    {
        self.start_cluster = start_cluster;
        self.cluster_vec = Vec::new();
    }

    /// Keeps only the first `n` clusters of the materialized list.
    pub fn truncate(&mut self, n: usize)
        requires
            n <= old(self).cluster_vec@.len(),
        ensures
            final(self).start_cluster == old(self).start_cluster,
            final(self).cluster_vec@ == old(self).cluster_vec@.subrange(0, n as int),
    {
        self.cluster_vec.truncate(n);
    }
}

/// Dropping the first link of a chain leaves the chain of its successor.
pub proof fn lemma_chain_tail(entries: Seq<u32>, start: u32, ch: Seq<u32>)
    requires
        entries.len() <= 0x0FFF_FF00,
        is_chain(entries, start, ch),
        ch.len() > 0,
    ensures
        is_chain(entries, entries[start as int], ch.drop_first()),
{
    let t = ch.drop_first();
    assert(t.no_duplicates()) by {
        assert(forall|i: int| 0 <= i < t.len() ==> t[i] == ch[i + 1]);
    }
    if ch.len() == 1 {
        assert(entries[start as int] == END_OF_CLUSTER);
        assert(!is_data_cluster(entries, END_OF_CLUSTER));
    } else {
        assert(t[0] == ch[1]);
        assert(entries[ch[0] as int] == ch[1]);
        assert(t.last() == ch.last());
        assert forall|i: int| 0 <= i < t.len() - 1 implies entries[#[trigger] t[i] as int] == t[i
            + 1] by {
            assert(t[i] == ch[i + 1] && t[i + 1] == ch[i + 2]);
        }
    }
}

/// A start cluster has at most one chain.
pub proof fn lemma_chain_unique(entries: Seq<u32>, start: u32, ch1: Seq<u32>, ch2: Seq<u32>)
    requires
        entries.len() <= 0x0FFF_FF00,
        is_chain(entries, start, ch1),
        is_chain(entries, start, ch2),
    ensures
        ch1 =~= ch2,
    decreases ch1.len(),
{
    if ch1.len() == 0 {
        assert(ch2.len() == 0) by {
            if ch2.len() > 0 {
                assert(is_data_cluster(entries, ch2[0]));
            }
        }
    } else {
        assert(ch2.len() > 0) by {
            assert(is_data_cluster(entries, ch1[0]));
        }
        lemma_chain_tail(entries, start, ch1);
        lemma_chain_tail(entries, start, ch2);
        lemma_chain_unique(entries, entries[start as int], ch1.drop_first(), ch2.drop_first());
        assert(ch1 =~= seq![ch1[0]] + ch1.drop_first());
        assert(ch2 =~= seq![ch2[0]] + ch2.drop_first());
    }
}

/// No cluster of a chain is free: each one links onward or carries the end
/// marker.
pub proof fn lemma_chain_not_free(entries: Seq<u32>, start: u32, ch: Seq<u32>)
    requires
        is_chain(entries, start, ch),
    ensures
        forall|i: int| 0 <= i < ch.len() ==> entries[#[trigger] ch[i] as int] != FREE_CLUSTER,
{
    assert forall|i: int| 0 <= i < ch.len() implies entries[#[trigger] ch[i] as int]
        != FREE_CLUSTER by {
        if i < ch.len() - 1 {
            assert(entries[ch[i] as int] == ch[i + 1]);
            assert(is_data_cluster(entries, ch[i + 1]));
        } else {
            assert(ch[i] == ch.last());
        }
    }
}

/// Cluster-chain consistency under growth: hanging `ids` off the tail of
/// an existing chain yields exactly the old chain followed by the new
/// clusters, each distinct, still ending at the end marker.
pub proof fn lemma_alloc_extends_chain(
    old_e: Seq<u32>,
    new_e: Seq<u32>,
    ids: Seq<u32>,
    prev: u32,
    start: u32,
    ch: Seq<u32>,
)
    requires
        linked_up(old_e, new_e, ids, prev),
        is_chain(old_e, start, ch),
        ch.len() > 0,
        ch.last() == prev,
    ensures
        is_chain(new_e, start, ch + ids),
{
    lemma_chain_not_free(old_e, start, ch);
    let full = ch + ids;
    assert forall|i: int| 0 <= i < ch.len() implies !ids.contains(#[trigger] ch[i]) by {
        if ids.contains(ch[i]) {
            let j = choose|j: int| 0 <= j < ids.len() && ids[j] == ch[i];
            assert(old_e[ids[j] as int] == FREE_CLUSTER);
        }
    }
    assert(full.no_duplicates()) by {
        assert forall|a: int, b: int|
            0 <= a < full.len() && 0 <= b < full.len() && a != b implies full[a] != full[b] by {
            if a < ch.len() && b < ch.len() {
            } else if a >= ch.len() && b >= ch.len() {
                assert(full[a] == ids[a - ch.len()] && full[b] == ids[b - ch.len()]);
            } else if a < ch.len() {
                assert(full[b] == ids[b - ch.len()]);
                assert(!ids.contains(ch[a]));
                if full[a] == full[b] {
                    assert(ids[b - ch.len()] == ch[a]);
                }
            } else {
                assert(full[a] == ids[a - ch.len()]);
                assert(!ids.contains(ch[b]));
                if full[a] == full[b] {
                    assert(ids[a - ch.len()] == ch[b]);
                }
            }
        }
    }
    assert(is_data_cluster(old_e, prev));
    assert forall|i: int| 0 <= i < full.len() implies is_data_cluster(new_e, #[trigger] full[i]) by {
        if i < ch.len() {
            assert(is_data_cluster(old_e, ch[i]));
        } else {
            assert(full[i] == ids[i - ch.len()]);
            assert(is_data_cluster(old_e, ids[i - ch.len()]));
        }
    }
    assert(full[0] == start);
    assert forall|i: int| 0 <= i < full.len() - 1 implies new_e[#[trigger] full[i] as int] == full[
        i + 1] by {
        if i < ch.len() - 1 {
            assert(full[i] == ch[i] && full[i + 1] == ch[i + 1]);
            assert(ch[i] != prev) by {
                if ch[i] == prev {
                    assert(ch[i] == ch.last());
                }
            }
            assert(!ids.contains(ch[i]));
            assert(new_e[ch[i] as int] == old_e[ch[i] as int]);
        } else if i == ch.len() - 1 {
            assert(full[i] == prev && full[i + 1] == ids[0]);
        } else {
            assert(full[i] == ids[i - ch.len()] && full[i + 1] == ids[i - ch.len() + 1]);
        }
    }
    assert(full.last() == ids.last());
    assert(new_e[full.last() as int] == END_OF_CLUSTER);
}

/// Cluster-chain consistency for a file that had no clusters: the fresh
/// allocation is the whole chain from its first new cluster.
pub proof fn lemma_alloc_fresh_chain(old_e: Seq<u32>, new_e: Seq<u32>, ids: Seq<u32>, prev: u32)
    requires
        linked_up(old_e, new_e, ids, prev),
        !is_data_cluster(old_e, prev),
    ensures
        is_chain(new_e, ids[0], ids),
{
    assert forall|i: int| 0 <= i < ids.len() implies is_data_cluster(new_e, #[trigger] ids[i]) by {
        assert(is_data_cluster(old_e, ids[i]));
    }
}

/// Deallocation safety: a chain disjoint from the freed list is untouched,
/// so no freed cluster is reachable from any other live chain.
pub proof fn lemma_dealloc_keeps_chain(
    old_e: Seq<u32>,
    new_e: Seq<u32>,
    list: Seq<u32>,
    start: u32,
    ch: Seq<u32>,
)
    requires
        is_chain(old_e, start, ch),
        new_e.len() == old_e.len(),
        forall|c: int|
            0 <= c < old_e.len() ==> new_e[c] == (if list.contains(c as u32) {
                FREE_CLUSTER
            } else {
                old_e[c]
            }),
        forall|i: int| 0 <= i < ch.len() ==> !list.contains(#[trigger] ch[i]),
    ensures
        is_chain(new_e, start, ch),
{
    assert forall|i: int| 0 <= i < ch.len() implies is_data_cluster(new_e, #[trigger] ch[i]) by {
        assert(is_data_cluster(old_e, ch[i]));
    }
    if ch.len() > 0 {
        assert forall|i: int| 0 <= i < ch.len() - 1 implies new_e[#[trigger] ch[i] as int] == ch[i
            + 1] by {
            assert(!list.contains(ch[i]));
            assert((ch[i] as int) < old_e.len());
            assert(new_e[ch[i] as int] == old_e[ch[i] as int]);
        }
        assert(!list.contains(ch.last()));
        assert(new_e[ch.last() as int] == old_e[ch.last() as int]);
    }
}

/// Pushing an element absent from a duplicate-free sequence keeps it
/// duplicate free.
pub proof fn lemma_push_nodup32(s: Seq<u32>, x: u32)
    requires
        s.no_duplicates(),
        !s.contains(x),
    ensures
        s.push(x).no_duplicates(),
{
    assert forall|i: int, j: int|
        0 <= i < s.push(x).len() && 0 <= j < s.push(x).len() && i != j implies s.push(x)[i]
        != s.push(x)[j] by {
        if i < s.len() && j < s.len() {
        } else if i < s.len() {
            if s.push(x)[i] == x {
                assert(s[i] == x);
                assert(s.contains(x));
            }
        } else if j < s.len() {
            if s.push(x)[j] == x {
                assert(s[j] == x);
                assert(s.contains(x));
            }
        }
    }
}

/// On a zeroed image with an empty cache, every table cell reads as zero:
/// the free marker.
pub proof fn lemma_zeroed_cell(
    t: FatTable,
    cache: BlockCacheManager,
    d: DiskImage,
    c: int,
    num_blocks: int,
)
    requires
        t.wf(),
        0 <= c < t.spec_entries().len(),
        t.fits(num_blocks),
        d.spec_num_blocks() == num_blocks,
        d.bytes() =~= Seq::new((num_blocks * 512) as nat, |i: int| 0u8),
        forall|b: usize| !cache.is_resident(b),
    ensures
        fat_bytes_hold(t, cache, d, c, FREE_CLUSTER),
{
    lemma_cur_byte_unfold(cache, d, t.entry_addr(c));
    lemma_cur_byte_unfold(cache, d, t.entry_addr(c) + 1);
    lemma_cur_byte_unfold(cache, d, t.entry_addr(c) + 2);
    lemma_cur_byte_unfold(cache, d, t.entry_addr(c) + 3);
    assert(u32_byte(FREE_CLUSTER, 0) == 0 && u32_byte(FREE_CLUSTER, 1) == 0 && u32_byte(
        FREE_CLUSTER,
        2,
    ) == 0 && u32_byte(FREE_CLUSTER, 3) == 0);
}

/// The current byte at `a` is entry `a % 512` of the current view of block
/// `a / 512`, which for a non-resident block is the device byte `a` itself.
pub proof fn lemma_cur_byte_unfold(cache: BlockCacheManager, d: DiskImage, a: int)
    requires
        0 <= a < d.spec_num_blocks() * 512,
    ensures
        !cache.is_resident((a / 512) as usize) ==> cur_byte(cache, d, a) == d.bytes()[a],
        0 <= a / 512 < d.spec_num_blocks(),
        0 <= a % 512 < 512,
        a == 512 * (a / 512) + a % 512,
{
    vstd::arithmetic::div_mod::lemma_fundamental_div_mod(a, 512);
    lemma_div_bound(a, d.spec_num_blocks());
    d.lemma_bytes_fit();
    assert((a / 512) as usize as int == a / 512);
    if !cache.is_resident((a / 512) as usize) {
        assert(cur_byte(cache, d, a) == d.block_view(a / 512)[a % 512]);
        assert(d.block_view(a / 512)[a % 512] == d.bytes()[(a / 512) * 512 + a % 512]);
    }
}

/// A duplicate-free sequence of data-cluster ids below `n` holds at most
/// `n - 2` elements.
pub proof fn lemma_distinct_bounded(ids: Seq<u32>, n: int)
    requires
        ids.no_duplicates(),
        2 <= n <= 0x0FFF_FF00,
        forall|i: int| 0 <= i < ids.len() ==> 2 <= #[trigger] ids[i] && (ids[i] as int) < n,
    ensures
        ids.len() <= n - 2,
    decreases n,
{
    if n == 2 {
        assert(ids.len() == 0) by {
            if ids.len() > 0 {
                assert(2 <= ids[0] && (ids[0] as int) < n);
                assert(false);
            }
        }
    } else {
        let here = (n - 1) as u32;
        if ids.contains(here) {
            let j = choose|j: int| 0 <= j < ids.len() && ids[j] == here;
            let rest = ids.remove(j);
            assert(rest.no_duplicates()) by {
                assert forall|a: int, b: int|
                    0 <= a < rest.len() && 0 <= b < rest.len() && a != b implies rest[a]
                    != rest[b] by {
                    let a2 = if a < j { a } else { a + 1 };
                    let b2 = if b < j { b } else { b + 1 };
                    assert(rest[a] == ids[a2] && rest[b] == ids[b2]);
                }
            }
            assert forall|i: int| 0 <= i < rest.len() implies 2 <= #[trigger] rest[i] && (
            rest[i] as int) < n - 1 by {
                let i2 = if i < j { i } else { i + 1 };
                assert(rest[i] == ids[i2]);
                assert(rest[i] != here) by {
                    if i < j {
                        assert(ids[i] != ids[j]);
                    } else {
                        assert(ids[i + 1] != ids[j]);
                    }
                }
            }
            lemma_distinct_bounded(rest, n - 1);
        } else {
            assert forall|i: int| 0 <= i < ids.len() implies 2 <= #[trigger] ids[i] && (
            ids[i] as int) < n - 1 by {
                assert(ids[i] != here);
            }
            lemma_distinct_bounded(ids, n - 1);
        }
    }
}

/// A table in sync stays in sync when every current byte is unchanged.
pub proof fn lemma_synced_transfer(
    t: FatTable,
    c1: BlockCacheManager,
    d1: DiskImage,
    c2: BlockCacheManager,
    d2: DiskImage,
)
    requires
        t.synced(c1, d1),
        t.fits(d1.spec_num_blocks()),
        t.spec_fat_offset() >= 0,
        d2.spec_num_blocks() == d1.spec_num_blocks(),
        forall|a: int|
            0 <= a < d1.spec_num_blocks() * 512 ==> cur_byte(c2, d2, a) == cur_byte(c1, d1, a),
    ensures
        t.synced(c2, d2),
{
    assert forall|c: int|
        0 <= c < t.spec_entries().len() implies #[trigger] fat_bytes_hold(
        t,
        c2,
        d2,
        c,
        t.spec_entries()[c],
    ) by {
        assert(fat_bytes_hold(t, c1, d1, c, t.spec_entries()[c]));
        assert(0 <= t.entry_addr(c) && t.entry_addr(c) + 4 <= d1.spec_num_blocks() * 512);
    }
}

/// Blockwise equality of two engine states gives bytewise equality.
pub proof fn lemma_cur_bytes_from_blocks(
    c1: BlockCacheManager,
    d1: DiskImage,
    c2: BlockCacheManager,
    d2: DiskImage,
)
    requires
        d1.spec_num_blocks() == d2.spec_num_blocks(),
        forall|b: usize|
            (b as int) < d1.spec_num_blocks() ==> c1.cur_block(d1, b) =~= c2.cur_block(d2, b),
    ensures
        forall|a: int|
            0 <= a < d1.spec_num_blocks() * 512 ==> cur_byte(c1, d1, a) == cur_byte(c2, d2, a),
{
    assert forall|a: int|
        0 <= a < d1.spec_num_blocks() * 512 implies cur_byte(c1, d1, a) == cur_byte(c2, d2, a) by {
        lemma_cur_byte_unfold(c1, d1, a);
        assert(c1.cur_block(d1, (a / 512) as usize) =~= c2.cur_block(d2, (a / 512) as usize));
    }
}

/// The four little-endian bytes of value `v` stand at entry `c`'s address
/// in the engine's current view of the disk.
pub open spec fn fat_bytes_hold(
    t: FatTable,
    cache: BlockCacheManager,
    d: DiskImage,
    c: int,
    v: u32,
) -> bool {
    &&& cur_byte(cache, d, t.entry_addr(c)) == u32_byte(v, 0)
    &&& cur_byte(cache, d, t.entry_addr(c) + 1) == u32_byte(v, 1)
    &&& cur_byte(cache, d, t.entry_addr(c) + 2) == u32_byte(v, 2)
    &&& cur_byte(cache, d, t.entry_addr(c) + 3) == u32_byte(v, 3)
}

/// The engine's current content of the byte at disk address `a`: the
/// cached copy of its block when resident, the device byte otherwise.
pub open spec fn cur_byte(cache: BlockCacheManager, d: DiskImage, a: int) -> u8 {
    cache.cur_block(d, (a / 512) as usize)[a % 512]
}

} // verus!
