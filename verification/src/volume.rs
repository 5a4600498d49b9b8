//! The mounted volume: externally supplied geometry, the device image, the
//! block cache, the FAT mirror and the synthetic root entry, tied together
//! by one well-formedness invariant — in particular, the FAT mirror always
//! agrees with the engine's current bytes of the on-disk table.

use vstd::prelude::*;

use crate::cache::BlockCacheManager;
use crate::device::DiskImage;
use crate::entry::ShortDirEntry;
use crate::fat::{cur_byte, lemma_synced_transfer, FatTable};
use crate::BLOCK_SIZE;

verus! {

/// Geometry constants the boot-sector parser supplies: where the first
/// FAT copy and the data region start, the cluster shape, and the root
/// directory's first cluster.
#[derive(Clone, Copy, Debug)]
pub struct Bpb {
    pub root_cluster: u32,
    pub sectors_per_cluster: usize,
    pub fat1_offset: usize,
    pub data_offset: usize,
    pub n_clusters: usize,
}

impl Bpb {
    /// Bytes per cluster.
    pub open spec fn spec_cluster_size(self) -> int {
        self.sectors_per_cluster * 512
    }

    /// Sane geometry: block-aligned regions, the table below the data
    /// region, a real root cluster, and totals that fit comfortably. The
    /// volume's byte total is capped at 1 GiB — tighter than the format's
    /// own limits — so that every byte address and size computation fits a
    /// 32-bit `usize` with headroom.
    pub open spec fn wf(self) -> bool {
        &&& 1 <= self.sectors_per_cluster <= 128
        &&& self.fat1_offset % 512 == 0
        &&& self.data_offset % 512 == 0
        &&& 2 <= self.n_clusters <= 0x0FFF_F000
        &&& self.fat1_offset + 4 * self.n_clusters <= self.data_offset
        &&& 2 <= self.root_cluster && (self.root_cluster as int) < self.n_clusters
        &&& self.spec_end() <= 0x4000_0000
    }

    /// One byte past the last data cluster.
    pub open spec fn spec_end(self) -> int {
        self.data_offset + (self.n_clusters - 2) * self.spec_cluster_size()
    }

    /// Disk byte offset of data cluster `cluster`.
    pub open spec fn spec_offset(self, cluster: int) -> int {
        self.data_offset + (cluster - 2) * self.spec_cluster_size()
    }

    pub fn root_cluster(&self) -> (r: u32)
        ensures
            r == self.root_cluster,
    {
        self.root_cluster
    }

    pub fn fat1_offset(&self) -> (r: usize)
        ensures
            r == self.fat1_offset,
    {
        self.fat1_offset
    }

    pub fn sectors_per_cluster(&self) -> (r: usize)
        ensures
            r == self.sectors_per_cluster,
    {
        self.sectors_per_cluster
    }

    pub fn bytes_per_cluster(&self) -> (r: usize)
        requires
            self.wf(),
        ensures
            r == self.spec_cluster_size(),
    {
        self.sectors_per_cluster * 512
    }

    /// Disk byte offset of data cluster `cluster`.
    pub fn offset(&self, cluster: u32) -> (r: usize)
        requires
            self.wf(),
            2 <= cluster,
            (cluster as int) < self.n_clusters,
        ensures
            r == self.spec_offset(cluster as int),
            self.data_offset <= r,
            r + self.spec_cluster_size() <= self.spec_end(),
    {
        proof {
            lemma_cluster_span(*self, cluster as int);
        }
        self.data_offset + (cluster as usize - 2) * (self.sectors_per_cluster * 512)
    }
}

/// A cluster's byte span lies between the start of the data region and its
/// end.
pub proof fn lemma_cluster_span(bpb: Bpb, cluster: int)
    requires
        bpb.wf(),
        2 <= cluster < bpb.n_clusters,
    ensures
        bpb.data_offset <= bpb.spec_offset(cluster),
        bpb.spec_offset(cluster) + bpb.spec_cluster_size() <= bpb.spec_end(),
        bpb.spec_offset(cluster) % 512 == 0,
{
    let cs = bpb.spec_cluster_size();
    assert(0 <= (cluster - 2) * cs && (cluster - 2) * cs + cs <= (bpb.n_clusters - 2) * cs)
        by (nonlinear_arith)
        requires
            0 <= cluster - 2 < bpb.n_clusters - 2,
            cs >= 512,
    ;
    let m = (cluster - 2) * bpb.sectors_per_cluster;
    assert((cluster - 2) * cs == m * 512) by (nonlinear_arith)
        requires
            cs == bpb.sectors_per_cluster * 512,
            m == (cluster - 2) * bpb.sectors_per_cluster,
    ;
    assert((bpb.data_offset + m * 512) % 512 == 0) by (nonlinear_arith)
        requires
            bpb.data_offset % 512 == 0,
    ;
}

/// The value of FAT cell `c` as the raw image stores it, little endian.
pub open spec fn image_fat_entry(d: DiskImage, fat_offset: int, c: int) -> int {
    d.bytes()[fat_offset + 4 * c] + 256 * d.bytes()[fat_offset + 4 * c + 1] + 65536 * d.bytes()[
        fat_offset + 4 * c + 2] + 16777216 * d.bytes()[fat_offset + 4 * c + 3]
}

/// The whole FAT table as the raw image stores it.
pub open spec fn image_fat_entries(d: DiskImage, fat_offset: int, n: int) -> Seq<u32> {
    Seq::new(n as nat, |c: int| image_fat_entry(d, fat_offset, c) as u32)
}

/// The filesystem: geometry, device image, cache, FAT mirror and the
/// synthetic root directory entry (FAT32 has no on-disk root entry).
pub struct FileSystem {
    pub bpb: Bpb,
    pub device: DiskImage,
    pub cache: BlockCacheManager,
    pub fat: FatTable,
    pub root_dir_entry: ShortDirEntry,
}

impl FileSystem {
    /// The cross-structure invariant: sane geometry, a healthy quiescent
    /// cache that faithfully overlays the device, a FAT mirror that agrees
    /// with the on-disk table byte for byte, a device large enough for the
    /// whole data region, and a walkable root directory chain.
    pub open spec fn wf(self) -> bool {
        &&& self.bpb.wf()
        &&& self.fat.wf()
        &&& self.cache.wf()
        &&& self.cache.bounded(self.device.spec_num_blocks())
        &&& self.cache.coherent(self.device)
        &&& self.cache.quiescent()
        &&& self.fat.synced(self.cache, self.device)
        &&& self.fat.spec_entries().len() == self.bpb.n_clusters
        &&& self.fat.spec_fat_offset() == self.bpb.fat1_offset
        &&& self.bpb.spec_end() <= self.device.spec_num_blocks() * 512
    }

    /// Two states that the engine cannot tell apart from the outside: same
    /// geometry, same FAT mirror, same root entry, same block count and
    /// the same current content of every byte.
    pub open spec fn state_eq(self, other: FileSystem) -> bool {
        &&& self.bpb == other.bpb
        &&& self.fat == other.fat
        &&& self.root_dir_entry == other.root_dir_entry
        &&& self.device.spec_num_blocks() == other.device.spec_num_blocks()
        &&& forall|a: int|
            0 <= a < self.device.spec_num_blocks() * 512 ==> cur_byte(
                self.cache,
                self.device,
                a,
            ) == cur_byte(other.cache, other.device, a)
    }

    /// State equality is transitive.
    pub proof fn lemma_state_eq_trans(self, mid: FileSystem, first: FileSystem)
        requires
            self.state_eq(mid),
            mid.state_eq(first),
        ensures
            self.state_eq(first),
    {
        assert forall|a: int|
            0 <= a < self.device.spec_num_blocks() * 512 implies cur_byte(
            self.cache,
            self.device,
            a,
        ) == cur_byte(first.cache, first.device, a) by {
            assert(cur_byte(self.cache, self.device, a) == cur_byte(mid.cache, mid.device, a));
        }
    }

    pub fn cluster_size(&self) -> (r: usize)
        requires
            self.bpb.wf(),
        ensures
            r == self.bpb.spec_cluster_size(),
    {
        self.bpb.bytes_per_cluster()
    }

    pub fn sector_pre_cluster(&self) -> (r: usize)
        ensures
            r == self.bpb.sectors_per_cluster,
    {
        self.bpb.sectors_per_cluster
    }

    /// Builds a fresh, empty volume on a zeroed image: reserved table
    /// entries and an empty root directory chain.
    pub fn create(bpb: Bpb, num_blocks: usize) -> (r: Self)
        requires
            bpb.wf(),
            bpb.spec_end() <= num_blocks * 512,
            num_blocks * 512 <= usize::MAX,
        ensures
            r.wf(),
            r.bpb == bpb,
            r.device.spec_num_blocks() == num_blocks,
            crate::fat::spec_chain(r.fat.spec_entries(), bpb.root_cluster) =~= seq![
                bpb.root_cluster,
            ],
    {
        let mut device = DiskImage::new(num_blocks);
        let mut cache = BlockCacheManager::new();
        let mut fat = FatTable::new(bpb.fat1_offset, bpb.n_clusters);
        proof {
            assert(cache.bounded(device.spec_num_blocks()));
            assert(cache.coherent(device)) by {
                assert(forall|b: usize| !cache.is_resident(b));
            }
            assert(cache.quiescent()) by {
                assert(forall|b: usize| !cache.is_resident(b));
            }
            assert(fat.synced(cache, device)) by {
                assert forall|c: int|
                    0 <= c < fat.spec_entries().len() implies #[trigger] crate::fat::fat_bytes_hold(
                    fat,
                    cache,
                    device,
                    c,
                    fat.spec_entries()[c],
                ) by {
                    crate::fat::lemma_zeroed_cell(fat, cache, device, c, num_blocks as int);
                }
            }
        }
        fat.init_reserved(&mut cache, &mut device);
        fat.set_next_cluster(bpb.root_cluster, crate::END_OF_CLUSTER, &mut cache, &mut device);
        let root_dir_entry = ShortDirEntry::new(
            bpb.root_cluster,
            &[],
            &[],
            crate::vf::VirtFileType::Dir,
        );
        let r = Self { bpb, device, cache, fat, root_dir_entry };
        proof {
            let e = r.fat.spec_entries();
            let ch = seq![bpb.root_cluster];
            assert(crate::fat::is_chain(e, bpb.root_cluster, ch)) by {
                assert(ch[0] == bpb.root_cluster);
                assert(e[bpb.root_cluster as int] == crate::END_OF_CLUSTER);
            }
            crate::fat::lemma_chain_unique(
                e,
                bpb.root_cluster,
                ch,
                crate::fat::spec_chain(e, bpb.root_cluster),
            );
        }
        r
    }

    /// Mounts an existing image: loads the FAT table stored in the image
    /// and checks that the root directory chain walks to the end marker; a
    /// corrupt table (a cycle, an out-of-range link, a missing end marker)
    /// yields nothing, and exactly then.
    pub fn open(device: DiskImage, bpb: Bpb) -> (r: Option<Self>)
        requires
            bpb.wf(),
            bpb.spec_end() <= device.spec_num_blocks() * 512,
        ensures
            r is Some <==> crate::fat::chain_ok(
                image_fat_entries(device, bpb.fat1_offset as int, bpb.n_clusters as int),
                bpb.root_cluster,
            ),
            r matches Some(fs) ==> fs.wf() && fs.bpb == bpb && fs.fat.spec_entries()
                =~= image_fat_entries(device, bpb.fat1_offset as int, bpb.n_clusters as int),
    {
        let ghost image = device;
        let mut device = device;
        let mut cache = BlockCacheManager::new();
        proof {
            assert(cache.bounded(device.spec_num_blocks()));
            assert(cache.coherent(device)) by {
                assert(forall|b: usize| !cache.is_resident(b));
            }
            assert(cache.quiescent()) by {
                assert(forall|b: usize| !cache.is_resident(b));
            }
        }
        let ghost cache0 = cache;
        let fat = FatTable::load(bpb.fat1_offset, bpb.n_clusters, &mut cache, &mut device);
        proof {
            let ents = image_fat_entries(image, bpb.fat1_offset as int, bpb.n_clusters as int);
            assert forall|c: int| 0 <= c < bpb.n_clusters implies fat.spec_entries()[c] == ents[
            c] by {
                assert(crate::fat::fat_bytes_hold(fat, cache, device, c, fat.spec_entries()[c]));
                let x = fat.spec_entries()[c];
                assert forall|k: int|
                    #![trigger cur_byte(cache, device, fat.entry_addr(c) + k)]
                    0 <= k < 4 implies cur_byte(cache, device, fat.entry_addr(c) + k)
                    == image.bytes()[bpb.fat1_offset + 4 * c + k] by {
                    assert(0 <= fat.entry_addr(c) + k < image.spec_num_blocks() * 512);
                    assert(cur_byte(cache, device, fat.entry_addr(c) + k) == cur_byte(
                        cache0,
                        image,
                        fat.entry_addr(c) + k,
                    ));
                    crate::fat::lemma_cur_byte_unfold(cache0, image, fat.entry_addr(c) + k);
                    assert(!cache0.is_resident(((fat.entry_addr(c) + k) / 512) as usize));
                }
                crate::entry::lemma_u32_le_value(x);
                assert(x as int == image_fat_entry(
                    image,
                    bpb.fat1_offset as int,
                    c,
                ));
            }
            assert(fat.spec_entries() =~= ents);
        }
        let walk = fat.try_get_all(bpb.root_cluster);
        if walk.is_none() {
            return None;
        }
        let root_dir_entry = ShortDirEntry::new(
            bpb.root_cluster,
            &[],
            &[],
            crate::vf::VirtFileType::Dir,
        );
        Some(Self { bpb, device, cache, fat, root_dir_entry })
    }

    /// Reads `len` bytes at offset `off` inside block `block` of the
    /// engine's current content.
    pub fn read_block_range(&mut self, block: usize, off: usize, len: usize) -> (r: Vec<u8>)
        requires
            old(self).wf(),
            (block as int) < old(self).device.spec_num_blocks(),
            off + len <= BLOCK_SIZE,
        ensures
            final(self).wf(),
            final(self).state_eq(*old(self)),
            r@.len() == len,
            forall|k: int|
                0 <= k < len ==> r@[k] == cur_byte(
                    old(self).cache,
                    old(self).device,
                    block * 512 + off + k,
                ),
    {
        let ghost fs0 = *old(self);
        let ghost nb = old(self).device.spec_num_blocks();
        proof {
            fs0.device.lemma_bytes_fit();
        }
        let ghost cache0 = old(self).cache;
        let h = self.cache.get_block_cache(block, &mut self.device);
        let ghost cache1 = self.cache;
        let r = self.cache.read(h, off, len);
        self.cache.release(h);
        proof {
            assert(final(self).cache.quiescent()) by {
                assert forall|b: usize| #[trigger]
                    final(self).cache.is_resident(b) implies final(self).cache.refs_of(b)
                    == 0 by {
                    if b != block {
                        if cache0.is_resident(b) {
                            assert(cache0.refs_of(b) == 0);
                        } else {
                            assert(!cache1.is_resident(b));
                        }
                    }
                }
            }
            crate::fat::lemma_cur_bytes_from_blocks(
                final(self).cache,
                final(self).device,
                cache0,
                fs0.device,
            );
            assert(final(self).fat.synced(final(self).cache, final(self).device)) by {
                lemma_synced_transfer(
                    final(self).fat,
                    fs0.cache,
                    fs0.device,
                    final(self).cache,
                    final(self).device,
                );
            }
            assert forall|k: int| 0 <= k < len implies r@[k] == cur_byte(
                cache0,
                fs0.device,
                block * 512 + off + k,
            ) by {
                vstd::arithmetic::div_mod::lemma_fundamental_div_mod_converse(
                    block * 512 + off + k,
                    512,
                    block as int,
                    off + k,
                );
                assert(r@[k] == cache1.data_of(block)[off + k]);
                assert(cache1.data_of(block) =~= cache0.cur_block(fs0.device, block));
            }
        }
        r
    }

    /// Writes `src` at offset `off` inside block `block`, which must lie
    /// in the data region (the FAT is changed only through the table).
    pub fn write_block_range(&mut self, block: usize, off: usize, src: &[u8])
        requires
            old(self).wf(),
            (block as int) < old(self).device.spec_num_blocks(),
            off + src@.len() <= BLOCK_SIZE,
            old(self).bpb.data_offset <= block * 512,
        ensures
            final(self).wf(),
            final(self).bpb == old(self).bpb,
            final(self).fat == old(self).fat,
            final(self).root_dir_entry == old(self).root_dir_entry,
            final(self).device.spec_num_blocks() == old(self).device.spec_num_blocks(),
            forall|k: int|
                0 <= k < src@.len() ==> cur_byte(
                    final(self).cache,
                    final(self).device,
                    block * 512 + off + k,
                ) == src@[k],
            forall|a: int|
                0 <= a < old(self).device.spec_num_blocks() * 512 && !(block * 512 + off <= a
                    < block * 512 + off + src@.len()) ==> cur_byte(
                    final(self).cache,
                    final(self).device,
                    a,
                ) == cur_byte(old(self).cache, old(self).device, a),
    {
        let ghost fs0 = *old(self);
        let ghost nb = old(self).device.spec_num_blocks();
        proof {
            fs0.device.lemma_bytes_fit();
        }
        let ghost cache0 = old(self).cache;
        let h = self.cache.get_block_cache(block, &mut self.device);
        let ghost cache1 = self.cache;
        let ghost device1 = self.device;
        self.cache.modify(h, off, src);
        let ghost cache2 = self.cache;
        self.cache.release(h);
        proof {
            assert(final(self).cache.quiescent()) by {
                assert forall|b: usize| #[trigger]
                    final(self).cache.is_resident(b) implies final(self).cache.refs_of(b)
                    == 0 by {
                    if b != block {
                        if cache0.is_resident(b) {
                            assert(cache0.refs_of(b) == 0);
                        } else {
                            assert(!cache1.is_resident(b));
                        }
                    }
                }
            }
            assert(final(self).cache.coherent(final(self).device)) by {
                assert forall|b: usize|
                    #[trigger] final(self).cache.is_resident(b) && !final(self).cache.dirty_of(
                        b,
                    ) implies final(self).cache.data_of(b) == final(self).device.block_view(
                    b as int,
                ) by {
                    assert(b != block);
                    assert(cache2.is_resident(b) == cache1.is_resident(b));
                    assert(cache1.coherent(device1));
                }
            }
            assert forall|a: int|
                0 <= a < nb * 512 && !(block * 512 + off <= a < block * 512 + off
                    + src@.len()) implies cur_byte(final(self).cache, final(self).device, a)
                == cur_byte(cache0, fs0.device, a) by {
                crate::fat::lemma_cur_byte_unfold(final(self).cache, final(self).device, a);
                let ab = (a / 512) as usize;
                assert(cache1.cur_block(device1, ab) =~= cache0.cur_block(fs0.device, ab));
                if ab == block {
                    assert(!(off <= a % 512 < off + src@.len())) by {
                        if off <= a % 512 < off + src@.len() {
                            assert(a == 512 * (a / 512) + a % 512);
                            assert(block * 512 + off <= a < block * 512 + off + src@.len());
                        }
                    }
                    assert(final(self).cache.data_of(block)[a % 512] == cache1.data_of(block)[a
                        % 512]);
                    assert(cache1.data_of(block) =~= cache1.cur_block(device1, block));
                } else {
                    assert(final(self).cache.cur_block(final(self).device, ab)
                        =~= cache2.cur_block(device1, ab));
                    assert(cache2.cur_block(device1, ab) =~= cache1.cur_block(device1, ab)) by {
                        if cache1.is_resident(ab) {
                            assert(cache2.data_of(ab) == cache1.data_of(ab));
                        }
                    }
                }
            }
            assert forall|k: int| 0 <= k < src@.len() implies cur_byte(
                final(self).cache,
                final(self).device,
                block * 512 + off + k,
            ) == src@[k] by {
                vstd::arithmetic::div_mod::lemma_fundamental_div_mod_converse(
                    block * 512 + off + k,
                    512,
                    block as int,
                    off + k,
                );
                assert(final(self).cache.data_of(block)[off + k] == src@[k]);
            }
            assert(final(self).fat.synced(final(self).cache, final(self).device)) by {
                assert forall|c: int|
                    0 <= c < final(self).fat.spec_entries().len()
                        implies #[trigger] crate::fat::fat_bytes_hold(
                    final(self).fat,
                    final(self).cache,
                    final(self).device,
                    c,
                    final(self).fat.spec_entries()[c],
                ) by {
                    assert(crate::fat::fat_bytes_hold(
                        fs0.fat,
                        fs0.cache,
                        fs0.device,
                        c,
                        fs0.fat.spec_entries()[c],
                    ));
                    assert(fs0.fat.entry_addr(c) + 4 <= fs0.bpb.data_offset);
                    assert(fs0.bpb.data_offset <= block * 512 + off);
                    assert(0 <= fs0.fat.entry_addr(c) && fs0.fat.entry_addr(c) + 4 <= nb * 512);
                }
            }
        }
    }

    /// Flushes every dirty cached block: the raw image afterwards holds
    /// the engine's current content of every block.
    pub fn sync_all(&mut self)
        requires
            old(self).wf(),
        ensures
            final(self).wf(),
            final(self).state_eq(*old(self)),
            forall|a: int|
                0 <= a < final(self).device.spec_num_blocks() * 512 ==> final(self).device.bytes()[a] == cur_byte(old(self).cache, old(self).device, a),
    {
        let ghost fs0 = *old(self);
        self.cache.sync_all(&mut self.device);
        proof {
            fs0.device.lemma_bytes_fit();
            crate::fat::lemma_cur_bytes_from_blocks(
                final(self).cache,
                final(self).device,
                fs0.cache,
                fs0.device,
            );
            assert(final(self).fat.synced(final(self).cache, final(self).device)) by {
                assert forall|c: int|
                    0 <= c < final(self).fat.spec_entries().len()
                        implies #[trigger] crate::fat::fat_bytes_hold(
                    final(self).fat,
                    final(self).cache,
                    final(self).device,
                    c,
                    final(self).fat.spec_entries()[c],
                ) by {
                    assert(crate::fat::fat_bytes_hold(
                        fs0.fat,
                        fs0.cache,
                        fs0.device,
                        c,
                        fs0.fat.spec_entries()[c],
                    ));
                    assert(0 <= final(self).fat.entry_addr(c) && final(self).fat.entry_addr(c) + 4
                        <= final(self).device.spec_num_blocks() * 512);
                }
            }
            assert forall|a: int|
                0 <= a < final(self).device.spec_num_blocks() * 512 implies final(self).device.bytes()[a] == crate::fat::cur_byte(fs0.cache, fs0.device, a) by {
                crate::fat::lemma_cur_byte_unfold(final(self).cache, final(self).device, a);
                let b = (a / 512) as usize;
                assert(final(self).device.block_view(a / 512) =~= fs0.cache.cur_block(
                    fs0.device,
                    b,
                ));
                assert(final(self).device.block_view(a / 512)[a % 512] == final(self).device.bytes()[a]);
            }
        }
    }
}

} // verus!
