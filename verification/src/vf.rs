//! Virtual file handles: the caller-facing abstraction combining a
//! directory entry position, a materialized cluster chain and
//! read/write/resize logic. Every operation takes the filesystem it works
//! against; byte-offset operations translate through the chain and the
//! geometry into block cache accesses.

use vstd::prelude::*;
use vstd::string::StringExecFns;

use crate::entry::{sde_matches_bytes, u16_hi, u16_lo, LongDirEntry, ShortDirEntry};
use crate::fat::{cur_byte, is_chain, ClusterChain};
use crate::volume::{Bpb, FileSystem};
use crate::{BLOCK_SIZE, DIRENT_SIZE, ROOT_DIR_ENTRY_CLUSTER};

verus! {

/// What kind of object a directory entry names.
#[derive(Debug, Clone, Copy, PartialEq, Eq, Structural)]
pub enum VirtFileType {
    Dir,
    File,
}

/// On-disk location of one 32-byte directory entry: the cluster that holds
/// it and the byte offset of the record inside that cluster.
///
/// The root directory has no on-disk entry; its position carries the
/// reserved sentinel cluster id instead of a real cluster.
#[derive(Debug, Clone, Copy, PartialEq, Eq, Structural)]
pub struct DirEntryPos {
    pub cluster: u32,
    pub offset_in_cluster: usize,
}

impl DirEntryPos {
    pub fn new(start_cluster: u32, offset_in_cluster: usize) -> (r: Self)
        ensures
            r.cluster == start_cluster,
            r.offset_in_cluster == offset_in_cluster,
    {
        Self { cluster: start_cluster, offset_in_cluster }
    }
}

/// A little-endian 16-bit value read from two bytes.
pub open spec fn le16_at(b: Seq<u8>, at: int) -> int {
    b[at] + 256 * b[at + 1]
}

/// The first-cluster number stored in a 32-byte short entry record.
pub open spec fn sde_bytes_first_cluster(b: Seq<u8>) -> int {
    le16_at(b, 26) + 0x10000 * le16_at(b, 20)
}

/// The file size stored in a 32-byte short entry record.
pub open spec fn sde_bytes_file_size(b: Seq<u8>) -> int {
    b[28] + 256 * b[29] + 65536 * b[30] + 16777216 * b[31]
}

/// An entry and its record agree on the interpreted fields.
pub proof fn lemma_sde_fields_from_bytes(e: ShortDirEntry, b: Seq<u8>)
    requires
        sde_matches_bytes(e, b),
    ensures
        e.spec_first_cluster() == sde_bytes_first_cluster(b),
        e.file_size == sde_bytes_file_size(b),
        e.attr == b[11],
        e.name[0] == b[0],
{
    lemma_u16_split(e.fst_clus_lo);
    lemma_u16_split(e.fst_clus_hi);
    let x = e.file_size;
    assert(x == x % 256 + 256 * ((x / 256) % 256) + 65536 * ((x / 65536) % 256) + 16777216 * ((x
        / 16777216) % 256)) by (bit_vector);
}

proof fn lemma_u16_split(x: u16)
    ensures
        x == u16_lo(x) + 256 * u16_hi(x),
{
}

/// Whether a directory entry position names a real, aligned slot.
pub open spec fn pos_wf(bpb: Bpb, pos: DirEntryPos) -> bool {
    &&& 2 <= pos.cluster
    &&& (pos.cluster as int) < bpb.n_clusters
    &&& pos.offset_in_cluster % 32 == 0
    &&& pos.offset_in_cluster + 32 <= bpb.spec_cluster_size()
}

/// The disk byte address of a directory entry position.
pub open spec fn pos_addr(bpb: Bpb, pos: DirEntryPos) -> int {
    bpb.spec_offset(pos.cluster as int) + pos.offset_in_cluster
}

/// The engine's current bytes at `addr .. addr + n`.
pub open spec fn bytes_at(fs: FileSystem, addr: int, n: int) -> Seq<u8> {
    Seq::new(n as nat, |k: int| cur_byte(fs.cache, fs.device, addr + k))
}

/// The disk byte address of offset `off` within a file laid out along
/// `chain`.
pub open spec fn file_addr(bpb: Bpb, chain: Seq<u32>, off: int) -> int {
    bpb.spec_offset(chain[off / bpb.spec_cluster_size()] as int) + off % bpb.spec_cluster_size()
}

/// An aligned position within a block-aligned base splits cleanly into a
/// block number and an in-block offset that leaves room for one record.
pub proof fn lemma_entry_split(base: int, oc: int)
    requires
        base % 512 == 0,
        base >= 0,
        oc >= 0,
        oc % 32 == 0,
    ensures
        (base + oc) / 512 == base / 512 + oc / 512,
        (base + oc) % 512 == oc % 512,
        oc % 512 + 32 <= 512,
        base + oc == 512 * ((base + oc) / 512) + (base + oc) % 512,
{
    vstd::arithmetic::div_mod::lemma_fundamental_div_mod(base, 512);
    vstd::arithmetic::div_mod::lemma_fundamental_div_mod(oc, 512);
    assert((oc % 512) % 32 == 0) by (nonlinear_arith)
        requires
            oc % 32 == 0,
            oc == 512 * (oc / 512) + oc % 512,
            0 <= oc % 512 < 512,
    ;
    assert(oc % 512 + 32 <= 512) by (nonlinear_arith)
        requires
            (oc % 512) % 32 == 0,
            0 <= oc % 512 < 512,
    ;
    vstd::arithmetic::div_mod::lemma_fundamental_div_mod_converse(
        base + oc,
        512,
        base / 512 + oc / 512,
        oc % 512,
    );
    vstd::arithmetic::div_mod::lemma_fundamental_div_mod(base + oc, 512);
}

/// A file handle: its name, the position of its short entry, the positions
/// of its long entries, its materialized cluster chain and its type.
pub struct VirtFile {
    pub name: String,
    pub sde_pos: DirEntryPos,
    pub lde_pos: Vec<DirEntryPos>,
    pub cluster_chain: ClusterChain,
    pub attr: VirtFileType,
}

impl VirtFile {
    /// Whether this handle is the root directory, which has no on-disk
    /// short entry.
    pub open spec fn is_root(self) -> bool {
        self.sde_pos.cluster == ROOT_DIR_ENTRY_CLUSTER
    }

    /// The 32 current bytes of this file's short entry record (non-root).
    pub open spec fn spec_sde_bytes(self, fs: FileSystem) -> Seq<u8> {
        bytes_at(fs, pos_addr(fs.bpb, self.sde_pos), 32)
    }

    /// The 32 current bytes of long entry `i`'s record.
    pub open spec fn spec_lde_bytes(self, fs: FileSystem, i: int) -> Seq<u8> {
        bytes_at(fs, pos_addr(fs.bpb, self.lde_pos@[i]), 32)
    }

    /// The file's stored first cluster number.
    pub open spec fn spec_first_cluster(self, fs: FileSystem) -> int {
        if self.is_root() {
            fs.root_dir_entry.spec_first_cluster() as int
        } else {
            sde_bytes_first_cluster(self.spec_sde_bytes(fs))
        }
    }

    /// The file's stored size.
    pub open spec fn spec_file_size(self, fs: FileSystem) -> int {
        if self.is_root() {
            fs.root_dir_entry.file_size as int
        } else {
            sde_bytes_file_size(self.spec_sde_bytes(fs))
        }
    }

    /// The materialized chain.
    pub open spec fn chain(self) -> Seq<u32> {
        self.cluster_chain.cluster_vec@
    }

    /// The entry positions are real slots.
    pub open spec fn pos_ok(self, fs: FileSystem) -> bool {
        &&& (self.is_root() || pos_wf(fs.bpb, self.sde_pos))
        &&& forall|i: int| 0 <= i < self.lde_pos@.len() ==> pos_wf(fs.bpb, #[trigger] self.lde_pos@[i])
    }

    /// The handle is consistent with the filesystem: valid positions, and
    /// a materialized chain that is exactly the table's chain from the
    /// stored first cluster.
    pub open spec fn wf(self, fs: FileSystem) -> bool {
        &&& self.pos_ok(fs)
        &&& self.cluster_chain.start_cluster as int == self.spec_first_cluster(fs)
        &&& self.cluster_chain.matches(fs.fat.spec_entries())
    }

    /// The engine's current byte at offset `off` of this file.
    pub open spec fn spec_file_byte(self, fs: FileSystem, off: int) -> u8 {
        cur_byte(fs.cache, fs.device, file_addr(fs.bpb, self.chain(), off))
    }

    /// Assembles a handle from its parts.
    pub fn new(
        name: String,
        sde_pos: DirEntryPos,
        lde_pos: Vec<DirEntryPos>,
        cluster_chain: ClusterChain,
        attr: VirtFileType,
    ) -> (r: Self)
        ensures
            r.name == name,
            r.sde_pos == sde_pos,
            r.lde_pos == lde_pos,
            r.cluster_chain == cluster_chain,
            r.attr == attr,
    {
        Self { name, sde_pos, lde_pos, cluster_chain, attr }
    }

    pub fn name(&self) -> (r: &str)
        ensures
            r@ == self.name@,
    {
        self.name.as_str()
    }

    pub fn is_dir(&self) -> (r: bool)
        ensures
            r == (self.attr is Dir),
    {
        self.attr == VirtFileType::Dir
    }

    pub fn is_file(&self) -> (r: bool)
        ensures
            r == (self.attr is File),
    {
        self.attr == VirtFileType::File
    }

    /// Block id and in-block offset of this file's short entry (the root
    /// has none).
    pub fn sde_pos(&self, fs: &FileSystem) -> (r: (usize, usize))
        requires
            fs.wf(),
            !self.is_root(),
            self.pos_ok(*fs),
        ensures
            r.0 * 512 + r.1 == pos_addr(fs.bpb, self.sde_pos),
            r.1 + 32 <= 512,
            (r.0 as int) < fs.device.spec_num_blocks(),
    {
        let cluster_offset = fs.bpb.offset(self.sde_pos.cluster);
        let offset = self.sde_pos.offset_in_cluster + cluster_offset;
        proof {
            crate::volume::lemma_cluster_span(fs.bpb, self.sde_pos.cluster as int);
            lemma_entry_split(cluster_offset as int, self.sde_pos.offset_in_cluster as int);
            crate::fat::lemma_div_bound(offset as int, fs.device.spec_num_blocks());
            fs.device.lemma_bytes_fit();
        }
        let offset_in_block = offset % BLOCK_SIZE;
        let block_id = offset / BLOCK_SIZE;
        (block_id, offset_in_block)
    }

    /// Block id and in-block offset of long entry `index`.
    pub fn lde_pos(&self, fs: &FileSystem, index: usize) -> (r: (usize, usize))
        requires
            fs.wf(),
            self.pos_ok(*fs),
            index < self.lde_pos@.len(),
        ensures
            r.0 * 512 + r.1 == pos_addr(fs.bpb, self.lde_pos@[index as int]),
            r.1 + 32 <= 512,
            (r.0 as int) < fs.device.spec_num_blocks(),
    {
        let pos = self.lde_pos[index];
        let cluster_offset = fs.bpb.offset(pos.cluster);
        let offset = pos.offset_in_cluster + cluster_offset;
        proof {
            crate::volume::lemma_cluster_span(fs.bpb, pos.cluster as int);
            lemma_entry_split(cluster_offset as int, pos.offset_in_cluster as int);
            crate::fat::lemma_div_bound(offset as int, fs.device.spec_num_blocks());
            fs.device.lemma_bytes_fit();
        }
        let offset_in_block = offset % BLOCK_SIZE;
        let block_id = offset / BLOCK_SIZE;
        (block_id, offset_in_block)
    }

    /// Reads this file's short entry: the root's synthetic entry, or the
    /// 32 bytes decoded at its on-disk position.
    pub fn read_sde(&self, fs: &mut FileSystem) -> (r: ShortDirEntry)
        requires
            old(fs).wf(),
            self.pos_ok(*old(fs)),
        ensures
            final(fs).wf(),
            final(fs).state_eq(*old(fs)),
            self.is_root() ==> r == old(fs).root_dir_entry,
            !self.is_root() ==> sde_matches_bytes(r, self.spec_sde_bytes(*old(fs))),
    {
        if self.sde_pos.cluster == ROOT_DIR_ENTRY_CLUSTER {
            let r = fs.root_dir_entry;
            proof {
                lemma_state_eq_refl(*fs);
            }
            return r;
        }
        let (block_id, offset_in_block) = self.sde_pos(fs);
        let bytes = fs.read_block_range(block_id, offset_in_block, 32);
        let r = ShortDirEntry::new_from_bytes(bytes.as_slice());
        proof {
            assert(bytes@.subrange(0, 32) =~= bytes@);
            assert(bytes@ =~= self.spec_sde_bytes(*old(fs)));
        }
        r
    }

    /// Writes this file's short entry: the root's synthetic entry in
    /// memory, or the 32 encoded bytes at its on-disk position; nothing
    /// else changes.
    pub fn modify_sde(&self, fs: &mut FileSystem, e: &ShortDirEntry)
        requires
            old(fs).wf(),
            self.pos_ok(*old(fs)),
        ensures
            final(fs).wf(),
            final(fs).bpb == old(fs).bpb,
            final(fs).fat == old(fs).fat,
            final(fs).device.spec_num_blocks() == old(fs).device.spec_num_blocks(),
            self.is_root() ==> final(fs).root_dir_entry == *e && forall|a: int|
                0 <= a < old(fs).device.spec_num_blocks() * 512 ==> cur_byte(
                    final(fs).cache,
                    final(fs).device,
                    a,
                ) == cur_byte(old(fs).cache, old(fs).device, a),
            !self.is_root() ==> final(fs).root_dir_entry == old(fs).root_dir_entry
                && sde_matches_bytes(*e, self.spec_sde_bytes(*final(fs))) && (forall|a: int|
                0 <= a < old(fs).device.spec_num_blocks() * 512 && !(pos_addr(
                    old(fs).bpb,
                    self.sde_pos,
                ) <= a < pos_addr(old(fs).bpb, self.sde_pos) + 32) ==> cur_byte(
                    final(fs).cache,
                    final(fs).device,
                    a,
                ) == cur_byte(old(fs).cache, old(fs).device, a)),
    {
        if self.sde_pos.cluster == ROOT_DIR_ENTRY_CLUSTER {
            fs.root_dir_entry = *e;
            return;
        }
        let (block_id, offset_in_block) = self.sde_pos(fs);
        let bytes = e.to_bytes_array();
        proof {
            crate::volume::lemma_cluster_span(fs.bpb, self.sde_pos.cluster as int);
            assert(fs.bpb.data_offset <= block_id * 512) by {
                lemma_entry_split(
                    fs.bpb.spec_offset(self.sde_pos.cluster as int),
                    self.sde_pos.offset_in_cluster as int,
                );
            }
        }
        fs.write_block_range(block_id, offset_in_block, bytes.as_slice());
        proof {
            assert forall|k: int| 0 <= k < 32 implies self.spec_sde_bytes(*final(fs))[k]
                == bytes@[k] by {
                assert(cur_byte(
                    final(fs).cache,
                    final(fs).device,
                    block_id * 512 + offset_in_block + k,
                ) == bytes@[k]);
            }
            assert(self.spec_sde_bytes(*final(fs)) =~= bytes@);
        }
    }

    /// Reads long entry `index`.
    pub fn read_lde(&self, fs: &mut FileSystem, index: usize) -> (r: LongDirEntry)
        requires
            old(fs).wf(),
            self.pos_ok(*old(fs)),
            index < self.lde_pos@.len(),
        ensures
            final(fs).wf(),
            final(fs).state_eq(*old(fs)),
            crate::entry::lde_matches_bytes(r, self.spec_lde_bytes(*old(fs), index as int)),
    {
        let (block_id, offset_in_block) = self.lde_pos(fs, index);
        let bytes = fs.read_block_range(block_id, offset_in_block, 32);
        let r = LongDirEntry::new_form_bytes(bytes.as_slice());
        proof {
            assert(bytes@.subrange(0, 32) =~= bytes@);
            assert(bytes@ =~= self.spec_lde_bytes(*old(fs), index as int));
        }
        r
    }

    /// Writes long entry `index`; nothing else changes.
    pub fn modify_lde(&self, fs: &mut FileSystem, index: usize, e: &LongDirEntry)
        requires
            old(fs).wf(),
            self.pos_ok(*old(fs)),
            index < self.lde_pos@.len(),
        ensures
            final(fs).wf(),
            final(fs).bpb == old(fs).bpb,
            final(fs).fat == old(fs).fat,
            final(fs).root_dir_entry == old(fs).root_dir_entry,
            final(fs).device.spec_num_blocks() == old(fs).device.spec_num_blocks(),
            crate::entry::lde_matches_bytes(*e, self.spec_lde_bytes(*final(fs), index as int)),
            forall|a: int|
                0 <= a < old(fs).device.spec_num_blocks() * 512 && !(pos_addr(
                    old(fs).bpb,
                    self.lde_pos@[index as int],
                ) <= a < pos_addr(old(fs).bpb, self.lde_pos@[index as int]) + 32) ==> cur_byte(
                    final(fs).cache,
                    final(fs).device,
                    a,
                ) == cur_byte(old(fs).cache, old(fs).device, a),
    {
        let (block_id, offset_in_block) = self.lde_pos(fs, index);
        let bytes = e.to_bytes_array();
        proof {
            crate::volume::lemma_cluster_span(fs.bpb, self.lde_pos@[index as int].cluster as int);
            assert(fs.bpb.data_offset <= block_id * 512) by {
                lemma_entry_split(
                    fs.bpb.spec_offset(self.lde_pos@[index as int].cluster as int),
                    self.lde_pos@[index as int].offset_in_cluster as int,
                );
            }
        }
        fs.write_block_range(block_id, offset_in_block, bytes.as_slice());
        proof {
            assert forall|k: int| 0 <= k < 32 implies self.spec_lde_bytes(*final(fs), index as int)[k]
                == bytes@[k] by {
                assert(cur_byte(
                    final(fs).cache,
                    final(fs).device,
                    block_id * 512 + offset_in_block + k,
                ) == bytes@[k]);
            }
            assert(self.spec_lde_bytes(*final(fs), index as int) =~= bytes@);
        }
    }

    /// The stored first cluster number.
    pub fn first_cluster(&self, fs: &mut FileSystem) -> (r: usize)
        requires
            old(fs).wf(),
            self.pos_ok(*old(fs)),
        ensures
            final(fs).wf(),
            final(fs).state_eq(*old(fs)),
            r == self.spec_first_cluster(*old(fs)),
    {
        let e = self.read_sde(fs);
        proof {
            if !self.is_root() {
                lemma_sde_fields_from_bytes(e, self.spec_sde_bytes(*old(fs)));
            }
        }
        e.first_cluster() as usize
    }

    /// The stored size.
    pub fn file_size(&self, fs: &mut FileSystem) -> (r: usize)
        requires
            old(fs).wf(),
            self.pos_ok(*old(fs)),
        ensures
            final(fs).wf(),
            final(fs).state_eq(*old(fs)),
            r == self.spec_file_size(*old(fs)),
    {
        let e = self.read_sde(fs);
        proof {
            if !self.is_root() {
                lemma_sde_fields_from_bytes(e, self.spec_sde_bytes(*old(fs)));
            }
        }
        e.file_size() as usize
    }

    /// Stores a new first cluster number in the short entry.
    pub fn set_first_cluster(&self, fs: &mut FileSystem, cluster: usize)
        requires
            old(fs).wf(),
            self.pos_ok(*old(fs)),
            cluster <= u32::MAX,
        ensures
            final(fs).wf(),
            final(fs).bpb == old(fs).bpb,
            final(fs).fat == old(fs).fat,
            final(fs).device.spec_num_blocks() == old(fs).device.spec_num_blocks(),
            self.spec_first_cluster(*final(fs)) == cluster,
            self.spec_file_size(*final(fs)) == self.spec_file_size(*old(fs)),
            !self.is_root() ==> final(fs).root_dir_entry == old(fs).root_dir_entry,
            forall|a: int|
                0 <= a < old(fs).device.spec_num_blocks() * 512 && !(!self.is_root() && pos_addr(
                    old(fs).bpb,
                    self.sde_pos,
                ) <= a < pos_addr(old(fs).bpb, self.sde_pos) + 32) ==> cur_byte(
                    final(fs).cache,
                    final(fs).device,
                    a,
                ) == cur_byte(old(fs).cache, old(fs).device, a),
    {
        let mut e = self.read_sde(fs);
        let ghost e0 = e;
        e.set_first_cluster(cluster as u32);
        self.modify_sde(fs, &e);
        proof {
            if self.is_root() {
            } else {
                lemma_sde_fields_from_bytes(e0, self.spec_sde_bytes(*old(fs)));
                lemma_sde_fields_from_bytes(e, self.spec_sde_bytes(*final(fs)));
            }
        }
    }

    /// Stores a new size in the short entry.
    pub fn set_file_size(&self, fs: &mut FileSystem, size: usize)
        requires
            old(fs).wf(),
            self.pos_ok(*old(fs)),
            size <= u32::MAX,
        ensures
            final(fs).wf(),
            final(fs).bpb == old(fs).bpb,
            final(fs).fat == old(fs).fat,
            final(fs).device.spec_num_blocks() == old(fs).device.spec_num_blocks(),
            self.spec_file_size(*final(fs)) == size,
            self.spec_first_cluster(*final(fs)) == self.spec_first_cluster(*old(fs)),
            !self.is_root() ==> final(fs).root_dir_entry == old(fs).root_dir_entry,
            forall|a: int|
                0 <= a < old(fs).device.spec_num_blocks() * 512 && !(!self.is_root() && pos_addr(
                    old(fs).bpb,
                    self.sde_pos,
                ) <= a < pos_addr(old(fs).bpb, self.sde_pos) + 32) ==> cur_byte(
                    final(fs).cache,
                    final(fs).device,
                    a,
                ) == cur_byte(old(fs).cache, old(fs).device, a),
    {
        let mut e = self.read_sde(fs);
        let ghost e0 = e;
        e.set_file_size(size as u32);
        self.modify_sde(fs, &e);
        proof {
            if self.is_root() {
            } else {
                lemma_sde_fields_from_bytes(e0, self.spec_sde_bytes(*old(fs)));
                lemma_sde_fields_from_bytes(e, self.spec_sde_bytes(*final(fs)));
            }
        }
    }
}

/// How many bytes a read from `offset` can return: the request, clipped
/// at the end of the chain's coverage.
pub open spec fn read_len(buf_len: int, cov: int, offset: int) -> int {
    if offset >= cov {
        0
    } else if buf_len <= cov - offset {
        buf_len
    } else {
        cov - offset
    }
}

/// Rounding up to whole clusters.
pub open spec fn ceil_div(x: int, d: int) -> int {
    (x + d - 1) / d
}

/// A multiple of 32 reduced modulo a multiple of 32 stays a multiple of 32.
pub proof fn lemma_mod_align(so: int, cs: int)
    requires
        cs > 0,
        so >= 0,
        so % 32 == 0,
        cs % 32 == 0,
    ensures
        (so % cs) % 32 == 0,
{
    vstd::arithmetic::div_mod::lemma_fundamental_div_mod(so, cs);
    vstd::arithmetic::div_mod::lemma_fundamental_div_mod(so, 32);
    vstd::arithmetic::div_mod::lemma_fundamental_div_mod(cs, 32);
    let q = so / cs;
    let r = so % cs;
    let a = cs / 32;
    let b = so / 32;
    assert(r == (b - a * q) * 32) by (nonlinear_arith)
        requires
            so == cs * q + r,
            cs == 32 * a,
            so == 32 * b,
    ;
    vstd::arithmetic::div_mod::lemma_mod_multiples_basic(b - a * q, 32);
}

/// Integer division against multiplication, both directions.
pub proof fn lemma_div_ineq(x: int, d: int, m: int)
    requires
        d > 0,
        x >= 0,
    ensures
        x / d < m ==> x < m * d,
        x / d >= m ==> x >= m * d,
{
    vstd::arithmetic::div_mod::lemma_fundamental_div_mod(x, d);
    assert(x / d < m ==> x < m * d) by (nonlinear_arith)
        requires
            d > 0,
            x == d * (x / d) + x % d,
            0 <= x % d < d,
    ;
    assert(x / d >= m ==> x >= m * d) by (nonlinear_arith)
        requires
            d > 0,
            x == d * (x / d) + x % d,
            0 <= x % d < d,
    ;
}

impl VirtFile {
    /// A materialized chain is bounded by the volume's cluster count, so
    /// its byte coverage fits comfortably.
    pub proof fn lemma_cov_bound(self, fs: FileSystem)
        requires
            fs.wf(),
            self.cluster_chain.matches(fs.fat.spec_entries()),
        ensures
            self.chain().len() <= fs.bpb.n_clusters - 2,
            self.chain().len() * fs.bpb.spec_cluster_size() + fs.bpb.data_offset
                <= fs.bpb.spec_end(),
    {
        crate::fat::lemma_distinct_bounded(self.chain(), fs.bpb.n_clusters as int);
        let cs = fs.bpb.spec_cluster_size();
        assert(self.chain().len() * cs <= (fs.bpb.n_clusters - 2) * cs) by (nonlinear_arith)
            requires
                self.chain().len() <= fs.bpb.n_clusters - 2,
                cs >= 512,
        ;
    }

    /// Copies bytes starting at `offset` into the front of `buf`, stopping
    /// at the end of the cluster chain or when `buf` is full; returns how
    /// many bytes were read. Bytes past the returned count keep their old
    /// values, and the filesystem's content is untouched.
    pub fn read_at(&self, fs: &mut FileSystem, offset: usize, buf: &mut Vec<u8>) -> (n: usize)
        requires
            old(fs).wf(),
            self.wf(*old(fs)),
            offset + old(buf)@.len() <= usize::MAX,
        ensures
            final(fs).wf(),
            final(fs).state_eq(*old(fs)),
            final(buf)@.len() == old(buf)@.len(),
            n == read_len(
                old(buf)@.len() as int,
                self.chain().len() * old(fs).bpb.spec_cluster_size(),
                offset as int,
            ),
            forall|i: int|
                0 <= i < n ==> final(buf)@[i] == self.spec_file_byte(*old(fs), offset + i),
            forall|i: int| n <= i < old(buf)@.len() ==> final(buf)@[i] == old(buf)@[i],
    {
        let ghost fs0 = *old(fs);
        let ghost cov = self.chain().len() * fs0.bpb.spec_cluster_size();
        let cs = fs.cluster_size();
        let chain_len = self.cluster_chain.cluster_vec.len();
        let blen = buf.len();
        proof {
            self.lemma_cov_bound(fs0);
        }
        let mut k: usize = 0;
        while k < blen && (offset + k) / cs < chain_len
            invariant
                fs.wf(),
                fs.state_eq(fs0),
                fs0.wf(),
                self.wf(fs0),
                cs == fs0.bpb.spec_cluster_size(),
                chain_len == self.chain().len(),
                cov == chain_len * cs,
                cov + fs0.bpb.data_offset <= fs0.bpb.spec_end(),
                blen == old(buf)@.len(),
                buf@.len() == blen,
                offset + blen <= usize::MAX,
                k <= read_len(blen as int, cov, offset as int),
                read_len(blen as int, cov, offset as int) <= blen,
                forall|j: int| 0 <= j < k ==> buf@[j] == self.spec_file_byte(fs0, offset + j),
                forall|j: int| k <= j < blen ==> buf@[j] == old(buf)@[j],
            decreases blen - k,
        {
            let pos = offset + k;
            let ci = pos / cs;
            proof {
                lemma_div_ineq(pos as int, cs as int, chain_len as int);
                assert(pos < cov);
                assert(k < read_len(blen as int, cov, offset as int));
                assert(crate::fat::is_data_cluster(
                    fs0.fat.spec_entries(),
                    self.chain()[ci as int],
                ));
            }
            let cluster = self.cluster_chain.cluster_vec[ci];
            let base = fs.bpb.offset(cluster);
            let ib = pos % cs;
            let addr = base + ib;
            proof {
                crate::volume::lemma_cluster_span(fs.bpb, cluster as int);
                vstd::arithmetic::div_mod::lemma_fundamental_div_mod(addr as int, 512);
                crate::fat::lemma_div_bound(addr as int, fs.device.spec_num_blocks());
                fs.device.lemma_bytes_fit();
            }
            let block = addr / BLOCK_SIZE;
            let boff = addr % BLOCK_SIZE;
            let byte = fs.read_block_range(block, boff, 1);
            proof {
                assert(block * 512 + boff == addr);
                assert(addr as int == file_addr(fs0.bpb, self.chain(), pos as int));
                assert(byte@[0] == cur_byte(fs0.cache, fs0.device, addr as int));
            }
            buf.set(k, byte[0]);
            proof {
                assert(buf@[k as int] == self.spec_file_byte(fs0, offset + k));
            }
            k = k + 1;
        }
        proof {
            if k < blen {
                lemma_div_ineq((offset + k) as int, cs as int, chain_len as int);
                assert(offset + k >= cov);
                assert(k >= read_len(blen as int, cov, offset as int));
            }
            assert(k == read_len(blen as int, cov, offset as int));
        }
        k
    }

    /// Size, block size, block count, directory flag and a time stub; a
    /// directory reports cluster count times cluster size, an ordinary
    /// file its stored size.
    pub fn stat(&self, fs: &mut FileSystem) -> (r: (usize, usize, usize, bool, usize))
        requires
            old(fs).wf(),
            self.wf(*old(fs)),
        ensures
            final(fs).wf(),
            final(fs).state_eq(*old(fs)),
            r.0 == (if self.attr is Dir {
                self.chain().len() * old(fs).bpb.spec_cluster_size()
            } else {
                self.spec_file_size(*old(fs))
            }),
            r.1 == BLOCK_SIZE,
            r.2 == self.chain().len() * old(fs).bpb.sectors_per_cluster,
            r.3 == (self.attr is Dir),
            r.4 == 0,
    {
        let ghost fs0 = *old(fs);
        let mut file_size = self.file_size(fs);
        let spc = fs.sector_pre_cluster();
        let cluster_size = fs.cluster_size();
        let cluster_cnt = self.cluster_chain.cluster_vec.len();
        proof {
            self.lemma_cov_bound(fs0);
            assert(cluster_cnt * spc <= cluster_cnt * cluster_size) by (nonlinear_arith)
                requires
                    spc <= cluster_size,
                    cluster_cnt >= 0,
            ;
        }
        let block_cnt = cluster_cnt * spc;
        let is_dir = self.is_dir();
        if is_dir {
            file_size = cluster_cnt * cluster_size;
        }
        (file_size, BLOCK_SIZE, block_cnt, is_dir, 0)
    }

    /// Disk position, as block id and in-block offset, of the record at
    /// byte offset `offset` inside this directory's content; nothing when
    /// the offset lies past the chain.
    pub fn dirent_block_pos(&self, fs: &FileSystem, offset: usize) -> (r: Option<(usize, usize)>)
        requires
            fs.wf(),
            self.wf(*fs),
            offset <= 0x4000_0000,
        ensures
            r is Some <==> (offset as int) / fs.bpb.spec_cluster_size() < self.chain().len(),
            r matches Some(p) ==> p.0 * 512 + p.1 == file_addr(
                fs.bpb,
                self.chain(),
                offset as int,
            ) && p.1 < 512 && (p.0 as int) < fs.device.spec_num_blocks(),
    {
        let cs = fs.cluster_size();
        let ci = offset / cs;
        if ci >= self.cluster_chain.cluster_vec.len() {
            return None;
        }
        let cluster = self.cluster_chain.cluster_vec[ci];
        proof {
            assert(crate::fat::is_data_cluster(fs.fat.spec_entries(), self.chain()[ci as int]));
        }
        let base = fs.bpb.offset(cluster);
        let ib = offset % cs;
        let addr = base + ib;
        proof {
            crate::volume::lemma_cluster_span(fs.bpb, cluster as int);
            vstd::arithmetic::div_mod::lemma_fundamental_div_mod(addr as int, 512);
            crate::fat::lemma_div_bound(addr as int, fs.device.spec_num_blocks());
            fs.device.lemma_bytes_fit();
        }
        Some((addr / BLOCK_SIZE, addr % BLOCK_SIZE))
    }

    /// Disk position, as cluster and in-cluster offset, of the record at
    /// byte offset `offset` inside this directory's content.
    pub fn dirent_cluster_pos(&self, fs: &FileSystem, offset: usize) -> (r: Option<DirEntryPos>)
        requires
            fs.wf(),
            self.wf(*fs),
            offset <= 0x4000_0000,
        ensures
            r is Some <==> (offset as int) / fs.bpb.spec_cluster_size() < self.chain().len(),
            r matches Some(p) ==> p.cluster == self.chain()[(offset as int)
                / fs.bpb.spec_cluster_size()] && p.offset_in_cluster == (offset as int)
                % fs.bpb.spec_cluster_size(),
    {
        let cs = fs.cluster_size();
        let ci = offset / cs;
        if ci >= self.cluster_chain.cluster_vec.len() {
            return None;
        }
        let cluster = self.cluster_chain.cluster_vec[ci];
        Some(DirEntryPos::new(cluster, offset % cs))
    }

    /// Reads the short entry stored at byte offset `sde_offset` of this
    /// directory's content and walks the table from its first cluster;
    /// nothing when the offset lies past the chain or the table is
    /// corrupt there.
    pub fn generate_cluster_chain(&self, fs: &mut FileSystem, sde_offset: usize) -> (r: Option<
        ClusterChain,
    >)
        requires
            old(fs).wf(),
            self.wf(*old(fs)),
            sde_offset % 32 == 0,
            sde_offset <= 0x4000_0000,
        ensures
            final(fs).wf(),
            final(fs).state_eq(*old(fs)),
            r matches Some(ch) ==> ch.matches(final(fs).fat.spec_entries()),
            (sde_offset as int) / old(fs).bpb.spec_cluster_size() >= self.chain().len() ==> r
                is None,
            (sde_offset as int) / old(fs).bpb.spec_cluster_size() < self.chain().len() ==> ({
                let fc = sde_bytes_first_cluster(
                    bytes_at(
                        *old(fs),
                        file_addr(old(fs).bpb, self.chain(), sde_offset as int),
                        32,
                    ),
                );
                &&& (r is Some <==> crate::fat::chain_ok(
                    final(fs).fat.spec_entries(),
                    fc as u32,
                ))
                &&& (r matches Some(ch) ==> ch.start_cluster == fc as u32 && ch.cluster_vec@
                    == crate::fat::spec_chain(final(fs).fat.spec_entries(), fc as u32))
            }),
    {
        let ghost fs0 = *old(fs);
        let cs = fs.cluster_size();
        let ci = sde_offset / cs;
        if ci >= self.cluster_chain.cluster_vec.len() {
            proof {
                lemma_state_eq_refl(*fs);
            }
            return None;
        }
        let cluster = self.cluster_chain.cluster_vec[ci];
        proof {
            assert(crate::fat::is_data_cluster(fs.fat.spec_entries(), self.chain()[ci as int]));
        }
        let base = fs.bpb.offset(cluster);
        let ib = sde_offset % cs;
        let addr = base + ib;
        proof {
            crate::volume::lemma_cluster_span(fs.bpb, cluster as int);
            assert(cs % 32 == 0) by (nonlinear_arith)
                requires
                    cs == fs.bpb.sectors_per_cluster * 512,
            ;
            lemma_mod_align(sde_offset as int, cs as int);
            assert(ib % 32 == 0);
            lemma_entry_split(base as int, ib as int);
            crate::fat::lemma_div_bound(addr as int, fs.device.spec_num_blocks());
            fs.device.lemma_bytes_fit();
        }
        let block = addr / BLOCK_SIZE;
        let boff = addr % BLOCK_SIZE;
        let bytes = fs.read_block_range(block, boff, 32);
        let sde = ShortDirEntry::new_from_bytes(bytes.as_slice());
        let start_cluster = sde.first_cluster();
        proof {
            assert(block * 512 + boff == addr);
            assert(addr as int == file_addr(fs0.bpb, self.chain(), sde_offset as int));
            assert(bytes@ =~= bytes_at(fs0, addr as int, 32));
            assert(bytes@.subrange(0, 32) =~= bytes@);
            lemma_sde_fields_from_bytes(sde, bytes@);
            assert(start_cluster as int == sde_bytes_first_cluster(
                bytes_at(fs0, file_addr(fs0.bpb, self.chain(), sde_offset as int), 32),
            ));
        }
        let walk = fs.fat.try_get_all(start_cluster);
        if let Some(v) = walk {
            Some(ClusterChain { start_cluster, cluster_vec: v })
        } else {
            None
        }
    }
}

/// The smaller of two integers.
pub open spec fn min2(a: int, b: int) -> int {
    if a < b {
        a
    } else {
        b
    }
}

/// The larger of two integers.
pub open spec fn max2(a: int, b: int) -> int {
    if a > b {
        a
    } else {
        b
    }
}

/// Whether `a` lies within this file's short entry record.
pub open spec fn in_sde_range(self_: VirtFile, bpb: Bpb, a: int) -> bool {
    !self_.is_root() && pos_addr(bpb, self_.sde_pos) <= a < pos_addr(bpb, self_.sde_pos) + 32
}

/// Whether `a` lies within the on-disk FAT table.
pub open spec fn in_fat_range(fs: FileSystem, a: int) -> bool {
    fs.fat.spec_fat_offset() <= a < fs.fat.spec_fat_offset() + 4 * fs.fat.spec_entries().len()
}

/// Whether `a` is the address of some byte in `[offset, offset + len)` of
/// a file laid out along `chain`.
pub open spec fn in_file_range(bpb: Bpb, chain: Seq<u32>, offset: int, len: int, a: int) -> bool {
    exists|i: int| offset <= i < offset + len && a == file_addr(bpb, chain, i)
}

impl VirtFile {
    /// How many fresh clusters growing to `new_size` takes.
    pub open spec fn needed_clusters(self, fs: FileSystem, new_size: int) -> int {
        let cs = fs.bpb.spec_cluster_size();
        if new_size <= self.spec_file_size(fs) {
            0
        } else {
            let want = ceil_div(new_size, cs);
            if want > self.chain().len() {
                want - self.chain().len()
            } else {
                0
            }
        }
    }

    /// The chain covers the stored size.
    pub open spec fn covers(self, fs: FileSystem) -> bool {
        self.spec_file_size(fs) <= self.chain().len() * fs.bpb.spec_cluster_size()
    }

    /// No byte of this file's clusters is the short entry record itself:
    /// the entry lives in the parent directory's clusters.
    pub open spec fn meta_disjoint(self, fs: FileSystem) -> bool {
        forall|i: int|
            0 <= i < self.chain().len() * fs.bpb.spec_cluster_size() ==> !in_sde_range(
                self,
                fs.bpb,
                file_addr(fs.bpb, self.chain(), i),
            )
    }

    /// Grows the file to `new_size` bytes if that exceeds the stored size:
    /// allocates the missing clusters onto the chain's tail (or as a fresh
    /// chain, recording the new first cluster) and, for an ordinary file,
    /// stores the new size; a directory's stored size stays zero by
    /// convention. Only the FAT region and this file's entry record
    /// change.
    #[verifier::rlimit(100)]
    #[verifier::spinoff_prover]
    pub fn incerase_size(&mut self, fs: &mut FileSystem, new_size: usize)
        requires
            old(fs).wf(),
            old(self).wf(*old(fs)),
            new_size <= 0x4000_0000,
            old(self).needed_clusters(*old(fs), new_size as int) <= crate::fat::count_free(
                old(fs).fat.spec_entries(),
            ),
        ensures
            final(fs).wf(),
            final(self).wf(*final(fs)),
            final(self).name == old(self).name,
            final(self).sde_pos == old(self).sde_pos,
            final(self).lde_pos == old(self).lde_pos,
            final(self).attr == old(self).attr,
            final(fs).bpb == old(fs).bpb,
            final(fs).device.spec_num_blocks() == old(fs).device.spec_num_blocks(),
            final(fs).fat.spec_entries().len() == old(fs).fat.spec_entries().len(),
            final(fs).fat.spec_fat_offset() == old(fs).fat.spec_fat_offset(),
            !old(self).is_root() ==> final(fs).root_dir_entry == old(fs).root_dir_entry,
            new_size <= old(self).spec_file_size(*old(fs)) ==> final(fs).state_eq(*old(fs))
                && *final(self) == *old(self),
            new_size > old(self).spec_file_size(*old(fs)) ==> {
                &&& final(self).chain().len() as int == max2(
                    old(self).chain().len() as int,
                    ceil_div(new_size as int, old(fs).bpb.spec_cluster_size()),
                )
                &&& final(self).chain().subrange(0, old(self).chain().len() as int) =~= old(self).chain()
                &&& final(self).spec_file_size(*final(fs)) == (if old(self).attr is Dir {
                    old(self).spec_file_size(*old(fs))
                } else {
                    new_size as int
                })
                &&& forall|k: int|
                    old(self).chain().len() <= k < final(self).chain().len() ==> old(fs).fat.spec_entries()[#[trigger] final(self).chain()[k] as int]
                        == crate::FREE_CLUSTER
            },
            forall|a: int|
                0 <= a < old(fs).device.spec_num_blocks() * 512 && !in_fat_range(*old(fs), a)
                    && !in_sde_range(*old(self), old(fs).bpb, a) && !(old(self).is_root()) ==> cur_byte(
                    final(fs).cache,
                    final(fs).device,
                    a,
                ) == cur_byte(old(fs).cache, old(fs).device, a),
            forall|a: int|
                0 <= a < old(fs).device.spec_num_blocks() * 512 && !in_fat_range(*old(fs), a)
                    && old(self).is_root() ==> cur_byte(final(fs).cache, final(fs).device, a)
                    == cur_byte(old(fs).cache, old(fs).device, a),
    {
        let ghost fs0 = *old(fs);
        let ghost self0 = *old(self);
        let old_size = self.file_size(fs);
        proof {
            lemma_entry_view_preserved(*self, fs0, *fs);
        }
        if new_size <= old_size {
            return;
        }
        let cs = fs.cluster_size();
        let have = self.cluster_chain.cluster_vec.len();
        let want = (new_size + cs - 1) / cs;
        let need = if want > have {
            want - have
        } else {
            0
        };
        if need == 0 {
            if !self.is_dir() {
                let ghost fs_a = *fs;
                self.set_file_size(fs, new_size);
                proof {
                    assert(ceil_div(new_size as int, cs as int) == want as int);
                    assert(want <= have);
                }
            }
            proof {
                assert(final(self).wf(*final(fs)));
                assert(ceil_div(new_size as int, cs as int) == want as int);
            }
            return;
        }
        let last: u32;
        if have > 0 {
            last = self.cluster_chain.cluster_vec[have - 1];
            proof {
                assert(self0.chain()[have - 1] == self0.chain().last());
            }
        } else {
            last = crate::NEW_VIRT_FILE_CLUSTER;
        }
        let ghost e0 = fs.fat.spec_entries();
        let ghost fs_pre = *fs;
        let opt = fs.fat.alloc_cluster_chain(need, last, &mut fs.cache, &mut fs.device);
        let ghost e1 = fs.fat.spec_entries();
        let ghost fs1 = *fs;
        proof {
            if !self.is_root() {
                crate::volume::lemma_cluster_span(fs0.bpb, self.sde_pos.cluster as int);
                assert forall|k: int| 0 <= k < 32 implies self.spec_sde_bytes(fs1)[k]
                    == self.spec_sde_bytes(fs_pre)[k] by {
                    let a = pos_addr(fs0.bpb, self.sde_pos) + k;
                    assert(0 <= a < fs0.device.spec_num_blocks() * 512);
                    assert(fs_pre.fat.spec_fat_offset() + 4 * fs_pre.fat.spec_entries().len()
                        <= fs0.bpb.data_offset);
                    assert(!(fs_pre.fat.spec_fat_offset() <= a < fs_pre.fat.spec_fat_offset() + 4
                        * fs_pre.fat.spec_entries().len()));
                }
                assert(self.spec_sde_bytes(fs1) =~= self.spec_sde_bytes(fs_pre));
            }
            assert(self.spec_first_cluster(fs1) == self.spec_first_cluster(fs_pre));
            assert(self.spec_file_size(fs1) == self.spec_file_size(fs_pre));
        }
        if let Some(start) = opt {
            let ghost ids = choose|ids: Seq<u32>|
                #[trigger] crate::fat::linked_up(e0, e1, ids, last) && ids.len() == need && ids[0]
                    == start;
            let ghost witness: Seq<u32>;
            proof {
                if have > 0 {
                    crate::fat::lemma_alloc_extends_chain(
                        e0,
                        e1,
                        ids,
                        last,
                        self0.cluster_chain.start_cluster,
                        self0.chain(),
                    );
                    witness = self0.chain() + ids;
                    assert(is_chain(e1, self0.cluster_chain.start_cluster, witness));
                } else {
                    crate::fat::lemma_alloc_fresh_chain(e0, e1, ids, last);
                    witness = ids;
                    assert(is_chain(e1, start, witness));
                }
            }
            if have == 0 {
                self.cluster_chain.refresh(start);
                self.set_first_cluster(fs, start as usize);
            }
            if !self.is_dir() {
                self.set_file_size(fs, new_size);
            }
            proof {
                assert(crate::fat::chain_ok(
                    fs.fat.spec_entries(),
                    self.cluster_chain.start_cluster,
                )) by {
                    assert(is_chain(e1, self.cluster_chain.start_cluster, witness));
                }
            }
            let ghost fs2 = *fs;
            proof {
                assert(self.spec_first_cluster(fs2) as int == self.cluster_chain.start_cluster) by {
                    if have == 0 {
                    } else {
                        assert(self.spec_first_cluster(fs2) == self.spec_first_cluster(fs1));
                        assert(self.cluster_chain.start_cluster == self0.cluster_chain.start_cluster);
                    }
                }
            }
            self.cluster_chain.generate(&fs.fat);
            proof {
                crate::fat::lemma_chain_unique(
                    e1,
                    self.cluster_chain.start_cluster,
                    self.chain(),
                    witness,
                );
                assert(self.chain() =~= witness);
                assert(self.chain().subrange(0, self0.chain().len() as int) =~= self0.chain());
                assert(ceil_div(new_size as int, cs as int) == want) by {
                    assert(want == ((new_size + cs - 1) as int) / (cs as int));
                }
                assert(self.chain().len() == want);
                assert forall|k: int|
                    self0.chain().len() <= k < self.chain().len() implies e0[#[trigger] self.chain()[k] as int] == crate::FREE_CLUSTER by {
                    assert(self.chain()[k] == ids[k - self0.chain().len()]);
                }
                assert(final(self).wf(*final(fs))) by {
                    assert(final(self).cluster_chain.start_cluster as int == final(self).spec_first_cluster(*final(fs)));
                }
            }
        } else {
            proof {
                assert(false);
            }
        }
    }
}

/// Rounding up covers the value.
pub proof fn lemma_ceil_cov(x: int, d: int)
    requires
        d > 0,
        x >= 0,
    ensures
        ceil_div(x, d) * d >= x,
        ceil_div(x, d) >= 0,
{
    vstd::arithmetic::div_mod::lemma_fundamental_div_mod(x + d - 1, d);
    assert(((x + d - 1) / d) * d >= x && (x + d - 1) / d >= 0) by (nonlinear_arith)
        requires
            d > 0,
            x >= 0,
            x + d - 1 == d * ((x + d - 1) / d) + (x + d - 1) % d,
            0 <= (x + d - 1) % d < d,
    ;
}

/// Distinct offsets of a file land on distinct disk addresses: the chain
/// has no duplicate clusters and distinct clusters occupy disjoint spans.
pub proof fn lemma_file_addr_inj(bpb: Bpb, chain: Seq<u32>, i: int, j: int)
    requires
        bpb.wf(),
        chain.no_duplicates(),
        forall|k: int| 0 <= k < chain.len() ==> 2 <= #[trigger] chain[k] && (chain[k] as int) < bpb.n_clusters,
        0 <= i < chain.len() * bpb.spec_cluster_size(),
        0 <= j < chain.len() * bpb.spec_cluster_size(),
        i != j,
    ensures
        file_addr(bpb, chain, i) != file_addr(bpb, chain, j),
{
    let cs = bpb.spec_cluster_size();
    lemma_div_ineq(i, cs, chain.len() as int);
    lemma_div_ineq(j, cs, chain.len() as int);
    assert(i / cs < chain.len() && j / cs < chain.len()) by (nonlinear_arith)
        requires
            cs > 0,
            0 <= i < chain.len() * cs,
            0 <= j < chain.len() * cs,
    ;
    vstd::arithmetic::div_mod::lemma_fundamental_div_mod(i, cs);
    vstd::arithmetic::div_mod::lemma_fundamental_div_mod(j, cs);
    let ci = i / cs;
    let cj = j / cs;
    if ci == cj {
        assert(i % cs != j % cs);
    } else {
        let c1 = chain[ci] as int;
        let c2 = chain[cj] as int;
        assert(chain[ci] != chain[cj]);
        assert(c1 != c2);
        if c1 < c2 {
            assert(bpb.spec_offset(c1) + cs <= bpb.spec_offset(c2)) by (nonlinear_arith)
                requires
                    c1 < c2,
                    cs >= 512,
                    bpb.spec_offset(c1) == bpb.data_offset + (c1 - 2) * cs,
                    bpb.spec_offset(c2) == bpb.data_offset + (c2 - 2) * cs,
            ;
        } else {
            assert(bpb.spec_offset(c2) + cs <= bpb.spec_offset(c1)) by (nonlinear_arith)
                requires
                    c2 < c1,
                    cs >= 512,
                    bpb.spec_offset(c1) == bpb.data_offset + (c1 - 2) * cs,
                    bpb.spec_offset(c2) == bpb.data_offset + (c2 - 2) * cs,
            ;
        }
    }
}

impl VirtFile {
    /// Writes `buf` at byte offset `offset`, growing the file first so the
    /// whole request fits; always writes everything. Afterwards the file's
    /// bytes at `[offset, offset + buf.len())` are exactly `buf`, and no
    /// byte outside the FAT, this file's entry record and the written
    /// range changes.
    #[verifier::rlimit(100)]
    #[verifier::spinoff_prover]
    pub fn write_at(&mut self, fs: &mut FileSystem, offset: usize, buf: &[u8]) -> (n: usize)
        requires
            old(fs).wf(),
            old(self).wf(*old(fs)),
            offset + buf@.len() <= 0x4000_0000,
            old(self).needed_clusters(*old(fs), (offset + buf@.len()) as int)
                <= crate::fat::count_free(old(fs).fat.spec_entries()),
            old(self).covers(*old(fs)),
            old(self).meta_disjoint(*old(fs)),
            !old(self).is_root() ==> old(fs).fat.spec_entries()[old(self).sde_pos.cluster as int]
                != crate::FREE_CLUSTER,
        ensures
            final(fs).wf(),
            final(self).wf(*final(fs)),
            final(self).name == old(self).name,
            final(self).sde_pos == old(self).sde_pos,
            final(self).lde_pos == old(self).lde_pos,
            final(self).attr == old(self).attr,
            final(fs).bpb == old(fs).bpb,
            final(fs).device.spec_num_blocks() == old(fs).device.spec_num_blocks(),
            n == buf@.len(),
            buf@.len() == 0 ==> final(fs).state_eq(*old(fs)) && *final(self) == *old(self),
            buf@.len() > 0 ==> final(self).spec_file_size(*final(fs)) == (if old(self).attr is Dir {
                old(self).spec_file_size(*old(fs))
            } else {
                max2(old(self).spec_file_size(*old(fs)), (offset + buf@.len()) as int)
            }),
            final(self).chain().subrange(0, old(self).chain().len() as int) =~= old(self).chain(),
            buf@.len() > 0 ==> final(self).chain().len() as int == max2(
                old(self).chain().len() as int,
                ceil_div((offset + buf@.len()) as int, old(fs).bpb.spec_cluster_size()),
            ),
            buf@.len() > 0 ==> offset + buf@.len() <= final(self).chain().len() * old(
                fs,
            ).bpb.spec_cluster_size(),
            forall|i: int|
                0 <= i < buf@.len() ==> final(self).spec_file_byte(*final(fs), offset + i)
                    == buf@[i],
            forall|a: int|
                0 <= a < old(fs).device.spec_num_blocks() * 512 && !in_fat_range(*old(fs), a)
                    && !in_sde_range(*old(self), old(fs).bpb, a) && !in_file_range(
                    old(fs).bpb,
                    final(self).chain(),
                    offset as int,
                    buf@.len() as int,
                    a,
                ) ==> cur_byte(final(fs).cache, final(fs).device, a) == cur_byte(
                    old(fs).cache,
                    old(fs).device,
                    a,
                ),
    {
        let ghost fs0 = *old(fs);
        let ghost self0 = *old(self);
        if buf.len() == 0 {
            proof {
                lemma_state_eq_refl(*fs);
            }
            return 0;
        }
        let end = offset + buf.len();
        self.incerase_size(fs, end);
        let ghost fs1 = *fs;
        let ghost self1 = *self;
        let cs = fs.cluster_size();
        let chain_len = self.cluster_chain.cluster_vec.len();
        proof {
            self.lemma_cov_bound(fs1);
            if end > self0.spec_file_size(fs0) {
                lemma_ceil_cov(end as int, cs as int);
                assert(chain_len as int == max2(
                    self0.chain().len() as int,
                    ceil_div(end as int, cs as int),
                ));
                assert(chain_len * cs >= ceil_div(end as int, cs as int) * cs)
                    by (nonlinear_arith)
                    requires
                        chain_len as int >= ceil_div(end as int, cs as int),
                        cs >= 512,
                ;
                assert(end <= chain_len * cs);
            } else {
                assert(end <= self0.chain().len() * cs);
                assert(self1.chain() == self0.chain());
                assert(end <= chain_len * cs);
                assert(ceil_div(end as int, cs as int) <= chain_len as int)
                    by (nonlinear_arith)
                    requires
                        cs >= 512,
                        0 <= end,
                        end <= chain_len * cs,
                        ceil_div(end as int, cs as int) == ((end + cs - 1) as int) / (
                        cs as int),
                ;
                assert(chain_len as int == max2(
                    self0.chain().len() as int,
                    ceil_div(end as int, cs as int),
                ));
            }
            assert(forall|k: int|
                0 <= k < self.chain().len() ==> 2 <= #[trigger] self.chain()[k] && (
                self.chain()[k] as int) < fs1.bpb.n_clusters);
            if end <= self0.spec_file_size(fs0) {
                lemma_entry_view_preserved(self0, fs0, fs1);
            }
            assert(self0.chain().len() <= self.chain().len());
            assert forall|i: int|
                0 <= i < self.chain().len() * cs implies !in_sde_range(
                *self,
                fs1.bpb,
                file_addr(fs1.bpb, self.chain(), i),
            ) by {
                self.lemma_grown_meta_disjoint(fs0, fs1, self0, i);
            }
        }
        let mut k: usize = 0;
        while k < buf.len()
            invariant
                fs.wf(),
                fs1.wf(),
                self.wf(fs1),
                *self == self1,
                self.name == self0.name && self.sde_pos == self0.sde_pos && self.lde_pos
                    == self0.lde_pos && self.attr == self0.attr,
                fs.bpb == fs1.bpb,
                fs.fat == fs1.fat,
                fs.root_dir_entry == fs1.root_dir_entry,
                fs.device.spec_num_blocks() == fs1.device.spec_num_blocks(),
                cs == fs1.bpb.spec_cluster_size(),
                chain_len == self.chain().len(),
                k <= buf@.len(),
                offset + buf@.len() <= end && end <= chain_len * cs,
                end == offset + buf@.len(),
                forall|i: int|
                    0 <= i < self.chain().len() * cs ==> !in_sde_range(
                        *self,
                        fs1.bpb,
                        #[trigger] file_addr(fs1.bpb, self.chain(), i),
                    ),
                forall|j: int|
                    0 <= j < k ==> self.spec_file_byte(*fs, offset + j) == buf@[j],
                forall|a: int|
                    0 <= a < fs1.device.spec_num_blocks() * 512 && !in_file_range(
                        fs1.bpb,
                        self.chain(),
                        offset as int,
                        k as int,
                        a,
                    ) ==> cur_byte(fs.cache, fs.device, a) == cur_byte(fs1.cache, fs1.device, a),
            decreases buf@.len() - k,
        {
            let pos = offset + k;
            let ci = pos / cs;
            proof {
                lemma_div_ineq(pos as int, cs as int, chain_len as int);
                assert(ci < chain_len) by (nonlinear_arith)
                    requires
                        cs > 0,
                        0 <= pos < chain_len * cs,
                        ci == (pos as int) / (cs as int),
                ;
                assert(crate::fat::is_data_cluster(
                    fs1.fat.spec_entries(),
                    self.chain()[ci as int],
                ));
            }
            let cluster = self.cluster_chain.cluster_vec[ci];
            let base = fs.bpb.offset(cluster);
            let ib = pos % cs;
            let addr = base + ib;
            proof {
                crate::volume::lemma_cluster_span(fs.bpb, cluster as int);
                vstd::arithmetic::div_mod::lemma_fundamental_div_mod(addr as int, 512);
                crate::fat::lemma_div_bound(addr as int, fs.device.spec_num_blocks());
                fs.device.lemma_bytes_fit();
            }
            let block = addr / BLOCK_SIZE;
            let boff = addr % BLOCK_SIZE;
            let one: [u8; 1] = [buf[k]];
            let ghost fs_a = *fs;
            fs.write_block_range(block, boff, one.as_slice());
            proof {
                assert(block * 512 + boff == addr);
                assert(addr as int == file_addr(fs1.bpb, self.chain(), pos as int));
                assert(cur_byte(fs.cache, fs.device, addr as int) == buf@[k as int]);
                assert forall|j: int|
                    0 <= j < k + 1 implies self.spec_file_byte(*fs, offset + j) == buf@[j] by {
                    if j < k {
                        lemma_file_addr_inj(
                            fs1.bpb,
                            self.chain(),
                            offset + j,
                            pos as int,
                        );
                        assert(0 <= file_addr(fs1.bpb, self.chain(), offset + j) < fs1.device.spec_num_blocks() * 512) by {
                            assert((offset + j) / (cs as int) < chain_len) by (nonlinear_arith)
                                requires
                                    cs > 0,
                                    0 <= offset + j < chain_len * cs,
                            ;
                            assert(crate::fat::is_data_cluster(
                                fs1.fat.spec_entries(),
                                self.chain()[(offset + j) / (cs as int)],
                            ));
                            crate::volume::lemma_cluster_span(
                                fs1.bpb,
                                self.chain()[(offset + j) / (cs as int)] as int,
                            );
                            vstd::arithmetic::div_mod::lemma_fundamental_div_mod(offset + j, cs as int);
                        }
                    }
                }
                assert forall|a: int|
                    0 <= a < fs1.device.spec_num_blocks() * 512 && !in_file_range(
                        fs1.bpb,
                        self.chain(),
                        offset as int,
                        k + 1,
                        a,
                    ) implies cur_byte(fs.cache, fs.device, a) == cur_byte(
                    fs1.cache,
                    fs1.device,
                    a,
                ) by {
                    assert(!(offset <= pos < offset + (k + 1)) || a != file_addr(
                        fs1.bpb,
                        self.chain(),
                        pos as int,
                    ));
                    assert(a != addr);
                    assert(!in_file_range(fs1.bpb, self.chain(), offset as int, k as int, a)) by {
                        if in_file_range(fs1.bpb, self.chain(), offset as int, k as int, a) {
                            let i = choose|i: int|
                                offset <= i < offset + k && a == file_addr(
                                    fs1.bpb,
                                    self.chain(),
                                    i,
                                );
                            assert(in_file_range(
                                fs1.bpb,
                                self.chain(),
                                offset as int,
                                k + 1,
                                a,
                            ));
                        }
                    }
                }
            }
            k = k + 1;
        }
        proof {
            if !self.is_root() {
                assert forall|kk: int| 0 <= kk < 32 implies self.spec_sde_bytes(*fs)[kk]
                    == self.spec_sde_bytes(fs1)[kk] by {
                    let a = pos_addr(fs1.bpb, self.sde_pos) + kk;
                    crate::volume::lemma_cluster_span(fs1.bpb, self.sde_pos.cluster as int);
                    assert(0 <= a < fs1.device.spec_num_blocks() * 512);
                    assert(in_sde_range(*self, fs1.bpb, a));
                    assert(!in_file_range(
                        fs1.bpb,
                        self.chain(),
                        offset as int,
                        buf@.len() as int,
                        a,
                    )) by {
                        if in_file_range(
                            fs1.bpb,
                            self.chain(),
                            offset as int,
                            buf@.len() as int,
                            a,
                        ) {
                            let i = choose|i: int|
                                offset <= i < offset + buf@.len() && a == file_addr(
                                    fs1.bpb,
                                    self.chain(),
                                    i,
                                );
                            assert(0 <= i < self.chain().len() * cs);
                            assert(!in_sde_range(
                                *self,
                                fs1.bpb,
                                file_addr(fs1.bpb, self.chain(), i),
                            ));
                        }
                    }
                }
                assert(self.spec_sde_bytes(*fs) =~= self.spec_sde_bytes(fs1));
            }
            assert(final(self).wf(*final(fs)));
            assert(final(self).spec_file_size(*final(fs)) == self1.spec_file_size(fs1));
        }
        buf.len()
    }

    /// Growth keeps every file byte address clear of the entry record:
    /// the old clusters were clear already, and the fresh ones were free
    /// while the record's cluster was not.
    proof fn lemma_grown_meta_disjoint(
        self,
        fs0: FileSystem,
        fs1: FileSystem,
        self0: VirtFile,
        i: int,
    )
        requires
            fs0.wf(),
            fs1.wf(),
            self0.wf(fs0),
            self0.meta_disjoint(fs0),
            !self0.is_root() ==> fs0.fat.spec_entries()[self0.sde_pos.cluster as int]
                != crate::FREE_CLUSTER,
            self.sde_pos == self0.sde_pos,
            fs1.bpb == fs0.bpb,
            self.wf(fs1),
            self0.chain().len() <= self.chain().len(),
            self.chain().subrange(0, self0.chain().len() as int) =~= self0.chain(),
            forall|k: int|
                self0.chain().len() <= k < self.chain().len() ==> fs0.fat.spec_entries()[
                    #[trigger] self.chain()[k] as int] == crate::FREE_CLUSTER,
            0 <= i < self.chain().len() * fs1.bpb.spec_cluster_size(),
        ensures
            !in_sde_range(self, fs1.bpb, file_addr(fs1.bpb, self.chain(), i)),
    {
        if self.is_root() {
        } else {
            let cs = fs1.bpb.spec_cluster_size();
            lemma_div_ineq(i, cs, self.chain().len() as int);
            assert(i / cs < self.chain().len()) by (nonlinear_arith)
                requires
                    cs > 0,
                    0 <= i < self.chain().len() * cs,
            ;
            vstd::arithmetic::div_mod::lemma_fundamental_div_mod(i, cs);
            let ci = i / cs;
            let c = self.chain()[ci] as int;
            let sc = self.sde_pos.cluster as int;
            if ci < self0.chain().len() {
                assert(self.chain().subrange(0, self0.chain().len() as int)[ci]
                    == self.chain()[ci]);
                assert(self.chain()[ci] == self0.chain()[ci]);
                assert(0 <= i < self0.chain().len() * cs) by (nonlinear_arith)
                    requires
                        cs > 0,
                        0 <= i,
                        i == cs * ci + i % cs,
                        0 <= i % cs < cs,
                        0 <= ci < self0.chain().len(),
                ;
                assert(file_addr(fs1.bpb, self.chain(), i) == file_addr(fs0.bpb, self0.chain(), i));
                assert(!in_sde_range(self0, fs0.bpb, file_addr(fs0.bpb, self0.chain(), i)));
            } else {
                assert(fs0.fat.spec_entries()[c] == crate::FREE_CLUSTER);
                assert(c != sc);
                assert(crate::fat::is_data_cluster(fs1.fat.spec_entries(), self.chain()[ci]));
                if c < sc {
                    assert(fs1.bpb.spec_offset(c) + cs <= fs1.bpb.spec_offset(sc))
                        by (nonlinear_arith)
                        requires
                            c < sc,
                            cs >= 512,
                            fs1.bpb.spec_offset(c) == fs1.bpb.data_offset + (c - 2) * cs,
                            fs1.bpb.spec_offset(sc) == fs1.bpb.data_offset + (sc - 2) * cs,
                    ;
                } else {
                    assert(fs1.bpb.spec_offset(sc) + cs <= fs1.bpb.spec_offset(c))
                        by (nonlinear_arith)
                        requires
                            sc < c,
                            cs >= 512,
                            fs1.bpb.spec_offset(c) == fs1.bpb.data_offset + (c - 2) * cs,
                            fs1.bpb.spec_offset(sc) == fs1.bpb.data_offset + (sc - 2) * cs,
                    ;
                    assert(pos_addr(fs1.bpb, self.sde_pos) + 32 <= fs1.bpb.spec_offset(c)) by {
                        assert(self.sde_pos.offset_in_cluster + 32 <= cs);
                    }
                }
            }
        }
    }
}

/// A current byte outside the changed range `[lo, hi)` is unchanged.
pub proof fn lemma_cur_byte_framed(fs1: FileSystem, fs2: FileSystem, lo: int, hi: int, a: int)
    requires
        fs2.device.spec_num_blocks() == fs1.device.spec_num_blocks(),
        forall|x: int|
            0 <= x < fs1.device.spec_num_blocks() * 512 && !(lo <= x < hi) ==> cur_byte(
                fs2.cache,
                fs2.device,
                x,
            ) == cur_byte(fs1.cache, fs1.device, x),
        0 <= a < fs1.device.spec_num_blocks() * 512,
        !(lo <= a < hi),
    ensures
        cur_byte(fs2.cache, fs2.device, a) == cur_byte(fs1.cache, fs1.device, a),
{
}

/// Distinct well-formed entry positions occupy disjoint 32-byte ranges.
pub proof fn lemma_pos_disjoint(bpb: Bpb, p1: DirEntryPos, p2: DirEntryPos)
    requires
        bpb.wf(),
        pos_wf(bpb, p1),
        pos_wf(bpb, p2),
        p1 != p2,
    ensures
        pos_addr(bpb, p1) + 32 <= pos_addr(bpb, p2) || pos_addr(bpb, p2) + 32 <= pos_addr(
            bpb,
            p1,
        ),
{
    let cs = bpb.spec_cluster_size();
    if p1.cluster == p2.cluster {
        assert(p1.offset_in_cluster != p2.offset_in_cluster);
        assert(p1.offset_in_cluster + 32 <= p2.offset_in_cluster || p2.offset_in_cluster + 32
            <= p1.offset_in_cluster) by (nonlinear_arith)
            requires
                p1.offset_in_cluster % 32 == 0,
                p2.offset_in_cluster % 32 == 0,
                p1.offset_in_cluster != p2.offset_in_cluster,
                p1.offset_in_cluster >= 0,
                p2.offset_in_cluster >= 0,
        ;
    } else {
        let c1 = p1.cluster as int;
        let c2 = p2.cluster as int;
        if c1 < c2 {
            assert(bpb.spec_offset(c1) + cs <= bpb.spec_offset(c2)) by (nonlinear_arith)
                requires
                    c1 < c2,
                    cs >= 512,
                    bpb.spec_offset(c1) == bpb.data_offset + (c1 - 2) * cs,
                    bpb.spec_offset(c2) == bpb.data_offset + (c2 - 2) * cs,
            ;
        } else {
            assert(bpb.spec_offset(c2) + cs <= bpb.spec_offset(c1)) by (nonlinear_arith)
                requires
                    c2 < c1,
                    cs >= 512,
                    bpb.spec_offset(c1) == bpb.data_offset + (c1 - 2) * cs,
                    bpb.spec_offset(c2) == bpb.data_offset + (c2 - 2) * cs,
            ;
        }
    }
}

impl VirtFile {
    /// Grows or shrinks the file to `new_size` bytes. Shrinking keeps the
    /// needed prefix of the chain, frees the suffix and re-terminates the
    /// new last cluster; zero is the fast path that releases everything.
    #[verifier::rlimit(100)]
    #[verifier::spinoff_prover]
    pub fn modify_size(&mut self, fs: &mut FileSystem, new_size: usize)
        requires
            old(fs).wf(),
            old(self).wf(*old(fs)),
            new_size <= 0x4000_0000,
            old(self).needed_clusters(*old(fs), new_size as int) <= crate::fat::count_free(
                old(fs).fat.spec_entries(),
            ),
            old(self).covers(*old(fs)),
            0 < new_size < old(self).spec_file_size(*old(fs)) ==> !(old(self).attr is Dir),
        ensures
            final(fs).wf(),
            final(self).wf(*final(fs)),
            final(self).name == old(self).name,
            final(self).sde_pos == old(self).sde_pos,
            final(self).lde_pos == old(self).lde_pos,
            final(self).attr == old(self).attr,
            final(fs).bpb == old(fs).bpb,
            final(fs).device.spec_num_blocks() == old(fs).device.spec_num_blocks(),
            !old(self).is_root() ==> final(fs).root_dir_entry == old(fs).root_dir_entry,
            new_size == 0 ==> final(self).spec_file_size(*final(fs)) == 0 && final(self).spec_first_cluster(*final(fs)) == 0 && final(self).chain().len() == 0,
            new_size >= old(self).spec_file_size(*old(fs)) && new_size > 0 ==> final(self).spec_file_size(*final(fs)) == (if old(self).attr is Dir {
                old(self).spec_file_size(*old(fs))
            } else {
                max2(old(self).spec_file_size(*old(fs)), new_size as int)
            }) && final(self).chain().len() as int == max2(
                old(self).chain().len() as int,
                (if new_size <= old(self).spec_file_size(*old(fs)) {
                    old(self).chain().len() as int
                } else {
                    ceil_div(new_size as int, old(fs).bpb.spec_cluster_size())
                }),
            ),
            0 < new_size < old(self).spec_file_size(*old(fs)) ==> final(self).spec_file_size(
                *final(fs),
            ) == new_size && final(self).chain() =~= old(self).chain().subrange(
                0,
                ceil_div(new_size as int, old(fs).bpb.spec_cluster_size()),
            ),
            new_size == 0 ==> forall|c: int|
                0 <= c < old(fs).fat.spec_entries().len() ==> final(fs).fat.spec_entries()[c] == (
                if old(self).chain().contains(c as u32) {
                    crate::FREE_CLUSTER
                } else {
                    old(fs).fat.spec_entries()[c]
                }),
            0 < new_size < old(self).spec_file_size(*old(fs)) ==> forall|k: int|
                ceil_div(new_size as int, old(fs).bpb.spec_cluster_size()) <= k < ceil_div(
                    old(self).spec_file_size(*old(fs)),
                    old(fs).bpb.spec_cluster_size(),
                ) ==> final(fs).fat.spec_entries()[#[trigger] old(self).chain()[k] as int]
                    == crate::FREE_CLUSTER,
            forall|a: int|
                0 <= a < old(fs).device.spec_num_blocks() * 512 && !in_fat_range(*old(fs), a)
                    && !in_sde_range(*old(self), old(fs).bpb, a) ==> cur_byte(
                    final(fs).cache,
                    final(fs).device,
                    a,
                ) == cur_byte(old(fs).cache, old(fs).device, a),
    {
        let ghost fs0 = *old(fs);
        let ghost self0 = *old(self);
        let old_size = self.file_size(fs);
        proof {
            lemma_entry_view_preserved(*self, fs0, *fs);
        }
        let ghost fs_mid = *fs;
        if new_size == 0 {
            self.clear_content(fs);
            proof {
                assert forall|a: int|
                    0 <= a < fs0.device.spec_num_blocks() * 512 && !in_fat_range(fs0, a)
                        && !in_sde_range(self0, fs0.bpb, a) implies cur_byte(
                    final(fs).cache,
                    final(fs).device,
                    a,
                ) == cur_byte(fs0.cache, fs0.device, a) by {
                    assert(cur_byte(fs_mid.cache, fs_mid.device, a) == cur_byte(
                        fs0.cache,
                        fs0.device,
                        a,
                    ));
                    assert(!in_fat_range(fs_mid, a));
                }
            }
            return;
        }
        if new_size >= old_size {
            self.incerase_size(fs, new_size);
            proof {
                if new_size <= self0.spec_file_size(fs0) {
                    lemma_entry_view_preserved(*self, fs_mid, *fs);
                }
                assert forall|a: int|
                    0 <= a < fs0.device.spec_num_blocks() * 512 && !in_fat_range(fs0, a)
                        && !in_sde_range(self0, fs0.bpb, a) implies cur_byte(
                    final(fs).cache,
                    final(fs).device,
                    a,
                ) == cur_byte(fs0.cache, fs0.device, a) by {
                    assert(cur_byte(fs_mid.cache, fs_mid.device, a) == cur_byte(
                        fs0.cache,
                        fs0.device,
                        a,
                    ));
                    assert(!in_fat_range(fs_mid, a));
                }
            }
            return;
        }
        let cs = fs.cluster_size();
        proof {
            self.lemma_cov_bound(*fs);
            assert(old_size <= self0.chain().len() * (cs as int));
        }
        let left = (new_size + cs - 1) / cs;
        let right = (old_size + cs - 1) / cs;
        let chain_len = self.cluster_chain.cluster_vec.len();
        proof {
            assert(1 <= left) by (nonlinear_arith)
                requires
                    cs >= 512,
                    1 <= new_size,
                    left == ((new_size + cs - 1) as int) / (cs as int),
            ;
            vstd::arithmetic::div_mod::lemma_div_is_ordered(
                (new_size + cs - 1) as int,
                (old_size + cs - 1) as int,
                cs as int,
            );
            assert(right <= chain_len) by (nonlinear_arith)
                requires
                    cs >= 512,
                    old_size <= chain_len * cs,
                    right == ((old_size + cs - 1) as int) / (cs as int),
                    chain_len >= 0,
            ;
        }
        let mut release: Vec<u32> = Vec::new();
        let mut i: usize = left;
        while i < right
            invariant
                left <= i <= right,
                right <= chain_len,
                chain_len == self.chain().len(),
                *self == self0,
                release@ =~= self.chain().subrange(left as int, i as int),
            decreases right - i,
        {
            release.push(self.cluster_chain.cluster_vec[i]);
            proof {
                assert(release@ =~= self.chain().subrange(left as int, i + 1));
            }
            i = i + 1;
        }
        let ghost fs_a = *fs;
        let ghost e_a = fs.fat.spec_entries();
        self.cluster_chain.truncate(left);
        fs.fat.dealloc_cluster(release, &mut fs.cache, &mut fs.device);
        let ghost fs_b = *fs;
        self.set_file_size(fs, new_size);
        let ghost fs_c = *fs;
        let last = self.cluster_chain.cluster_vec[left - 1];
        proof {
            assert(self.chain()[left - 1] == self0.chain()[left - 1]);
            assert(crate::fat::is_data_cluster(e_a, self0.chain()[left - 1]));
        }
        fs.fat.set_next_cluster(last, crate::END_OF_CLUSTER, &mut fs.cache, &mut fs.device);
        proof {
            let prefix = self0.chain().subrange(0, left as int);
            let ef = fs.fat.spec_entries();
            assert(self.chain() =~= prefix);
            assert(is_chain(ef, self0.cluster_chain.start_cluster, prefix)) by {
                assert(prefix.no_duplicates()) by {
                    assert(forall|x: int|
                        0 <= x < prefix.len() ==> prefix[x] == self0.chain()[x]);
                }
                assert forall|x: int| 0 <= x < prefix.len() implies crate::fat::is_data_cluster(
                    ef,
                    #[trigger] prefix[x],
                ) by {
                    assert(crate::fat::is_data_cluster(e_a, self0.chain()[x]));
                }
                assert(prefix[0] == self0.chain()[0]);
                assert forall|x: int| 0 <= x < prefix.len() - 1 implies ef[#[trigger] prefix[x] as int]
                    == prefix[x + 1] by {
                    assert(prefix[x] == self0.chain()[x]);
                    assert(self0.chain()[x] != self0.chain()[left - 1]);
                    assert(!release@.contains(self0.chain()[x])) by {
                        if release@.contains(self0.chain()[x]) {
                            let j = choose|j: int|
                                0 <= j < release@.len() && release@[j] == self0.chain()[x];
                            assert(self0.chain()[left + j] == self0.chain()[x]);
                        }
                    }
                    assert(ef[prefix[x] as int] == e_a[self0.chain()[x] as int]);
                    assert(e_a[self0.chain()[x] as int] == self0.chain()[x + 1]);
                }
                assert(prefix.last() == self0.chain()[left - 1]);
                assert(ef[prefix.last() as int] == crate::END_OF_CLUSTER);
            }
            if !self.is_root() {
                assert(fs_c.fat.entry_addr(last as int) + 4 <= fs0.bpb.data_offset) by {
                    assert(fs_c.fat.spec_fat_offset() + 4 * fs_c.fat.spec_entries().len()
                        <= fs0.bpb.data_offset);
                }
                crate::volume::lemma_cluster_span(fs0.bpb, self.sde_pos.cluster as int);
                lemma_sde_bytes_frame(
                    *self,
                    fs_c,
                    *fs,
                    fs_c.fat.entry_addr(last as int),
                    fs_c.fat.entry_addr(last as int) + 4,
                );
                lemma_sde_bytes_frame(
                    *self,
                    fs_a,
                    fs_b,
                    fs_a.fat.spec_fat_offset(),
                    fs_a.fat.spec_fat_offset() + 4 * fs_a.fat.spec_entries().len(),
                );
            }
            assert(final(self).spec_first_cluster(*final(fs)) == self0.spec_first_cluster(fs0));
            assert(final(self).spec_file_size(*final(fs)) == new_size);
            assert(final(self).wf(*final(fs)));
            assert(left as int == ceil_div(new_size as int, fs0.bpb.spec_cluster_size()));
            assert(right as int == ceil_div(
                self0.spec_file_size(fs0),
                fs0.bpb.spec_cluster_size(),
            ));
            assert forall|k: int|
                left <= k < right implies final(fs).fat.spec_entries()[#[trigger] self0.chain()[k] as int] == crate::FREE_CLUSTER by {
                assert(release@[k - left] == self0.chain()[k]);
                assert(release@.contains(self0.chain()[k]));
                assert(fs_b.fat.spec_entries()[self0.chain()[k] as int] == crate::FREE_CLUSTER);
                assert(self0.chain()[k] != self0.chain()[left - 1]);
            }
        }
    }

    /// Releases everything the file holds: frees every chain cluster,
    /// zeroes the stored size and first cluster, and empties the chain;
    /// returns how many clusters were released.
    pub fn clear_content(&mut self, fs: &mut FileSystem) -> (r: usize)
        requires
            old(fs).wf(),
            old(self).wf(*old(fs)),
        ensures
            final(fs).wf(),
            final(self).wf(*final(fs)),
            final(self).name == old(self).name,
            final(self).sde_pos == old(self).sde_pos,
            final(self).lde_pos == old(self).lde_pos,
            final(self).attr == old(self).attr,
            final(fs).bpb == old(fs).bpb,
            final(fs).device.spec_num_blocks() == old(fs).device.spec_num_blocks(),
            !old(self).is_root() ==> final(fs).root_dir_entry == old(fs).root_dir_entry,
            r == old(self).chain().len(),
            final(self).spec_file_size(*final(fs)) == 0,
            final(self).spec_first_cluster(*final(fs)) == 0,
            final(self).chain().len() == 0,
            forall|c: int|
                0 <= c < old(fs).fat.spec_entries().len() ==> final(fs).fat.spec_entries()[c] == (
                if old(self).chain().contains(c as u32) {
                    crate::FREE_CLUSTER
                } else {
                    old(fs).fat.spec_entries()[c]
                }),
            forall|a: int|
                0 <= a < old(fs).device.spec_num_blocks() * 512 && !in_fat_range(*old(fs), a)
                    && !in_sde_range(*old(self), old(fs).bpb, a) ==> cur_byte(
                    final(fs).cache,
                    final(fs).device,
                    a,
                ) == cur_byte(old(fs).cache, old(fs).device, a),
    {
        let ghost fs0 = *old(fs);
        let ghost self0 = *old(self);
        let n = self.cluster_chain.cluster_vec.len();
        let mut release: Vec<u32> = Vec::new();
        let mut i: usize = 0;
        while i < n
            invariant
                i <= n,
                n == self.chain().len(),
                *self == self0,
                release@ =~= self.chain().subrange(0, i as int),
            decreases n - i,
        {
            release.push(self.cluster_chain.cluster_vec[i]);
            proof {
                assert(release@ =~= self.chain().subrange(0, i + 1));
            }
            i = i + 1;
        }
        proof {
            assert(release@ =~= self0.chain());
        }
        let ghost e0 = fs.fat.spec_entries();
        fs.fat.dealloc_cluster(release, &mut fs.cache, &mut fs.device);
        let ghost fs_b = *fs;
        self.set_file_size(fs, 0);
        self.set_first_cluster(fs, 0);
        self.cluster_chain.refresh(0);
        proof {
            assert(is_chain(fs.fat.spec_entries(), 0u32, Seq::<u32>::empty()));
            assert(final(self).spec_first_cluster(*final(fs)) == 0);
            assert(final(self).wf(*final(fs)));
            if !self.is_root() {
                assert forall|kk: int| 0 <= kk < 32 implies self.spec_sde_bytes(fs_b)[kk]
                    == self.spec_sde_bytes(fs0)[kk] by {
                    let a = pos_addr(fs0.bpb, self.sde_pos) + kk;
                    crate::volume::lemma_cluster_span(fs0.bpb, self.sde_pos.cluster as int);
                    assert(0 <= a < fs0.device.spec_num_blocks() * 512);
                    assert(fs0.fat.spec_fat_offset() + 4 * fs0.fat.spec_entries().len()
                        <= fs0.bpb.data_offset);
                }
            }
        }
        n
    }

    /// Tombstones every long entry and then the short entry: a logical
    /// delete that leaves the records in place.
    pub fn clear_direntry(&self, fs: &mut FileSystem)
        requires
            old(fs).wf(),
            self.pos_ok(*old(fs)),
            !self.is_root(),
            forall|i: int, j: int|
                0 <= i < j < self.lde_pos@.len() ==> self.lde_pos@[i] != self.lde_pos@[j],
            forall|i: int| 0 <= i < self.lde_pos@.len() ==> self.lde_pos@[i] != self.sde_pos,
        ensures
            final(fs).wf(),
            final(fs).bpb == old(fs).bpb,
            final(fs).fat == old(fs).fat,
            final(fs).root_dir_entry == old(fs).root_dir_entry,
            final(fs).device.spec_num_blocks() == old(fs).device.spec_num_blocks(),
            self.spec_sde_bytes(*final(fs))[0] == crate::DIR_ENTRY_UNUSED,
            sde_bytes_file_size(self.spec_sde_bytes(*final(fs))) == 0,
            sde_bytes_first_cluster(self.spec_sde_bytes(*final(fs))) == 0,
            forall|i: int|
                0 <= i < self.lde_pos@.len() ==> self.spec_lde_bytes(*final(fs), i)[0]
                    == crate::DIR_ENTRY_UNUSED,
            forall|a: int|
                0 <= a < old(fs).device.spec_num_blocks() * 512 && !in_sde_range(
                    *self,
                    old(fs).bpb,
                    a,
                ) && !(exists|i: int|
                    0 <= i < self.lde_pos@.len() && pos_addr(old(fs).bpb, self.lde_pos@[i]) <= a
                        < pos_addr(old(fs).bpb, #[trigger] self.lde_pos@[i]) + 32) ==> cur_byte(
                    final(fs).cache,
                    final(fs).device,
                    a,
                ) == cur_byte(old(fs).cache, old(fs).device, a),
    {
        let ghost fs0 = *old(fs);
        let n = self.lde_pos.len();
        let mut i: usize = 0;
        while i < n
            invariant
                fs.wf(),
                fs0.wf(),
                self.pos_ok(fs0),
                !self.is_root(),
                fs.bpb == fs0.bpb,
                fs.fat == fs0.fat,
                fs.root_dir_entry == fs0.root_dir_entry,
                fs.device.spec_num_blocks() == fs0.device.spec_num_blocks(),
                n == self.lde_pos@.len(),
                i <= n,
                forall|x: int, y: int|
                    0 <= x < y < self.lde_pos@.len() ==> self.lde_pos@[x] != self.lde_pos@[y],
                forall|j: int|
                    0 <= j < i ==> self.spec_lde_bytes(*fs, j)[0] == crate::DIR_ENTRY_UNUSED,
                forall|a: int|
                    0 <= a < fs0.device.spec_num_blocks() * 512 && !(exists|x: int|
                        0 <= x < i && pos_addr(fs0.bpb, self.lde_pos@[x]) <= a < pos_addr(
                            fs0.bpb,
                            #[trigger] self.lde_pos@[x],
                        ) + 32) ==> cur_byte(fs.cache, fs.device, a) == cur_byte(
                        fs0.cache,
                        fs0.device,
                        a,
                    ),
            decreases n - i,
        {
            let ghost fs_iter = *fs;
            let mut lde = self.read_lde(fs, i);
            lde.delete();
            let ghost fs_a = *fs;
            self.modify_lde(fs, i, &lde);
            proof {
                assert forall|j: int|
                    0 <= j < i + 1 implies self.spec_lde_bytes(*fs, j)[0]
                    == crate::DIR_ENTRY_UNUSED by {
                    if j < i {
                        assert(self.lde_pos@[j] != self.lde_pos@[i as int]);
                        lemma_pos_disjoint(fs0.bpb, self.lde_pos@[j], self.lde_pos@[i as int]);
                        crate::volume::lemma_cluster_span(
                            fs0.bpb,
                            self.lde_pos@[j].cluster as int,
                        );
                        assert(0 <= pos_addr(fs0.bpb, self.lde_pos@[j])
                            < fs0.device.spec_num_blocks() * 512);
                        assert(cur_byte(fs_a.cache, fs_a.device, pos_addr(
                            fs0.bpb,
                            self.lde_pos@[j],
                        )) == cur_byte(fs_iter.cache, fs_iter.device, pos_addr(
                            fs0.bpb,
                            self.lde_pos@[j],
                        )));
                        lemma_cur_byte_framed(
                            fs_a,
                            *fs,
                            pos_addr(fs0.bpb, self.lde_pos@[i as int]),
                            pos_addr(fs0.bpb, self.lde_pos@[i as int]) + 32,
                            pos_addr(fs0.bpb, self.lde_pos@[j]),
                        );
                        assert(self.spec_lde_bytes(fs_iter, j)[0] == crate::DIR_ENTRY_UNUSED);
                    } else {
                        assert(crate::entry::lde_matches_bytes(
                            lde,
                            self.spec_lde_bytes(*fs, i as int),
                        ));
                    }
                }
                assert forall|a: int|
                    0 <= a < fs0.device.spec_num_blocks() * 512 && !(exists|x: int|
                        0 <= x < i + 1 && pos_addr(fs0.bpb, self.lde_pos@[x]) <= a < pos_addr(
                            fs0.bpb,
                            #[trigger] self.lde_pos@[x],
                        ) + 32) implies cur_byte(fs.cache, fs.device, a) == cur_byte(
                    fs0.cache,
                    fs0.device,
                    a,
                ) by {
                    assert(!(pos_addr(fs0.bpb, self.lde_pos@[i as int]) <= a < pos_addr(
                        fs0.bpb,
                        self.lde_pos@[i as int],
                    ) + 32));
                    assert(!(exists|x: int|
                        0 <= x < i && pos_addr(fs0.bpb, self.lde_pos@[x]) <= a < pos_addr(
                            fs0.bpb,
                            #[trigger] self.lde_pos@[x],
                        ) + 32));
                }
            }
            i = i + 1;
        }
        let ghost fs_exit = *fs;
        let mut e = self.read_sde(fs);
        e.delete();
        let ghost fs_b = *fs;
        self.modify_sde(fs, &e);
        proof {
            lemma_sde_fields_from_bytes(e, self.spec_sde_bytes(*fs));
            assert forall|j: int|
                0 <= j < self.lde_pos@.len() implies self.spec_lde_bytes(*fs, j)[0]
                == crate::DIR_ENTRY_UNUSED by {
                assert(self.lde_pos@[j] != self.sde_pos);
                lemma_pos_disjoint(fs0.bpb, self.lde_pos@[j], self.sde_pos);
                crate::volume::lemma_cluster_span(fs0.bpb, self.lde_pos@[j].cluster as int);
                assert(0 <= pos_addr(fs0.bpb, self.lde_pos@[j]) < fs0.device.spec_num_blocks()
                    * 512);
                assert(cur_byte(fs_b.cache, fs_b.device, pos_addr(fs0.bpb, self.lde_pos@[j]))
                    == cur_byte(fs_exit.cache, fs_exit.device, pos_addr(
                    fs0.bpb,
                    self.lde_pos@[j],
                )));
                lemma_cur_byte_framed(
                    fs_b,
                    *fs,
                    pos_addr(fs0.bpb, self.sde_pos),
                    pos_addr(fs0.bpb, self.sde_pos) + 32,
                    pos_addr(fs0.bpb, self.lde_pos@[j]),
                );
                assert(self.spec_lde_bytes(fs_exit, j)[0] == crate::DIR_ENTRY_UNUSED);
            }
        }
    }

    /// Deletes the file outright: tombstones its entries and frees its
    /// chain; returns how many clusters were released.
    pub fn clear(&mut self, fs: &mut FileSystem) -> (r: usize)
        requires
            old(fs).wf(),
            old(self).wf(*old(fs)),
            !old(self).is_root(),
            forall|i: int, j: int|
                0 <= i < j < old(self).lde_pos@.len() ==> old(self).lde_pos@[i] != old(self).lde_pos@[j],
            forall|i: int|
                0 <= i < old(self).lde_pos@.len() ==> old(self).lde_pos@[i] != old(self).sde_pos,
        ensures
            final(fs).wf(),
            r == old(self).chain().len(),
            final(self).chain().len() == 0,
            final(self).spec_sde_bytes(*final(fs))[0] == crate::DIR_ENTRY_UNUSED,
            forall|i: int|
                0 <= i < old(self).lde_pos@.len() ==> final(self).spec_lde_bytes(*final(fs), i)[0]
                    == crate::DIR_ENTRY_UNUSED,
            forall|c: int|
                0 <= c < old(fs).fat.spec_entries().len() ==> final(fs).fat.spec_entries()[c] == (
                if old(self).chain().contains(c as u32) {
                    crate::FREE_CLUSTER
                } else {
                    old(fs).fat.spec_entries()[c]
                }),
    {
        let cnt = self.clear_content(fs);
        self.clear_direntry(fs);
        cnt
    }
}

/// The 32 current bytes of the record at byte `index` of file `f`.
pub open spec fn spec_dirent_bytes(f: VirtFile, fs: FileSystem, index: int) -> Seq<u8> {
    Seq::new(32, |k: int| f.spec_file_byte(fs, index + k))
}

/// The lower-cased display name a short entry record stores.
pub open spec fn sde_bytes_name_lower(b: Seq<u8>) -> Seq<char> {
    (if crate::entry::space_prefix(b.subrange(8, 11)).len() != 0 {
        crate::entry::ascii_chars(crate::entry::space_prefix(b.subrange(0, 8))) + seq!['.']
            + crate::entry::ascii_chars(crate::entry::space_prefix(b.subrange(8, 11)))
    } else {
        crate::entry::ascii_chars(crate::entry::space_prefix(b.subrange(0, 8)))
    }).map_values(|c: char| crate::entry::lower_char(c))
}

/// The 13 UTF-16 code units a long entry record stores.
pub open spec fn lde_bytes_units(b: Seq<u8>) -> Seq<u16> {
    Seq::new(13, |i: int|
        (if i < 5 {
            le16_at(b, 1 + 2 * i)
        } else if i < 11 {
            le16_at(b, 14 + 2 * (i - 5))
        } else {
            le16_at(b, 28 + 2 * (i - 11))
        }) as u16)
}

/// The name fragment a long entry record stores.
pub open spec fn lde_bytes_name(b: Seq<u8>) -> Seq<char> {
    crate::utf16::utf16_decode_lossy(crate::entry::zero_prefix(lde_bytes_units(b)))
}

/// What a directory listing yields from byte `index` on, with `acc` the
/// long-name fragments gathered so far: skip tombstones, gather long
/// entries, stop at an end marker or past the chain's coverage, and
/// surface the first live short entry.
#[verifier::opaque]
pub open spec fn dir_info_spec(
    f: VirtFile,
    fs: FileSystem,
    index: int,
    acc: Seq<char>,
    have_long: bool,
) -> Option<(Seq<char>, int, int, int)>
    decreases f.chain().len() * fs.bpb.spec_cluster_size() - index,
{
    let cov = f.chain().len() * fs.bpb.spec_cluster_size();
    if index < 0 || index + 32 > cov {
        None
    } else {
        let b = spec_dirent_bytes(f, fs, index);
        if b[0] == crate::DIR_ENTRY_LAST_AND_UNUSED {
            None
        } else if b[0] == crate::DIR_ENTRY_UNUSED {
            dir_info_spec(f, fs, index + 32, Seq::empty(), false)
        } else if b[11] != crate::ATTR_LONG_NAME {
            Some(
                (
                    (if have_long {
                        acc
                    } else {
                        sde_bytes_name_lower(b)
                    }),
                    index + 32,
                    sde_bytes_first_cluster(b),
                    b[11] as int,
                ),
            )
        } else {
            dir_info_spec(f, fs, index + 32, lde_bytes_name(b) + acc, true)
        }
    }
}

/// One unfolding step of the directory walk, per record kind.
pub proof fn lemma_dir_spec_past(f: VirtFile, fs: FileSystem, index: int, acc: Seq<char>, fl: bool)
    requires
        0 <= index,
        index + 32 > f.chain().len() * fs.bpb.spec_cluster_size(),
    ensures
        dir_info_spec(f, fs, index, acc, fl) is None,
{
    reveal(dir_info_spec);
}

pub proof fn lemma_dir_spec_end(f: VirtFile, fs: FileSystem, index: int, acc: Seq<char>, fl: bool)
    requires
        0 <= index,
        index + 32 <= f.chain().len() * fs.bpb.spec_cluster_size(),
        spec_dirent_bytes(f, fs, index)[0] == crate::DIR_ENTRY_LAST_AND_UNUSED,
    ensures
        dir_info_spec(f, fs, index, acc, fl) is None,
{
    reveal(dir_info_spec);
}

pub proof fn lemma_dir_spec_deleted(
    f: VirtFile,
    fs: FileSystem,
    index: int,
    acc: Seq<char>,
    fl: bool,
)
    requires
        0 <= index,
        index + 32 <= f.chain().len() * fs.bpb.spec_cluster_size(),
        spec_dirent_bytes(f, fs, index)[0] == crate::DIR_ENTRY_UNUSED,
    ensures
        dir_info_spec(f, fs, index, acc, fl) == dir_info_spec(
            f,
            fs,
            index + 32,
            Seq::<char>::empty(),
            false,
        ),
{
    reveal(dir_info_spec);
}

pub proof fn lemma_dir_spec_short(
    f: VirtFile,
    fs: FileSystem,
    index: int,
    acc: Seq<char>,
    fl: bool,
)
    requires
        0 <= index,
        index + 32 <= f.chain().len() * fs.bpb.spec_cluster_size(),
        spec_dirent_bytes(f, fs, index)[0] != crate::DIR_ENTRY_LAST_AND_UNUSED,
        spec_dirent_bytes(f, fs, index)[0] != crate::DIR_ENTRY_UNUSED,
        spec_dirent_bytes(f, fs, index)[11] != crate::ATTR_LONG_NAME,
    ensures
        dir_info_spec(f, fs, index, acc, fl) == Some(
            (
                (if fl {
                    acc
                } else {
                    sde_bytes_name_lower(spec_dirent_bytes(f, fs, index))
                }),
                index + 32,
                sde_bytes_first_cluster(spec_dirent_bytes(f, fs, index)),
                spec_dirent_bytes(f, fs, index)[11] as int,
            ),
        ),
{
    reveal(dir_info_spec);
}

pub proof fn lemma_dir_spec_long(
    f: VirtFile,
    fs: FileSystem,
    index: int,
    acc: Seq<char>,
    fl: bool,
)
    requires
        0 <= index,
        index + 32 <= f.chain().len() * fs.bpb.spec_cluster_size(),
        spec_dirent_bytes(f, fs, index)[0] != crate::DIR_ENTRY_LAST_AND_UNUSED,
        spec_dirent_bytes(f, fs, index)[0] != crate::DIR_ENTRY_UNUSED,
        spec_dirent_bytes(f, fs, index)[11] == crate::ATTR_LONG_NAME,
    ensures
        dir_info_spec(f, fs, index, acc, fl) == dir_info_spec(
            f,
            fs,
            index + 32,
            lde_bytes_name(spec_dirent_bytes(f, fs, index)) + acc,
            true,
        ),
{
    reveal(dir_info_spec);
}

/// The walk reads only current bytes, so two content-equal states agree
/// on it.
pub proof fn lemma_dir_spec_transfer(
    f: VirtFile,
    fs1: FileSystem,
    fs2: FileSystem,
    index: int,
    acc: Seq<char>,
    fl: bool,
)
    requires
        fs1.wf(),
        f.cluster_chain.matches(fs1.fat.spec_entries()),
        fs2.state_eq(fs1),
    ensures
        dir_info_spec(f, fs2, index, acc, fl) == dir_info_spec(f, fs1, index, acc, fl),
    decreases f.chain().len() * fs1.bpb.spec_cluster_size() - index,
{
    reveal(dir_info_spec);
    let cov = f.chain().len() * fs1.bpb.spec_cluster_size();
    if 0 <= index && index + 32 <= cov {
        assert forall|k: int|
            #![trigger f.spec_file_byte(fs2, index + k)]
            0 <= k < 32 implies f.spec_file_byte(fs2, index + k) == f.spec_file_byte(
            fs1,
            index + k,
        ) by {
            lemma_file_addr_in_device(f, fs1, index + k);
        }
        let b1 = spec_dirent_bytes(f, fs1, index);
        let b2 = spec_dirent_bytes(f, fs2, index);
        assert(b2 =~= b1);
        if b1[0] == crate::DIR_ENTRY_LAST_AND_UNUSED {
        } else if b1[0] == crate::DIR_ENTRY_UNUSED {
            lemma_dir_spec_transfer(f, fs1, fs2, index + 32, Seq::empty(), false);
        } else if b1[11] != crate::ATTR_LONG_NAME {
        } else {
            lemma_dir_spec_transfer(f, fs1, fs2, index + 32, lde_bytes_name(b1) + acc, true);
        }
    }
}

/// A short entry and its record agree on the lower-cased display name.
pub proof fn lemma_sde_name_from_bytes(e: ShortDirEntry, b: Seq<u8>)
    requires
        sde_matches_bytes(e, b),
    ensures
        e.spec_name().map_values(|c: char| crate::entry::lower_char(c)) == sde_bytes_name_lower(
            b,
        ),
{
    assert(e.name@ =~= b.subrange(0, 8));
    assert(e.extension@ =~= b.subrange(8, 11));
}

/// A long entry and its record agree on the stored name fragment.
pub proof fn lemma_lde_name_from_bytes(e: LongDirEntry, b: Seq<u8>)
    requires
        crate::entry::lde_matches_bytes(e, b),
    ensures
        e.spec_name() == lde_bytes_name(b),
{
    assert forall|i: int| 0 <= i < 13 implies e.name_units()[i] == lde_bytes_units(b)[i] by {
        if i < 5 {
            lemma_u16_split(e.name1[i]);
        } else if i < 11 {
            lemma_u16_split(e.name2[i - 5]);
        } else {
            lemma_u16_split(e.name3[i - 11]);
        }
    }
    assert(e.name_units() =~= lde_bytes_units(b));
}

/// Bytes read from the engine at a record's position equal the record's
/// bytes as an earlier, content-equal state stores them.
pub proof fn lemma_dirent_bytes_transfer(
    f: VirtFile,
    fs0: FileSystem,
    fs1: FileSystem,
    index: int,
    bytes: Seq<u8>,
)
    requires
        fs0.wf(),
        f.cluster_chain.matches(fs0.fat.spec_entries()),
        fs1.state_eq(fs0),
        bytes.len() == 32,
        0 <= index,
        index + 32 <= f.chain().len() * fs0.bpb.spec_cluster_size(),
        forall|k: int| 0 <= k < 32 ==> bytes[k] == f.spec_file_byte(fs1, index + k),
    ensures
        bytes =~= spec_dirent_bytes(f, fs0, index),
{
    assert forall|k: int| 0 <= k < 32 implies bytes[k] == f.spec_file_byte(fs0, index + k) by {
        lemma_file_addr_in_device(f, fs0, index + k);
        assert(cur_byte(fs1.cache, fs1.device, file_addr(fs0.bpb, f.chain(), index + k))
            == cur_byte(fs0.cache, fs0.device, file_addr(fs0.bpb, f.chain(), index + k)));
    }
}

/// File bytes within the chain's coverage agree between two content-equal
/// states.
pub proof fn lemma_file_bytes_eq(f: VirtFile, fs0: FileSystem, fs1: FileSystem, start: int, n: int)
    requires
        fs0.wf(),
        f.cluster_chain.matches(fs0.fat.spec_entries()),
        fs1.state_eq(fs0),
        0 <= start,
        start + n <= f.chain().len() * fs0.bpb.spec_cluster_size(),
    ensures
        forall|k: int|
            #![trigger f.spec_file_byte(fs1, start + k)]
            0 <= k < n ==> f.spec_file_byte(fs1, start + k) == f.spec_file_byte(fs0, start + k),
{
    assert forall|k: int|
        #![trigger f.spec_file_byte(fs1, start + k)]
        0 <= k < n implies f.spec_file_byte(fs1, start + k) == f.spec_file_byte(
        fs0,
        start + k,
    ) by {
        lemma_file_addr_in_device(f, fs0, start + k);
    }
}

/// Every byte offset within the chain's coverage has a disk address inside
/// the device.
pub proof fn lemma_file_addr_in_device(f: VirtFile, fs: FileSystem, off: int)
    requires
        fs.wf(),
        f.cluster_chain.matches(fs.fat.spec_entries()),
        0 <= off < f.chain().len() * fs.bpb.spec_cluster_size(),
    ensures
        0 <= file_addr(fs.bpb, f.chain(), off) < fs.device.spec_num_blocks() * 512,
{
    let cs = fs.bpb.spec_cluster_size();
    assert(off / cs < f.chain().len()) by (nonlinear_arith)
        requires
            cs > 0,
            0 <= off < f.chain().len() * cs,
    ;
    vstd::arithmetic::div_mod::lemma_fundamental_div_mod(off, cs);
    assert(crate::fat::is_data_cluster(fs.fat.spec_entries(), f.chain()[off / cs]));
    crate::volume::lemma_cluster_span(fs.bpb, f.chain()[off / cs] as int);
}

impl VirtFile {
    /// Walks this directory's content from byte offset `offset`: skips
    /// tombstoned records, gathers the name fragments of long entries, and
    /// stops at the first short entry, returning its name (the gathered
    /// long name, or the short name lower-cased), the offset just past it,
    /// its first cluster and its attribute byte; nothing at the end of the
    /// directory.
    #[verifier::rlimit(100)]
    #[verifier::spinoff_prover]
    pub fn dir_info(&self, fs: &mut FileSystem, offset: usize) -> (r: Option<
        (String, usize, usize, usize),
    >)
        requires
            old(fs).wf(),
            self.wf(*old(fs)),
            offset <= 0x4000_0000,
        ensures
            final(fs).wf(),
            final(fs).state_eq(*old(fs)),
            self.wf(*final(fs)),
            r matches Some(e) ==> offset < e.1 && e.1 % 32 == offset % 32 && e.1
                <= 0x4000_0000,
            !(self.attr is Dir) ==> r is None,
            self.attr is Dir ==> (r is Some <==> dir_info_spec(
                *self,
                *old(fs),
                offset as int,
                Seq::empty(),
                false,
            ) is Some),
            self.attr is Dir ==> (r matches Some(e) ==> dir_info_spec(
                *self,
                *old(fs),
                offset as int,
                Seq::empty(),
                false,
            ) == Some((e.0@, e.1 as int, e.2 as int, e.3 as int))),
    {
        let ghost fs0 = *old(fs);
        if !self.is_dir() {
            proof {
                lemma_state_eq_refl(*fs);
            }
            return None;
        }
        proof {
            self.lemma_cov_bound(fs0);
        }
        self.dir_info_at(fs, offset, String::new(), false)
    }

    /// One step of the directory walk from `index`, with the long-name
    /// fragments gathered so far in `name`; recurses past tombstones and
    /// long entries exactly as `dir_info_spec` walks them.
    #[verifier::rlimit(100)]
    #[verifier::spinoff_prover]
    fn dir_info_at(&self, fs: &mut FileSystem, index: usize, name: String, is_long: bool) -> (r:
        Option<(String, usize, usize, usize)>)
        requires
            old(fs).wf(),
            self.wf(*old(fs)),
            index <= 0x4000_0020,
            self.chain().len() * old(fs).bpb.spec_cluster_size() <= 0x4000_0000,
        ensures
            final(fs).wf(),
            final(fs).state_eq(*old(fs)),
            self.wf(*final(fs)),
            r is Some <==> dir_info_spec(*self, *old(fs), index as int, name@, is_long) is Some,
            r matches Some(e) ==> dir_info_spec(*self, *old(fs), index as int, name@, is_long)
                == Some((e.0@, e.1 as int, e.2 as int, e.3 as int)),
            r matches Some(e) ==> index < e.1 && e.1 % 32 == index % 32 && e.1 <= 0x4000_0000,
        decreases self.chain().len() * fs.bpb.spec_cluster_size() + 32 - index,
    {
        let ghost fs0 = *old(fs);
        let ghost cov = self.chain().len() * fs0.bpb.spec_cluster_size();
        let mut buf: Vec<u8> = Vec::new();
        let mut i: usize = 0;
        while i < 32
            invariant
                i <= 32,
                buf@.len() == i,
            decreases 32 - i,
        {
            buf.push(0u8);
            i = i + 1;
        }
        let read_size = self.read_at(fs, index, &mut buf);
        proof {
            lemma_entry_view_preserved(*self, fs0, *fs);
            if read_size == 32 {
                assert(index + 32 <= cov);
                lemma_dirent_bytes_transfer(*self, fs0, fs0, index as int, buf@);
            } else {
                assert(index + 32 > cov);
            }
        }
        if read_size != DIRENT_SIZE {
            proof {
                lemma_dir_spec_past(*self, fs0, index as int, name@, is_long);
            }
            return None;
        }
        let lde = LongDirEntry::new_form_bytes(buf.as_slice());
        proof {
            assert(buf@.subrange(0, 32) =~= buf@);
            assert(lde.ord == buf@[0] && lde.attr == buf@[11]);
        }
        if lde.is_empty() {
            proof {
                lemma_dir_spec_end(*self, fs0, index as int, name@, is_long);
            }
            return None;
        }
        if lde.is_deleted() {
            proof {
                lemma_dir_spec_deleted(*self, fs0, index as int, name@, is_long);
            }
            let ghost fs1 = *fs;
            let r = self.dir_info_at(fs, index + DIRENT_SIZE, String::new(), false);
            proof {
                fs.lemma_state_eq_trans(fs1, fs0);
                lemma_dir_spec_transfer(
                    *self,
                    fs0,
                    fs1,
                    index + 32,
                    Seq::<char>::empty(),
                    false,
                );
            }
            return r;
        }
        if lde.attr() != crate::ATTR_LONG_NAME {
            let sde = ShortDirEntry::new_from_bytes(buf.as_slice());
            proof {
                lemma_sde_fields_from_bytes(sde, buf@);
            }
            let out_name: String;
            if !is_long {
                out_name = sde.get_name_lowercase();
                proof {
                    lemma_sde_name_from_bytes(sde, buf@);
                }
            } else {
                out_name = name;
            }
            let attribute = sde.attr();
            let first_cluster = sde.first_cluster();
            proof {
                lemma_dir_spec_short(*self, fs0, index as int, name@, is_long);
            }
            return Some((out_name, index + DIRENT_SIZE, first_cluster as usize, attribute
                as usize));
        }
        let frag = lde.name();
        proof {
            lemma_lde_name_from_bytes(lde, buf@);
            assert(frag@ == lde_bytes_name(buf@));
            lemma_dir_spec_long(*self, fs0, index as int, name@, is_long);
        }
        let mut next_name = name;
        crate::utf16::prepend_str(&mut next_name, frag.as_str());
        proof {
            assert(next_name@ == lde_bytes_name(spec_dirent_bytes(*self, fs0, index as int))
                + name@);
        }
        let ghost fs1 = *fs;
        let ghost acc1 = next_name@;
        let r = self.dir_info_at(fs, index + DIRENT_SIZE, next_name, true);
        proof {
            fs.lemma_state_eq_trans(fs1, fs0);
            lemma_dir_spec_transfer(*self, fs0, fs1, index + 32, acc1, true);
        }
        r
    }
}

/// The root directory's handle: no on-disk entry, the geometry's root
/// cluster, and the chain walked from it.
pub fn root(fs: &FileSystem) -> (r: VirtFile)
    requires
        fs.wf(),
        crate::fat::chain_ok(
            fs.fat.spec_entries(),
            fs.root_dir_entry.spec_first_cluster(),
        ),
    ensures
        r.wf(*fs),
        r.is_root(),
        r.attr is Dir,
        r.name@ == "/"@,
        r.lde_pos@.len() == 0,
{
    let root_cluster = fs.root_dir_entry.first_cluster();
    let mut cluster_chain = ClusterChain::new(root_cluster);
    cluster_chain.generate(&fs.fat);
    VirtFile::new(
        String::from_str("/"),
        DirEntryPos { cluster: ROOT_DIR_ENTRY_CLUSTER, offset_in_cluster: 0 },
        Vec::new(),
        cluster_chain,
        VirtFileType::Dir,
    )
}

/// Entry bytes, and with them the stored first cluster and size, carry
/// over between states with equal content.
pub proof fn lemma_entry_view_preserved(f: VirtFile, fs1: FileSystem, fs2: FileSystem)
    requires
        fs1.wf(),
        f.pos_ok(fs1),
        fs2.state_eq(fs1),
    ensures
        !f.is_root() ==> f.spec_sde_bytes(fs2) =~= f.spec_sde_bytes(fs1),
        f.spec_first_cluster(fs2) == f.spec_first_cluster(fs1),
        f.spec_file_size(fs2) == f.spec_file_size(fs1),
{
    if !f.is_root() {
        crate::volume::lemma_cluster_span(fs1.bpb, f.sde_pos.cluster as int);
        assert forall|k: int| 0 <= k < 32 implies f.spec_sde_bytes(fs2)[k] == f.spec_sde_bytes(
            fs1,
        )[k] by {
            assert(0 <= pos_addr(fs1.bpb, f.sde_pos) + k < fs1.device.spec_num_blocks() * 512);
        }
        assert(f.spec_sde_bytes(fs2) =~= f.spec_sde_bytes(fs1));
    }
}

/// Entry bytes survive an operation that changes nothing outside
/// `[lo, hi)`, a range disjoint from the record.
pub proof fn lemma_sde_bytes_frame(
    f: VirtFile,
    fs1: FileSystem,
    fs2: FileSystem,
    lo: int,
    hi: int,
)
    requires
        fs1.wf(),
        !f.is_root(),
        f.pos_ok(fs1),
        fs2.bpb == fs1.bpb,
        fs2.device.spec_num_blocks() == fs1.device.spec_num_blocks(),
        forall|a: int|
            0 <= a < fs1.device.spec_num_blocks() * 512 && !(lo <= a < hi) ==> cur_byte(
                fs2.cache,
                fs2.device,
                a,
            ) == cur_byte(fs1.cache, fs1.device, a),
        pos_addr(fs1.bpb, f.sde_pos) + 32 <= lo || hi <= pos_addr(fs1.bpb, f.sde_pos),
    ensures
        f.spec_sde_bytes(fs2) =~= f.spec_sde_bytes(fs1),
        f.spec_first_cluster(fs2) == f.spec_first_cluster(fs1),
        f.spec_file_size(fs2) == f.spec_file_size(fs1),
{
    crate::volume::lemma_cluster_span(fs1.bpb, f.sde_pos.cluster as int);
    assert forall|k: int| 0 <= k < 32 implies f.spec_sde_bytes(fs2)[k] == f.spec_sde_bytes(
        fs1,
    )[k] by {
        let a = pos_addr(fs1.bpb, f.sde_pos) + k;
        assert(0 <= a < fs1.device.spec_num_blocks() * 512);
        assert(!(lo <= a < hi));
    }
    assert(f.spec_sde_bytes(fs2) =~= f.spec_sde_bytes(fs1));
}

/// State equality is reflexive.
pub proof fn lemma_state_eq_refl(fs: FileSystem)
    ensures
        fs.state_eq(fs),
{
}

} // verus!
