//! Open-file handles: a virtual file paired with a cursor and access
//! flags, as the kernel's file table holds them.

use vstd::prelude::*;

use crate::vf::VirtFile;
use crate::volume::FileSystem;

verus! {

/// The mutable half of an open file: cursor, handle, flags, liveness.
pub struct OSInodeInner {
    pub offset: usize,
    pub inode: VirtFile,
    pub flags: u32,
    pub available: bool,
}

/// An open regular file or directory.
pub struct OSInode {
    pub readable: bool,
    pub writable: bool,
    pub inner: OSInodeInner,
    pub path: String,
    pub name: String,
}

impl OSInode {
    pub fn new(readable: bool, writable: bool, inode: VirtFile, path: String, name: String) -> (r:
        Self)
        ensures
            r.readable == readable,
            r.writable == writable,
            r.inner.inode == inode,
            r.inner.offset == 0,
            r.inner.flags == 0,
            r.inner.available,
            r.path == path,
            r.name == name,
    {
        Self {
            readable,
            writable,
            inner: OSInodeInner { offset: 0, inode, flags: 0, available: true },
            path,
            name,
        }
    }

    /// Reads everything from the cursor to the end of the chain's
    /// coverage, advancing the cursor to that end; the filesystem's
    /// content is untouched.
    pub fn read_all(&mut self, fs: &mut FileSystem) -> (r: Vec<u8>)
        requires
            old(fs).wf(),
            old(self).inner.inode.wf(*old(fs)),
            old(self).inner.offset <= 0x4000_0000,
        ensures
            final(fs).wf(),
            final(fs).state_eq(*old(fs)),
            final(self).inner.inode == old(self).inner.inode,
            final(self).inner.inode.wf(*final(fs)),
            ({
                let cov = old(self).inner.inode.chain().len() * old(fs).bpb.spec_cluster_size();
                let start = old(self).inner.offset as int;
                &&& final(self).inner.offset as int == (if start <= cov {
                    cov
                } else {
                    start
                })
                &&& r@.len() == (if start <= cov {
                    cov - start
                } else {
                    0
                })
                &&& forall|i: int|
                    0 <= i < r@.len() ==> r@[i] == old(self).inner.inode.spec_file_byte(
                        *old(fs),
                        start + i,
                    )
            }),
    {
        let ghost fs0 = *old(fs);
        let ghost start0 = self.inner.offset as int;
        let mut v: Vec<u8> = Vec::new();
        let mut buffer: Vec<u8> = Vec::new();
        let mut i: usize = 0;
        while i < 512
            invariant
                i <= 512,
                buffer@.len() == i,
            decreases 512 - i,
        {
            buffer.push(0u8);
            i = i + 1;
        }
        let ghost cov = self.inner.inode.chain().len() * fs0.bpb.spec_cluster_size();
        proof {
            self.inner.inode.lemma_cov_bound(fs0);
        }
        loop
            invariant
                fs0 == *old(fs),
                fs.wf(),
                fs.state_eq(fs0),
                fs0.wf(),
                start0 == old(self).inner.offset as int,
                start0 <= 0x4000_0000,
                self.inner.inode == old(self).inner.inode,
                self.inner.inode.wf(fs0),
                self.inner.inode.wf(*fs),
                buffer@.len() == 512,
                cov == self.inner.inode.chain().len() * fs0.bpb.spec_cluster_size(),
                cov <= 0x4000_0000,
                start0 <= self.inner.offset as int,
                v@.len() == self.inner.offset - start0,
                self.inner.offset as int == start0 || self.inner.offset as int <= cov,
                forall|i: int|
                    0 <= i < v@.len() ==> v@[i] == self.inner.inode.spec_file_byte(
                        fs0,
                        start0 + i,
                    ),
                self.inner.offset <= 0x4000_0000 + cov,
            decreases 0x4000_0000 + cov - self.inner.offset,
        {
            let ghost fs_loop = *fs;
            let off = self.inner.offset;
            let len = self.inner.inode.read_at(fs, off, &mut buffer);
            proof {
                fs.lemma_state_eq_trans(fs_loop, fs0);
                crate::vf::lemma_entry_view_preserved(self.inner.inode, fs_loop, *fs);
                if len > 0 {
                    assert(off as int + len <= cov);
                    crate::vf::lemma_file_bytes_eq(
                        self.inner.inode,
                        fs0,
                        fs_loop,
                        off as int,
                        len as int,
                    );
                }
            }
            if len == 0 {
                proof {
                    assert(off as int >= cov || off as int == start0);
                }
                return v;
            }
            self.inner.offset = off + len;
            let mut j: usize = 0;
            while j < len
                invariant
                    j <= len <= 512,
                    buffer@.len() == 512,
                    v@.len() == off - start0 + j,
                    forall|i: int|
                        0 <= i < v@.len() ==> v@[i] == self.inner.inode.spec_file_byte(
                            fs0,
                            start0 + i,
                        ),
                    forall|i: int|
                        0 <= i < len ==> buffer@[i] == self.inner.inode.spec_file_byte(
                            fs0,
                            off + i,
                        ),
                    start0 <= off,
                decreases len - j,
            {
                v.push(buffer[j]);
                j = j + 1;
            }
        }
    }

    /// Reads up to `len` bytes from `offset` (or the cursor when `offset`
    /// is negative): exactly `len` bytes, clipped at the end of the
    /// chain's coverage. An explicit offset leaves the cursor untouched; a
    /// negative one advances it by what was read.
    pub fn read_vec(&mut self, fs: &mut FileSystem, offset: isize, len: usize) -> (r: Vec<u8>)
        requires
            old(fs).wf(),
            old(self).inner.inode.wf(*old(fs)),
            old(self).inner.offset <= 0x4000_0000,
            offset <= 0x4000_0000,
            len <= 0x4000_0000,
        ensures
            final(fs).wf(),
            final(fs).state_eq(*old(fs)),
            final(self).inner.inode == old(self).inner.inode,
            final(self).inner.inode.wf(*final(fs)),
            ({
                let cov = old(self).inner.inode.chain().len() * old(fs).bpb.spec_cluster_size();
                let start = (if offset >= 0 {
                    offset as int
                } else {
                    old(self).inner.offset as int
                });
                &&& r@.len() == crate::vf::min2(
                    len as int,
                    (if start <= cov {
                        cov - start
                    } else {
                        0
                    }),
                )
                &&& (forall|i: int|
                    0 <= i < r@.len() ==> r@[i] == old(self).inner.inode.spec_file_byte(
                        *old(fs),
                        start + i,
                    ))
                &&& (offset >= 0 ==> final(self).inner.offset == old(self).inner.offset)
                &&& (offset < 0 ==> final(self).inner.offset as int == start + r@.len())
            }),
    {
        let ghost fs0 = *old(fs);
        let start: usize = if offset >= 0 {
            offset as usize
        } else {
            self.inner.offset
        };
        let mut buf: Vec<u8> = Vec::new();
        let mut i: usize = 0;
        while i < len
            invariant
                i <= len,
                buf@.len() == i,
            decreases len - i,
        {
            buf.push(0u8);
            i = i + 1;
        }
        let n = self.inner.inode.read_at(fs, start, &mut buf);
        proof {
            crate::vf::lemma_entry_view_preserved(self.inner.inode, fs0, *fs);
        }
        buf.truncate(n);
        if offset < 0 {
            self.inner.offset = start + n;
        }
        buf
    }

    /// Writes the whole buffer at the cursor and advances it.
    pub fn write_all(&mut self, fs: &mut FileSystem, str_vec: &Vec<u8>) -> (r: usize)
        requires
            old(fs).wf(),
            old(self).inner.inode.wf(*old(fs)),
            old(self).inner.offset + str_vec@.len() <= 0x4000_0000,
            old(self).inner.inode.needed_clusters(
                *old(fs),
                (old(self).inner.offset + str_vec@.len()) as int,
            ) <= crate::fat::count_free(old(fs).fat.spec_entries()),
            old(self).inner.inode.covers(*old(fs)),
            old(self).inner.inode.meta_disjoint(*old(fs)),
            !old(self).inner.inode.is_root() ==> old(fs).fat.spec_entries()[old(
                self,
            ).inner.inode.sde_pos.cluster as int] != crate::FREE_CLUSTER,
        ensures
            final(fs).wf(),
            final(self).inner.inode.wf(*final(fs)),
            r == str_vec@.len(),
            final(self).inner.offset == old(self).inner.offset + str_vec@.len(),
            forall|i: int|
                0 <= i < str_vec@.len() ==> final(self).inner.inode.spec_file_byte(
                    *final(fs),
                    old(self).inner.offset + i,
                ) == str_vec@[i],
    {
        let n = self.inner.inode.write_at(fs, self.inner.offset, str_vec.as_slice());
        self.inner.offset = self.inner.offset + n;
        n
    }

    pub fn is_dir(&self) -> (r: bool)
        ensures
            r == (self.inner.inode.attr is Dir),
    {
        self.inner.inode.is_dir()
    }

    pub fn name(&self) -> (r: &str)
        ensures
            r@ == self.name@,
    {
        self.name.as_str()
    }

    /// Deletes the underlying file: tombstones its entries and frees its
    /// clusters, returning how many were released.
    pub fn delete(&mut self, fs: &mut FileSystem) -> (r: usize)
        requires
            old(fs).wf(),
            old(self).inner.inode.wf(*old(fs)),
            !old(self).inner.inode.is_root(),
            forall|i: int, j: int|
                0 <= i < j < old(self).inner.inode.lde_pos@.len() ==> old(
                    self,
                ).inner.inode.lde_pos@[i] != old(self).inner.inode.lde_pos@[j],
            forall|i: int|
                0 <= i < old(self).inner.inode.lde_pos@.len() ==> old(self).inner.inode.lde_pos@[i]
                    != old(self).inner.inode.sde_pos,
        ensures
            final(fs).wf(),
            r == old(self).inner.inode.chain().len(),
            final(self).inner.inode.chain().len() == 0,
    {
        self.inner.inode.clear(fs)
    }

    pub fn file_size(&self, fs: &mut FileSystem) -> (r: usize)
        requires
            old(fs).wf(),
            self.inner.inode.pos_ok(*old(fs)),
        ensures
            final(fs).wf(),
            final(fs).state_eq(*old(fs)),
            r == self.inner.inode.spec_file_size(*old(fs)),
    {
        self.inner.inode.file_size(fs)
    }
}

} // verus!
