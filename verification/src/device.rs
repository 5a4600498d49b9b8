//! The raw block device the engine works against: a disk image held in
//! memory, read and written in whole 512-byte blocks. Loading the image
//! from real storage, and storing it back, is the caller's business.

use vstd::prelude::*;

use crate::BLOCK_SIZE;

verus! {

/// A disk image: a flat byte buffer addressed in 512-byte blocks.
pub struct DiskImage {
    data: Vec<u8>,
}

impl DiskImage {
    /// All bytes of the image.
    pub closed spec fn bytes(self) -> Seq<u8> {
        self.data@
    }

    /// How many whole blocks the image holds.
    pub open spec fn spec_num_blocks(self) -> int {
        self.bytes().len() as int / 512
    }

    /// The 512 bytes of block `b`.
    pub open spec fn block_view(self, b: int) -> Seq<u8> {
        self.bytes().subrange(b * 512, b * 512 + 512)
    }

    /// A zeroed image of `num_blocks` blocks.
    pub fn new(num_blocks: usize) -> (r: Self)
        requires
            num_blocks * 512 <= usize::MAX,
        ensures
            r.spec_num_blocks() == num_blocks,
            r.bytes() =~= Seq::new((num_blocks * 512) as nat, |i: int| 0u8),
    {
        let total = num_blocks * 512;
        let mut data: Vec<u8> = Vec::new();
        let mut i: usize = 0;
        while i < total
            invariant
                i <= total,
                data@ =~= Seq::new(i as nat, |j: int| 0u8),
            decreases total - i,
        {
            data.push(0u8);
            i = i + 1;
        }
        proof {
            assert(data@.len() == num_blocks * 512);
            vstd::arithmetic::div_mod::lemma_div_multiples_vanish(
                num_blocks as int,
                512,
            );
        }
        Self { data }
    }

    /// Wraps an existing image; the length must be whole blocks.
    pub fn from_bytes(data: Vec<u8>) -> (r: Self)
        requires
            data@.len() % 512 == 0,
        ensures
            r.bytes() == data@,
    {
        Self { data }
    }

    /// Hands the raw bytes back, for the caller to store.
    pub fn into_bytes(self) -> (r: Vec<u8>)
        ensures
            r@ == self.bytes(),
    {
        self.data
    }

    /// The image's byte count fits the machine word, and so does its
    /// block count times the block size.
    pub proof fn lemma_bytes_fit(self)
        ensures
            self.bytes().len() <= usize::MAX,
            self.spec_num_blocks() >= 0,
            self.spec_num_blocks() * 512 <= usize::MAX,
    {
        assert(self.bytes().len() == vstd::std_specs::vec::spec_vec_len(&self.data));
        assert((self.bytes().len() as int / 512) * 512 <= self.bytes().len() as int)
            by (nonlinear_arith);
    }

    pub fn num_blocks(&self) -> (r: usize)
        ensures
            r == self.spec_num_blocks(),
    {
        self.data.len() / 512
    }

    /// Reads one whole block into `buf`, replacing its contents.
    pub fn read_block(&self, block_id: usize, buf: &mut Vec<u8>)
        requires
            block_id < self.spec_num_blocks(),
        ensures
            final(buf)@ =~= self.block_view(block_id as int),
            final(buf)@.len() == BLOCK_SIZE,
    {
        let dlen = self.data.len();
        proof {
            lemma_block_in_range(dlen as int, block_id as int);
        }
        let base = block_id * 512;
        buf.clear();
        let mut i: usize = 0;
        while i < 512
            invariant
                i <= 512,
                base == block_id * 512,
                base + 512 <= self.bytes().len(),
                buf@ =~= self.bytes().subrange(base as int, base as int + i as int),
            decreases 512 - i,
        {
            buf.push(self.data[base + i]);
            assert(buf@ =~= self.bytes().subrange(base as int, base as int + i + 1));
            i = i + 1;
        }
    }

    /// Writes one whole block; every byte outside it is untouched.
    pub fn write_block(&mut self, block_id: usize, buf: &[u8])
        requires
            block_id < old(self).spec_num_blocks(),
            buf@.len() == BLOCK_SIZE,
        ensures
            final(self).bytes().len() == old(self).bytes().len(),
            final(self).block_view(block_id as int) =~= buf@,
            forall|a: int|
                0 <= a < old(self).bytes().len() && !(block_id * 512 <= a < block_id * 512 + 512)
                    ==> final(self).bytes()[a] == old(self).bytes()[a],
    {
        let dlen = self.data.len();
        proof {
            lemma_block_in_range(dlen as int, block_id as int);
        }
        let base = block_id * 512;
        let mut i: usize = 0;
        while i < 512
            invariant
                i <= 512,
                base == block_id * 512,
                base + 512 <= self.bytes().len(),
                buf@.len() == BLOCK_SIZE,
                self.bytes().len() == old(self).bytes().len(),
                forall|j: int| 0 <= j < i ==> self.bytes()[base + j] == buf@[j],
                forall|a: int|
                    0 <= a < old(self).bytes().len() && !(base <= a < base + i) ==> self.bytes()[a]
                        == old(self).bytes()[a],
            decreases 512 - i,
        {
            self.data.set(base + i, buf[i]);
            i = i + 1;
        }
    }
}

/// A block id below the block count addresses bytes inside the image.
proof fn lemma_block_in_range(len: int, b: int)
    requires
        len >= 0,
        0 <= b < len / 512,
    ensures
        b * 512 + 512 <= len,
{
    assert((b + 1) * 512 <= (len / 512) * 512 && (len / 512) * 512 <= len) by (nonlinear_arith)
        requires
            0 <= b < len / 512,
            len >= 0,
    ;
}

} // verus!
