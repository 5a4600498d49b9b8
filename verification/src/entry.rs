//! FAT32 directory entry codec: bit-exact translation between the 32-byte
//! on-disk records and typed in-memory values, with no disk I/O.
//!
//! All multi-byte fields are little-endian.

use vstd::prelude::*;
use vstd::utf8::char_u32_cast;

use crate::utf16::push_char;
use crate::vf::VirtFileType;
use crate::{
    ATTR_ARCHIVE, ATTR_DIRECTORY, ATTR_HIDDEN, ATTR_LONG_NAME, ATTR_READ_ONLY, ATTR_SYSTEM,
    ATTR_VOLUME_ID, DIR_ENTRY_LAST_AND_UNUSED, DIR_ENTRY_UNUSED, LAST_LONG_ENTRY, SPACE,
};

verus! {

broadcast use vstd::array::group_array_axioms;

/// Low byte of a little-endian `u16`.
pub open spec fn u16_lo(x: u16) -> u8 {
    (x % 256) as u8
}

/// High byte of a little-endian `u16`.
pub open spec fn u16_hi(x: u16) -> u8 {
    (x / 256) as u8
}

/// Byte `k` (0 = least significant) of a little-endian `u32`.
pub open spec fn u32_byte(x: u32, k: int) -> u8 {
    if k == 0 {
        (x % 256) as u8
    } else if k == 1 {
        ((x / 256) % 256) as u8
    } else if k == 2 {
        ((x / 65536) % 256) as u8
    } else {
        ((x / 16777216) % 256) as u8
    }
}

/// One step of the FAT short-name checksum: rotate right by one, then add
/// the next byte, all modulo 256.
pub open spec fn checksum_push(sum: u32, b: u8) -> u32 {
    ((((sum % 2) * 128) + (sum / 2) + b) % 256) as u32
}

/// Checksum of the first `n` bytes of `bytes`.
pub open spec fn fat_checksum_rec(bytes: Seq<u8>, n: int) -> u32
    decreases n,
{
    if n <= 0 {
        0u32
    } else {
        checksum_push(fat_checksum_rec(bytes, n - 1), bytes[n - 1])
    }
}

/// The FAT checksum of a byte sequence; cross-links long entries with their
/// short entry when applied to the raw 11-byte name field.
pub open spec fn fat_checksum(bytes: Seq<u8>) -> u8 {
    fat_checksum_rec(bytes, bytes.len() as int) as u8
}

pub proof fn lemma_checksum_rec_bound(bytes: Seq<u8>, n: int)
    ensures
        0 <= fat_checksum_rec(bytes, n) < 256,
    decreases n,
{
    if n > 0 {
        lemma_checksum_rec_bound(bytes, n - 1);
    }
}

/// Bytes below 0x20 and the characters `" * . / : < > ? [ \ ] |` may not
/// appear in a stored short name or extension.
pub open spec fn valid_name_byte(b: u8) -> bool {
    &&& b >= 0x20
    &&& b != 0x22
    &&& b != 0x2A
    &&& b != 0x2E
    &&& b != 0x2F
    &&& b != 0x3A
    &&& b != 0x3C
    &&& b != 0x3E
    &&& b != 0x3F
    &&& b != 0x5B
    &&& b != 0x5C
    &&& b != 0x5D
    &&& b != 0x7C
}

/// ASCII upper-casing of one byte, as `make_ascii_uppercase` applies it.
pub open spec fn ascii_upper(b: u8) -> u8 {
    if 0x61 <= b <= 0x7A {
        (b - 0x20) as u8
    } else {
        b
    }
}

/// ASCII lower-casing of one byte.
pub open spec fn ascii_lower(b: u8) -> u8 {
    if 0x41 <= b <= 0x5A {
        (b + 0x20) as u8
    } else {
        b
    }
}

/// `src` padded with spaces to length `n` and upper-cased, as the short
/// entry constructor stores names and extensions.
pub open spec fn padded_upper(src: Seq<u8>, n: int) -> Seq<u8> {
    Seq::new(n as nat, |i: int| if i < src.len() { ascii_upper(src[i]) } else { SPACE })
}

/// The bytes of `s` with every space removed, order kept.
pub open spec fn non_space(s: Seq<u8>) -> Seq<u8> {
    s.filter(|b: u8| b != SPACE)
}

/// `s` right-padded with zero bytes to length `n`.
pub open spec fn zero_padded(s: Seq<u8>, n: int) -> Seq<u8> {
    Seq::new(n as nat, |i: int| if i < s.len() { s[i] } else { 0u8 })
}

/// A single dot when the extension's first byte shows one is present.
pub open spec fn dot_seq(e0: u8) -> Seq<u8> {
    if e0 != SPACE {
        seq![0x2Eu8]
    } else {
        Seq::empty()
    }
}

/// Filtering out spaces, one pushed byte at a time.
proof fn lemma_non_space_step(s: Seq<u8>, b: u8)
    ensures
        non_space(s.push(b)) == (if b != SPACE {
            non_space(s).push(b)
        } else {
            non_space(s)
        }),
{
    reveal(Seq::filter);
    assert(s.push(b).drop_last() =~= s);
    assert(s.push(b).last() == b);
}

/// FAT 32-byte short directory entry, split into its on-disk fields.
#[verifier::ext_equal]
#[derive(Clone, Copy, Debug)]
pub struct ShortDirEntry {
    /// Name, space padded; `name[0]` doubles as the unused/deleted marker.
    pub name: [u8; 8],
    /// Extension, space padded.
    pub extension: [u8; 3],
    /// Attribute bitmask.
    pub attr: u8,
    /// Reserved byte (case hints on Windows NT).
    pub nt_res: u8,
    /// Tenths of a second of the creation time, 0-199.
    pub crt_time_tenth: u8,
    /// Creation time (2-second granularity).
    pub crt_time: u16,
    /// Creation date.
    pub crt_date: u16,
    /// Last access date.
    pub lst_acc_date: u16,
    /// High 16 bits of the first cluster number.
    pub fst_clus_hi: u16,
    /// Last write time.
    pub wrt_time: u16,
    /// Last write date.
    pub wrt_date: u16,
    /// Low 16 bits of the first cluster number.
    pub fst_clus_lo: u16,
    /// File size in bytes.
    pub file_size: u32,
}

/// Pointwise relation between a short entry and its 32-byte on-disk record.
pub open spec fn sde_matches_bytes(e: ShortDirEntry, b: Seq<u8>) -> bool {
    &&& b.len() == 32
    &&& forall|i: int| 0 <= i < 8 ==> b[i] == e.name[i]
    &&& forall|i: int| 0 <= i < 3 ==> b[8 + i] == e.extension[i]
    &&& b[11] == e.attr
    &&& b[12] == e.nt_res
    &&& b[13] == e.crt_time_tenth
    &&& b[14] == u16_lo(e.crt_time)
    &&& b[15] == u16_hi(e.crt_time)
    &&& b[16] == u16_lo(e.crt_date)
    &&& b[17] == u16_hi(e.crt_date)
    &&& b[18] == u16_lo(e.lst_acc_date)
    &&& b[19] == u16_hi(e.lst_acc_date)
    &&& b[20] == u16_lo(e.fst_clus_hi)
    &&& b[21] == u16_hi(e.fst_clus_hi)
    &&& b[22] == u16_lo(e.wrt_time)
    &&& b[23] == u16_hi(e.wrt_time)
    &&& b[24] == u16_lo(e.wrt_date)
    &&& b[25] == u16_hi(e.wrt_date)
    &&& b[26] == u16_lo(e.fst_clus_lo)
    &&& b[27] == u16_hi(e.fst_clus_lo)
    &&& b[28] == u32_byte(e.file_size, 0)
    &&& b[29] == u32_byte(e.file_size, 1)
    &&& b[30] == u32_byte(e.file_size, 2)
    &&& b[31] == u32_byte(e.file_size, 3)
}

impl ShortDirEntry {
    /// The raw 11 name bytes: 8 name bytes followed by 3 extension bytes.
    pub open spec fn name_bytes(self) -> Seq<u8> {
        self.name@ + self.extension@
    }

    /// The combined 32-bit first cluster number.
    pub open spec fn spec_first_cluster(self) -> u32 {
        (self.fst_clus_hi * 0x10000 + self.fst_clus_lo) as u32
    }

    /// An all-zero record marked as an ordinary (archive) file.
    pub fn empty() -> (r: Self)
        ensures
            r.name@ =~= Seq::new(8, |i: int| 0u8),
            r.extension@ =~= Seq::new(3, |i: int| 0u8),
            r.attr == ATTR_ARCHIVE,
            r.nt_res == 0 && r.crt_time_tenth == 0 && r.crt_time == 0 && r.crt_date == 0,
            r.lst_acc_date == 0 && r.fst_clus_hi == 0 && r.wrt_time == 0 && r.wrt_date == 0,
            r.fst_clus_lo == 0 && r.file_size == 0,
            r.spec_first_cluster() == 0,
    {
        Self {
            name: [0u8; 8],
            extension: [0u8; 3],
            attr: ATTR_ARCHIVE,
            nt_res: 0,
            crt_time_tenth: 0,
            crt_time: 0,
            crt_date: 0,
            lst_acc_date: 0,
            fst_clus_hi: 0,
            wrt_time: 0,
            wrt_date: 0,
            fst_clus_lo: 0,
            file_size: 0,
        }
    }

    /// Builds a fresh record: name and extension are space padded and
    /// upper-cased, the attribute byte follows the requested type, and the
    /// first cluster number is split across its two on-disk halves.
    pub fn new(cluster: u32, name: &[u8], extension: &[u8], create_type: VirtFileType) -> (r: Self)
        requires
            name@.len() <= 8,
            extension@.len() <= 3,
        ensures
            r.name@ =~= padded_upper(name@, 8),
            r.extension@ =~= padded_upper(extension@, 3),
            r.attr == (if create_type is File { ATTR_ARCHIVE } else { ATTR_DIRECTORY }),
            r.spec_first_cluster() == cluster,
            r.file_size == 0,
            r.nt_res == 0 && r.crt_time_tenth == 0 && r.crt_time == 0 && r.crt_date == 0,
            r.lst_acc_date == 0 && r.wrt_time == 0 && r.wrt_date == 0,
    {
        let mut item = Self::empty();
        let mut name_: [u8; 8] = [SPACE; 8];
        let mut extension_: [u8; 3] = [SPACE; 3];
        let mut i: usize = 0;
        while i < name.len()
            invariant
                i <= name@.len() <= 8,
                forall|j: int| 0 <= j < i ==> name_[j] == ascii_upper(name@[j]),
                forall|j: int| i <= j < 8 ==> name_[j] == SPACE,
            decreases name@.len() - i,
        {
            name_[i] = upper_byte(name[i]);
            i = i + 1;
        }
        let mut i: usize = 0;
        while i < extension.len()
            invariant
                i <= extension@.len() <= 3,
                forall|j: int| 0 <= j < i ==> extension_[j] == ascii_upper(extension@[j]),
                forall|j: int| i <= j < 3 ==> extension_[j] == SPACE,
            decreases extension@.len() - i,
        {
            extension_[i] = upper_byte(extension[i]);
            i = i + 1;
        }
        item.name = name_;
        item.extension = extension_;
        match create_type {
            VirtFileType::File => item.attr = ATTR_ARCHIVE,
            VirtFileType::Dir => item.attr = ATTR_DIRECTORY,
        }
        item.set_first_cluster(cluster);
        item
    }

    /// The rotate-and-add checksum of the raw 11-byte name field; long
    /// entries carry this value to tie them to their short entry.
    pub fn gen_check_sum(&self) -> (r: u8)
        ensures
            r == fat_checksum(self.name_bytes()),
    {
        let mut name_: [u8; 11] = [0u8; 11];
        let mut i: usize = 0;
        while i < 8
            invariant
                i <= 8,
                forall|j: int| 0 <= j < i ==> name_[j] == self.name[j],
            decreases 8 - i,
        {
            name_[i] = self.name[i];
            i = i + 1;
        }
        let mut i: usize = 0;
        while i < 3
            invariant
                i <= 3,
                forall|j: int| 0 <= j < 8 ==> name_[j] == self.name[j],
                forall|j: int| 0 <= j < i ==> name_[8 + j] == self.extension[j],
            decreases 3 - i,
        {
            name_[i + 8] = self.extension[i];
            i = i + 1;
        }
        assert(name_@ =~= self.name_bytes());
        let mut sum: u32 = 0;
        let mut i: usize = 0;
        while i < 11
            invariant
                i <= 11,
                name_@ =~= self.name_bytes(),
                sum == fat_checksum_rec(name_@, i as int),
                sum < 256,
            decreases 11 - i,
        {
            let b = name_[i];
            sum = ((sum % 2) * 128 + sum / 2 + b as u32) % 256;
            proof {
                lemma_checksum_rec_bound(name_@, i + 1);
            }
            i = i + 1;
        }
        sum as u8
    }

    /// The combined 32-bit first cluster number.
    pub fn first_cluster(&self) -> (r: u32)
        ensures
            r == self.spec_first_cluster(),
    {
        (self.fst_clus_hi as u32) * 0x10000 + self.fst_clus_lo as u32
    }

    /// Splits a 32-bit cluster number across the high and low on-disk halves.
    pub fn set_first_cluster(&mut self, cluster: u32)
        ensures
            final(self).fst_clus_hi == cluster / 0x10000,
            final(self).fst_clus_lo == cluster % 0x10000,
            final(self).spec_first_cluster() == cluster,
            *final(self) == (ShortDirEntry {
                fst_clus_hi: final(self).fst_clus_hi,
                fst_clus_lo: final(self).fst_clus_lo,
                ..*old(self)
            }),
    {
        self.fst_clus_hi = (cluster / 0x10000) as u16;
        self.fst_clus_lo = (cluster % 0x10000) as u16;
    }

    /// Whether the record is tombstoned.
    pub fn is_deleted(&self) -> (r: bool)
        ensures
            r == (self.name[0] == DIR_ENTRY_UNUSED),
    {
        self.name[0] == DIR_ENTRY_UNUSED
    }

    /// Whether the record was never used: end of directory.
    pub fn is_empty(&self) -> (r: bool)
        ensures
            r == (self.name[0] == DIR_ENTRY_LAST_AND_UNUSED),
    {
        self.name[0] == DIR_ENTRY_LAST_AND_UNUSED
    }

    /// Logical delete: zero the size and first cluster, then tombstone;
    /// every other field, the dates and times included, stays as it was.
    pub fn delete(&mut self)
        ensures
            final(self).spec_first_cluster() == 0,
            final(self).name@ =~= old(self).name@.update(0, DIR_ENTRY_UNUSED),
            *final(self) == (ShortDirEntry {
                name: final(self).name,
                file_size: 0u32,
                fst_clus_hi: 0u16,
                fst_clus_lo: 0u16,
                ..*old(self)
            }),
    {
        self.file_size = 0;
        self.set_first_cluster(0);
        self.name[0] = DIR_ENTRY_UNUSED;
    }

    pub fn file_size(&self) -> (r: u32)
        ensures
            r == self.file_size,
    {
        self.file_size
    }

    pub fn set_file_size(&mut self, file_size: u32)
        ensures
            *final(self) == (ShortDirEntry { file_size, ..*old(self) }),
    {
        self.file_size = file_size;
    }

    /// Whether the attribute byte marks a directory.
    pub fn is_dir(&self) -> (r: bool)
        ensures
            r == (self.attr == ATTR_DIRECTORY),
    {
        self.attr == ATTR_DIRECTORY
    }

    /// Records the name-case hint in the reserved byte.
    pub fn set_name_case(&mut self, state: u8)
        ensures
            *final(self) == (ShortDirEntry { nt_res: state, ..*old(self) }),
    {
        self.nt_res = state;
    }

    pub fn attr(&self) -> (r: u8)
        ensures
            r == self.attr,
    {
        self.attr
    }

    pub fn set_attr(&mut self, attr: u8)
        ensures
            *final(self) == (ShortDirEntry { attr, ..*old(self) }),
    {
        self.attr = attr;
    }

    /// Whether the slot can hold a new entry: tombstoned, never used, or
    /// carrying the 0x05 alias for a leading tombstone byte.
    pub fn is_free(&self) -> (r: bool)
        ensures
            r == (self.name[0] == DIR_ENTRY_UNUSED || self.name[0] == DIR_ENTRY_LAST_AND_UNUSED
                || self.name[0] == 0x05),
    {
        self.name[0] == DIR_ENTRY_UNUSED || self.name[0] == DIR_ENTRY_LAST_AND_UNUSED
            || self.name[0] == 0x05
    }

    /// The stored name's validity, as `spec_valid_name` states it: a leading
    /// byte below 0x20 is allowed only as the 0x05 alias; every other byte of
    /// name and extension must avoid the control range and the reserved
    /// character set.
    pub open spec fn spec_valid_name(self) -> bool {
        if self.name[0] < 0x20 {
            self.name[0] == 0x05
        } else {
            (forall|i: int| 0 <= i < 8 ==> valid_name_byte(self.name[i])) && (forall|i: int|
                0 <= i < 3 ==> valid_name_byte(self.extension[i]))
        }
    }

    pub fn is_valid_name(&self) -> (r: bool)
        ensures
            r == self.spec_valid_name(),
    {
        if self.name[0] < 0x20 {
            return self.name[0] == 0x05;
        }
        let mut i: usize = 0;
        while i < 8
            invariant
                i <= 8,
                self.name[0] >= 0x20,
                forall|j: int| 0 <= j < i ==> valid_name_byte(self.name[j]),
                forall|j: int| 0 <= j < i && j < 3 ==> valid_name_byte(self.extension[j]),
            decreases 8 - i,
        {
            if i < 3 {
                let b = self.extension[i];
                if b < 0x20 || bad_name_byte(b) {
                    assert(!valid_name_byte(self.extension[i as int]));
                    return false;
                }
            }
            let b = self.name[i];
            if b < 0x20 || bad_name_byte(b) {
                assert(!valid_name_byte(self.name[i as int]));
                return false;
            }
            i = i + 1;
        }
        true
    }

    /// Whether the attribute byte marks an ordinary file (archive, hidden,
    /// system or read-only).
    pub fn is_file(&self) -> (r: bool)
        ensures
            r == (self.attr == ATTR_ARCHIVE || self.attr == ATTR_HIDDEN || self.attr == ATTR_SYSTEM
                || self.attr == ATTR_READ_ONLY),
    {
        self.attr == ATTR_ARCHIVE || self.attr == ATTR_HIDDEN || self.attr == ATTR_SYSTEM
            || self.attr == ATTR_READ_ONLY
    }

    /// Replaces the stored name and extension: both become the upper-cased,
    /// space-padded forms of the arguments, as short names are stored on
    /// disk; nothing else changes.
    pub fn set_name(&mut self, name: &[u8], extension: &[u8])
        requires
            name@.len() <= 8,
            extension@.len() <= 3,
        ensures
            final(self).name@ =~= padded_upper(name@, 8),
            final(self).extension@ =~= padded_upper(extension@, 3),
            *final(self) == (ShortDirEntry {
                name: final(self).name,
                extension: final(self).extension,
                ..*old(self)
            }),
    {
        let mut name_: [u8; 8] = [SPACE; 8];
        let mut extension_: [u8; 3] = [SPACE; 3];
        let mut i: usize = 0;
        while i < name.len()
            invariant
                i <= name@.len() <= 8,
                forall|j: int| 0 <= j < i ==> name_[j] == ascii_upper(name@[j]),
                forall|j: int| i <= j < 8 ==> name_[j] == SPACE,
            decreases name@.len() - i,
        {
            name_[i] = upper_byte(name[i]);
            i = i + 1;
        }
        let mut i: usize = 0;
        while i < extension.len()
            invariant
                i <= extension@.len() <= 3,
                forall|j: int| 0 <= j < i ==> extension_[j] == ascii_upper(extension@[j]),
                forall|j: int| i <= j < 3 ==> extension_[j] == SPACE,
            decreases extension@.len() - i,
        {
            extension_[i] = upper_byte(extension[i]);
            i = i + 1;
        }
        self.name = name_;
        self.extension = extension_;
    }

    /// The name and extension bytes with padding spaces dropped and a dot
    /// between the two parts when an extension is present; also returns how
    /// many bytes are meaningful, the rest of the array staying zero.
    pub fn name_bytes_array_with_dot(&self) -> (r: ([u8; 12], usize))
        ensures
            r.1 == non_space(self.name@).len() + dot_seq(self.extension[0]).len() + non_space(
                self.extension@,
            ).len(),
            r.0@ =~= zero_padded(
                non_space(self.name@) + dot_seq(self.extension[0]) + non_space(self.extension@),
                12,
            ),
    {
        let mut len: usize = 0;
        let mut full_name: [u8; 12] = [0u8; 12];
        let mut i: usize = 0;
        while i < 8
            invariant
                i <= 8,
                len == non_space(self.name@.take(i as int)).len() <= i,
                forall|j: int|
                    0 <= j < len ==> full_name[j] == non_space(self.name@.take(i as int))[j],
                forall|j: int| len <= j < 12 ==> full_name[j] == 0,
            decreases 8 - i,
        {
            proof {
                lemma_non_space_step(self.name@.take(i as int), self.name[i as int]);
                assert(self.name@.take(i + 1) =~= self.name@.take(i as int).push(
                    self.name[i as int],
                ));
            }
            if self.name[i] != SPACE {
                full_name[len] = self.name[i];
                len = len + 1;
            }
            i = i + 1;
        }
        proof {
            assert(self.name@.take(8) =~= self.name@);
        }
        let ghost head = non_space(self.name@) + dot_seq(self.extension[0]);
        if self.extension[0] != SPACE {
            full_name[len] = 0x2E;
            len = len + 1;
        }
        proof {
            assert(forall|j: int| 0 <= j < len ==> full_name[j] == head[j]);
        }
        let mut i: usize = 0;
        while i < 3
            invariant
                i <= 3,
                head == non_space(self.name@) + dot_seq(self.extension[0]),
                head.len() <= 9,
                len == head.len() + non_space(self.extension@.take(i as int)).len(),
                forall|j: int|
                    0 <= j < len ==> full_name[j] == (head + non_space(
                        self.extension@.take(i as int),
                    ))[j],
                forall|j: int| len <= j < 12 ==> full_name[j] == 0,
            decreases 3 - i,
        {
            proof {
                lemma_non_space_step(self.extension@.take(i as int), self.extension[i as int]);
                assert(self.extension@.take(i + 1) =~= self.extension@.take(i as int).push(
                    self.extension[i as int],
                ));
            }
            if self.extension[i] != SPACE {
                full_name[len] = self.extension[i];
                len = len + 1;
            }
            i = i + 1;
        }
        proof {
            assert(self.extension@.take(3) =~= self.extension@);
            assert(full_name@ =~= zero_padded(head + non_space(self.extension@), 12));
        }
        (full_name, len)
    }

    /// The name and extension bytes with padding spaces dropped, packed to
    /// the front of an 11-byte array whose tail stays zero.
    pub fn name_bytes_array(&self) -> (r: [u8; 11])
        ensures
            r@ =~= zero_padded(non_space(self.name@) + non_space(self.extension@), 11),
    {
        let mut full_name: [u8; 11] = [0u8; 11];
        let mut len: usize = 0;
        let mut i: usize = 0;
        while i < 8
            invariant
                i <= 8,
                len == non_space(self.name@.take(i as int)).len() <= i,
                forall|j: int|
                    0 <= j < len ==> full_name[j] == non_space(self.name@.take(i as int))[j],
                forall|j: int| len <= j < 11 ==> full_name[j] == 0,
            decreases 8 - i,
        {
            proof {
                lemma_non_space_step(self.name@.take(i as int), self.name[i as int]);
                assert(self.name@.take(i + 1) =~= self.name@.take(i as int).push(
                    self.name[i as int],
                ));
            }
            if self.name[i] != SPACE {
                full_name[len] = self.name[i];
                len = len + 1;
            }
            i = i + 1;
        }
        proof {
            assert(self.name@.take(8) =~= self.name@);
        }
        let mut i: usize = 0;
        while i < 3
            invariant
                i <= 3,
                len == non_space(self.name@).len() + non_space(
                    self.extension@.take(i as int),
                ).len(),
                non_space(self.name@).len() <= 8,
                forall|j: int|
                    0 <= j < len ==> full_name[j] == (non_space(self.name@) + non_space(
                        self.extension@.take(i as int),
                    ))[j],
                forall|j: int| len <= j < 11 ==> full_name[j] == 0,
            decreases 3 - i,
        {
            proof {
                lemma_non_space_step(self.extension@.take(i as int), self.extension[i as int]);
                assert(self.extension@.take(i + 1) =~= self.extension@.take(i as int).push(
                    self.extension[i as int],
                ));
            }
            if self.extension[i] != SPACE {
                full_name[len] = self.extension[i];
                len = len + 1;
            }
            i = i + 1;
        }
        proof {
            assert(self.extension@.take(3) =~= self.extension@);
            assert(full_name@ =~= zero_padded(
                non_space(self.name@) + non_space(self.extension@),
                11,
            ));
        }
        full_name
    }

    /// Packs the record into its 32-byte little-endian on-disk form.
    pub fn to_bytes_array(&self) -> (r: [u8; 32])
        ensures
            sde_matches_bytes(*self, r@),
    {
        let mut b: [u8; 32] = [0u8; 32];
        let mut i: usize = 0;
        while i < 8
            invariant
                i <= 8,
                forall|j: int| 0 <= j < i ==> b[j] == self.name[j],
            decreases 8 - i,
        {
            b[i] = self.name[i];
            i = i + 1;
        }
        let mut i: usize = 0;
        while i < 3
            invariant
                i <= 3,
                forall|j: int| 0 <= j < 8 ==> b[j] == self.name[j],
                forall|j: int| 0 <= j < i ==> b[8 + j] == self.extension[j],
            decreases 3 - i,
        {
            b[8 + i] = self.extension[i];
            i = i + 1;
        }
        b[11] = self.attr;
        b[12] = self.nt_res;
        b[13] = self.crt_time_tenth;
        b[14] = (self.crt_time % 256) as u8;
        b[15] = (self.crt_time / 256) as u8;
        b[16] = (self.crt_date % 256) as u8;
        b[17] = (self.crt_date / 256) as u8;
        b[18] = (self.lst_acc_date % 256) as u8;
        b[19] = (self.lst_acc_date / 256) as u8;
        b[20] = (self.fst_clus_hi % 256) as u8;
        b[21] = (self.fst_clus_hi / 256) as u8;
        b[22] = (self.wrt_time % 256) as u8;
        b[23] = (self.wrt_time / 256) as u8;
        b[24] = (self.wrt_date % 256) as u8;
        b[25] = (self.wrt_date / 256) as u8;
        b[26] = (self.fst_clus_lo % 256) as u8;
        b[27] = (self.fst_clus_lo / 256) as u8;
        b[28] = (self.file_size % 256) as u8;
        b[29] = ((self.file_size / 256) % 256) as u8;
        b[30] = ((self.file_size / 65536) % 256) as u8;
        b[31] = ((self.file_size / 16777216) % 256) as u8;
        b
    }

    /// Unpacks a record from the first 32 bytes of `buf`.
    pub fn new_from_bytes(buf: &[u8]) -> (r: Self)
        requires
            buf@.len() >= 32,
        ensures
            sde_matches_bytes(r, buf@.subrange(0, 32)),
    {
        let mut name: [u8; 8] = [0u8; 8];
        let mut extension: [u8; 3] = [0u8; 3];
        let mut i: usize = 0;
        while i < 8
            invariant
                i <= 8,
                buf@.len() >= 32,
                forall|j: int| 0 <= j < i ==> name[j] == buf@[j],
            decreases 8 - i,
        {
            name[i] = buf[i];
            i = i + 1;
        }
        let mut i: usize = 0;
        while i < 3
            invariant
                i <= 3,
                buf@.len() >= 32,
                forall|j: int| 0 <= j < i ==> extension[j] == buf@[8 + j],
            decreases 3 - i,
        {
            extension[i] = buf[8 + i];
            i = i + 1;
        }
        let r = Self {
            name,
            extension,
            attr: buf[11],
            nt_res: buf[12],
            crt_time_tenth: buf[13],
            crt_time: read_u16_le(buf, 14),
            crt_date: read_u16_le(buf, 16),
            lst_acc_date: read_u16_le(buf, 18),
            fst_clus_hi: read_u16_le(buf, 20),
            wrt_time: read_u16_le(buf, 22),
            wrt_date: read_u16_le(buf, 24),
            fst_clus_lo: read_u16_le(buf, 26),
            file_size: read_u32_le(buf, 28),
        };
        r
    }

    pub fn set_create_time(&mut self, time: u16)
        ensures
            *final(self) == (ShortDirEntry { crt_time: time, ..*old(self) }),
    {
        self.crt_time = time;
    }

    pub fn set_create_date(&mut self, date: u16)
        ensures
            *final(self) == (ShortDirEntry { crt_date: date, ..*old(self) }),
    {
        self.crt_date = date;
    }

    pub fn set_last_access_date(&mut self, date: u16)
        ensures
            *final(self) == (ShortDirEntry { lst_acc_date: date, ..*old(self) }),
    {
        self.lst_acc_date = date;
    }

    pub fn set_last_write_time(&mut self, time: u16)
        ensures
            *final(self) == (ShortDirEntry { wrt_time: time, ..*old(self) }),
    {
        self.wrt_time = time;
    }

    pub fn set_last_write_date(&mut self, date: u16)
        ensures
            *final(self) == (ShortDirEntry { wrt_date: date, ..*old(self) }),
    {
        self.wrt_date = date;
    }
}

/// Whether `b` is one of the reserved characters a short name may not hold.
fn bad_name_byte(b: u8) -> (r: bool)
    ensures
        r == (b == 0x22 || b == 0x2A || b == 0x2E || b == 0x2F || b == 0x3A || b == 0x3C || b
            == 0x3E || b == 0x3F || b == 0x5B || b == 0x5C || b == 0x5D || b == 0x7C),
{
    b == 0x22 || b == 0x2A || b == 0x2E || b == 0x2F || b == 0x3A || b == 0x3C || b == 0x3E || b
        == 0x3F || b == 0x5B || b == 0x5C || b == 0x5D || b == 0x7C
}

/// ASCII upper-casing of one byte.
pub fn upper_byte(b: u8) -> (r: u8)
    ensures
        r == ascii_upper(b),
{
    if 0x61 <= b && b <= 0x7A {
        b - 0x20
    } else {
        b
    }
}

/// ASCII lower-casing of one byte.
pub fn lower_byte(b: u8) -> (r: u8)
    ensures
        r == ascii_lower(b),
{
    if 0x41 <= b && b <= 0x5A {
        b + 0x20
    } else {
        b
    }
}

/// Reads a little-endian `u16` at `at`.
pub fn read_u16_le(buf: &[u8], at: usize) -> (r: u16)
    requires
        at + 2 <= buf@.len(),
    ensures
        u16_lo(r) == buf@[at as int],
        u16_hi(r) == buf@[at as int + 1],
{
    let lo = buf[at];
    let hi = buf[at + 1];
    let r = lo as u16 + hi as u16 * 256;
    proof {
        lemma_le16(lo, hi);
    }
    r
}

/// Reads a little-endian `u32` at `at`.
pub fn read_u32_le(buf: &[u8], at: usize) -> (r: u32)
    requires
        at + 4 <= buf@.len(),
    ensures
        u32_byte(r, 0) == buf@[at as int],
        u32_byte(r, 1) == buf@[at as int + 1],
        u32_byte(r, 2) == buf@[at as int + 2],
        u32_byte(r, 3) == buf@[at as int + 3],
{
    let b0 = buf[at];
    let b1 = buf[at + 1];
    let b2 = buf[at + 2];
    let b3 = buf[at + 3];
    let r = b0 as u32 + b1 as u32 * 256 + b2 as u32 * 65536 + b3 as u32 * 16777216;
    proof {
        lemma_le32(b0, b1, b2, b3);
    }
    r
}

proof fn lemma_le16(lo: u8, hi: u8)
    ensures
        u16_lo((lo + hi * 256) as u16) == lo,
        u16_hi((lo + hi * 256) as u16) == hi,
{
    assert((lo + hi * 256) % 256 == lo as int && (lo + hi * 256) / 256 == hi as int)
        by (nonlinear_arith)
        requires
            lo < 256,
            hi < 256,
    ;
}

proof fn lemma_le32(b0: u8, b1: u8, b2: u8, b3: u8)
    ensures
        u32_byte((b0 + b1 * 256 + b2 * 65536 + b3 * 16777216) as u32, 0) == b0,
        u32_byte((b0 + b1 * 256 + b2 * 65536 + b3 * 16777216) as u32, 1) == b1,
        u32_byte((b0 + b1 * 256 + b2 * 65536 + b3 * 16777216) as u32, 2) == b2,
        u32_byte((b0 + b1 * 256 + b2 * 65536 + b3 * 16777216) as u32, 3) == b3,
{
    let x = b0 + b1 * 256 + b2 * 65536 + b3 * 16777216;
    assert(x % 256 == b0 as int && (x / 256) % 256 == b1 as int && (x / 65536) % 256 == b2 as int
        && (x / 16777216) % 256 == b3 as int) by (nonlinear_arith)
        requires
            x == b0 + b1 * 256 + b2 * 65536 + b3 * 16777216,
            b0 < 256,
            b1 < 256,
            b2 < 256,
            b3 < 256,
    ;
}

/// A `u32` is the little-endian weighting of its four bytes.
pub proof fn lemma_u32_le_value(x: u32)
    ensures
        x == u32_byte(x, 0) + 256 * u32_byte(x, 1) + 65536 * u32_byte(x, 2) + 16777216 * u32_byte(
            x,
            3,
        ),
{
    assert(x == x % 256 + 256 * ((x / 256) % 256) + 65536 * ((x / 65536) % 256) + 16777216 * ((x
        / 16777216) % 256)) by (bit_vector);
}

/// The 32-byte record pins the entry: two entries matching the same bytes
/// are equal.
pub proof fn lemma_sde_bytes_injective(e1: ShortDirEntry, e2: ShortDirEntry, b: Seq<u8>)
    requires
        sde_matches_bytes(e1, b),
        sde_matches_bytes(e2, b),
    ensures
        e1 == e2,
{
    assert forall|i: int| 0 <= i < 8 implies e1.name[i] == e2.name[i] by {
        assert(b[i] == e1.name[i] && b[i] == e2.name[i]);
    }
    assert forall|i: int| 0 <= i < 3 implies e1.extension[i] == e2.extension[i] by {
        assert(b[8 + i] == e1.extension[i] && b[8 + i] == e2.extension[i]);
    }
    assert(e1.name =~= e2.name);
    assert(e1.extension =~= e2.extension);
    lemma_u16_from_bytes(e1.crt_time, e2.crt_time);
    lemma_u16_from_bytes(e1.crt_date, e2.crt_date);
    lemma_u16_from_bytes(e1.lst_acc_date, e2.lst_acc_date);
    lemma_u16_from_bytes(e1.fst_clus_hi, e2.fst_clus_hi);
    lemma_u16_from_bytes(e1.wrt_time, e2.wrt_time);
    lemma_u16_from_bytes(e1.wrt_date, e2.wrt_date);
    lemma_u16_from_bytes(e1.fst_clus_lo, e2.fst_clus_lo);
    lemma_u32_from_bytes(e1.file_size, e2.file_size);
    assert(e1 =~= e2);
}

/// The entry pins its 32-byte record: one entry matches only one byte string.
pub proof fn lemma_sde_bytes_unique(e: ShortDirEntry, b1: Seq<u8>, b2: Seq<u8>)
    requires
        sde_matches_bytes(e, b1),
        sde_matches_bytes(e, b2),
    ensures
        b1 =~= b2,
{
    assert forall|i: int| 0 <= i < 32 implies b1[i] == b2[i] by {
        if i < 8 {
            assert(b1[i] == e.name[i] && b2[i] == e.name[i]);
        } else if i < 11 {
            assert(b1[i] == e.extension[i - 8] && b2[i] == e.extension[i - 8]);
        }
    }
}

proof fn lemma_u16_from_bytes(x: u16, y: u16)
    requires
        u16_lo(x) == u16_lo(y),
        u16_hi(x) == u16_hi(y),
    ensures
        x == y,
{
    assert(x == (x % 256) + (x / 256) * 256 && y == (y % 256) + (y / 256) * 256);
}

/// The bytes of `s` up to, and not including, the first space.
pub open spec fn space_prefix(s: Seq<u8>) -> Seq<u8>
    decreases s.len(),
{
    if s.len() == 0 || s[0] == SPACE {
        Seq::empty()
    } else {
        seq![s[0]] + space_prefix(s.drop_first())
    }
}

/// The units of `s` up to, and not including, the first zero unit.
pub open spec fn zero_prefix(s: Seq<u16>) -> Seq<u16>
    decreases s.len(),
{
    if s.len() == 0 || s[0] == 0 {
        Seq::empty()
    } else {
        seq![s[0]] + zero_prefix(s.drop_first())
    }
}

/// A byte sequence read as characters, one character per byte.
pub open spec fn ascii_chars(s: Seq<u8>) -> Seq<char> {
    Seq::new(s.len(), |i: int| s[i] as char)
}

/// ASCII lower-casing of one character.
pub open spec fn lower_char(c: char) -> char {
    if 0x41 <= (c as u32) <= 0x5A {
        (((c as u32) + 0x20) as u32) as char
    } else {
        c
    }
}

/// If the first `k` elements differ from the stop value and element `k` is
/// the stop (or the end), the prefix before the stop is exactly `take(k)`.
pub proof fn lemma_space_prefix_take(s: Seq<u8>, k: int)
    requires
        0 <= k <= s.len(),
        forall|j: int| 0 <= j < k ==> s[j] != SPACE,
        k == s.len() || s[k] == SPACE,
    ensures
        space_prefix(s) =~= s.take(k),
    decreases s.len(),
{
    if s.len() == 0 || s[0] == SPACE {
    } else {
        lemma_space_prefix_take(s.drop_first(), k - 1);
        assert(space_prefix(s) =~= seq![s[0]] + s.drop_first().take(k - 1));
    }
}

pub proof fn lemma_zero_prefix_take(s: Seq<u16>, k: int)
    requires
        0 <= k <= s.len(),
        forall|j: int| 0 <= j < k ==> s[j] != 0,
        k == s.len() || s[k] == 0,
    ensures
        zero_prefix(s) =~= s.take(k),
    decreases s.len(),
{
    if s.len() == 0 || s[0] == 0 {
    } else {
        lemma_zero_prefix_take(s.drop_first(), k - 1);
        assert(zero_prefix(s) =~= seq![s[0]] + s.drop_first().take(k - 1));
    }
}

impl ShortDirEntry {
    /// The displayed name: the name bytes before the first space, then,
    /// when the extension is non-empty, a dot and the extension bytes
    /// before the first space.
    pub open spec fn spec_name(self) -> Seq<char> {
        if space_prefix(self.extension@).len() != 0 {
            ascii_chars(space_prefix(self.name@)) + seq!['.'] + ascii_chars(
                space_prefix(self.extension@),
            )
        } else {
            ascii_chars(space_prefix(self.name@))
        }
    }

    /// `"NAME"` or `"NAME.EXT"`, reading the stored bytes as characters.
    pub fn name(&self) -> (r: String)
        ensures
            r@ =~= self.spec_name(),
    {
        self.get_name_uppercase()
    }

    /// Same as `name`: the stored bytes are already in the case written to
    /// disk, which the constructor made upper.
    pub fn get_name_uppercase(&self) -> (r: String)
        ensures
            r@ =~= self.spec_name(),
    {
        let mut name = String::new();
        let mut i: usize = 0;
        let mut stopped: bool = false;
        while i < 8
            invariant
                i <= 8,
                !stopped ==> forall|j: int| 0 <= j < i ==> self.name[j] != SPACE,
                !stopped ==> name@ =~= ascii_chars(self.name@.take(i as int)),
                stopped ==> name@ =~= ascii_chars(space_prefix(self.name@)),
            decreases 8 - i,
        {
            if !stopped {
                if self.name[i] == SPACE {
                    proof {
                        lemma_space_prefix_take(self.name@, i as int);
                    }
                    stopped = true;
                } else {
                    push_char(&mut name, self.name[i] as char);
                    assert(name@ =~= ascii_chars(self.name@.take(i + 1)));
                }
            }
            i = i + 1;
        }
        proof {
            if !stopped {
                lemma_space_prefix_take(self.name@, 8);
                assert(self.name@.take(8) =~= self.name@);
            }
        }
        assert(name@ =~= ascii_chars(space_prefix(self.name@)));
        let mut i: usize = 0;
        let mut stopped: bool = false;
        while i < 3
            invariant
                i <= 3,
                !stopped ==> forall|j: int| 0 <= j < i ==> self.extension[j] != SPACE,
                !stopped && i == 0 ==> name@ =~= ascii_chars(space_prefix(self.name@)),
                !stopped && i > 0 ==> name@ =~= ascii_chars(space_prefix(self.name@))
                    + seq!['.'] + ascii_chars(self.extension@.take(i as int)),
                stopped ==> name@ =~= self.spec_name(),
            decreases 3 - i,
        {
            if !stopped {
                if self.extension[i] == SPACE {
                    proof {
                        lemma_space_prefix_take(self.extension@, i as int);
                        if i == 0 {
                            assert(space_prefix(self.extension@).len() == 0);
                        }
                    }
                    stopped = true;
                } else {
                    if i == 0 {
                        push_char(&mut name, '.');
                        assert(name@ =~= ascii_chars(space_prefix(self.name@)) + seq!['.']
                            + ascii_chars(self.extension@.take(0)));
                    }
                    push_char(&mut name, self.extension[i] as char);
                    assert(name@ =~= ascii_chars(space_prefix(self.name@)) + seq!['.']
                        + ascii_chars(self.extension@.take(i + 1)));
                }
            }
            i = i + 1;
        }
        proof {
            if !stopped {
                lemma_space_prefix_take(self.extension@, 3);
                assert(self.extension@.take(3) =~= self.extension@);
            }
        }
        name
    }

    /// The displayed name with ASCII letters lowered.
    pub fn get_name_lowercase(&self) -> (r: String)
        ensures
            r@ =~= self.spec_name().map_values(|c: char| lower_char(c)),
    {
        let ghost goal = self.spec_name().map_values(|c: char| lower_char(c));
        let mut name = String::new();
        let mut i: usize = 0;
        let mut stopped: bool = false;
        while i < 8
            invariant
                i <= 8,
                !stopped ==> forall|j: int| 0 <= j < i ==> self.name[j] != SPACE,
                !stopped ==> name@ =~= ascii_chars(self.name@.take(i as int)).map_values(
                    |c: char| lower_char(c),
                ),
                stopped ==> name@ =~= ascii_chars(space_prefix(self.name@)).map_values(
                    |c: char| lower_char(c),
                ),
            decreases 8 - i,
        {
            if !stopped {
                if self.name[i] == SPACE {
                    proof {
                        lemma_space_prefix_take(self.name@, i as int);
                    }
                    stopped = true;
                } else {
                    let b = self.name[i];
                    proof {
                        lemma_lower_byte_char(b);
                    }
                    push_char(&mut name, lower_byte(b) as char);
                    assert(name@ =~= ascii_chars(self.name@.take(i + 1)).map_values(
                        |c: char| lower_char(c),
                    ));
                }
            }
            i = i + 1;
        }
        proof {
            if !stopped {
                lemma_space_prefix_take(self.name@, 8);
                assert(self.name@.take(8) =~= self.name@);
            }
        }
        let ghost lowname = ascii_chars(space_prefix(self.name@)).map_values(
            |c: char| lower_char(c),
        );
        assert(name@ =~= lowname);
        let mut i: usize = 0;
        let mut stopped: bool = false;
        while i < 3
            invariant
                i <= 3,
                name@.len() >= 0,
                !stopped ==> forall|j: int| 0 <= j < i ==> self.extension[j] != SPACE,
                !stopped && i == 0 ==> name@ =~= lowname,
                !stopped && i > 0 ==> name@ =~= lowname + seq!['.'] + ascii_chars(
                    self.extension@.take(i as int),
                ).map_values(|c: char| lower_char(c)),
                stopped ==> name@ =~= goal,
                lowname =~= ascii_chars(space_prefix(self.name@)).map_values(
                    |c: char| lower_char(c),
                ),
                goal =~= self.spec_name().map_values(|c: char| lower_char(c)),
            decreases 3 - i,
        {
            if !stopped {
                if self.extension[i] == SPACE {
                    proof {
                        lemma_space_prefix_take(self.extension@, i as int);
                        if i == 0 {
                            assert(space_prefix(self.extension@).len() == 0);
                            assert(name@ =~= goal);
                        } else {
                            assert(lower_char('.') == '.');
                            assert(name@ =~= goal);
                        }
                    }
                    stopped = true;
                } else {
                    if i == 0 {
                        assert(lower_char('.') == '.');
                        push_char(&mut name, '.');
                        assert(name@ =~= lowname + seq!['.'] + ascii_chars(
                            self.extension@.take(0),
                        ).map_values(|c: char| lower_char(c)));
                    }
                    let b = self.extension[i];
                    proof {
                        lemma_lower_byte_char(b);
                    }
                    push_char(&mut name, lower_byte(b) as char);
                    assert(name@ =~= lowname + seq!['.'] + ascii_chars(
                        self.extension@.take(i + 1),
                    ).map_values(|c: char| lower_char(c)));
                }
            }
            i = i + 1;
        }
        proof {
            if !stopped {
                lemma_space_prefix_take(self.extension@, 3);
                assert(self.extension@.take(3) =~= self.extension@);
                if space_prefix(self.extension@).len() == 0 {
                    assert(name@ =~= goal);
                } else {
                    assert(lower_char('.') == '.');
                    assert(name@ =~= goal);
                }
            }
        }
        name
    }
}

/// Lowering a byte and reading it as a character agrees with reading it as
/// a character and lowering that.
proof fn lemma_lower_byte_char(b: u8)
    ensures
        (ascii_lower(b) as char) == lower_char(b as char),
{
    assert((b as char) as u32 == b as u32);
    assert((ascii_lower(b) as char) as u32 == ascii_lower(b) as u32);
    char_u32_cast(ascii_lower(b) as char, ascii_lower(b) as u32);
}

proof fn lemma_u32_from_bytes(x: u32, y: u32)
    requires
        u32_byte(x, 0) == u32_byte(y, 0),
        u32_byte(x, 1) == u32_byte(y, 1),
        u32_byte(x, 2) == u32_byte(y, 2),
        u32_byte(x, 3) == u32_byte(y, 3),
    ensures
        x == y,
{
    assert(x == x % 256 + ((x / 256) % 256) * 256 + ((x / 65536) % 256) * 65536 + ((x / 16777216)
        % 256) * 16777216) by (bit_vector);
    assert(y == y % 256 + ((y / 256) % 256) * 256 + ((y / 65536) % 256) * 65536 + ((y / 16777216)
        % 256) * 16777216) by (bit_vector);
}

/// FAT 32-byte long directory entry: one fragment of up to 13 UTF-16 code
/// units of a long file name, tied to its short entry by a checksum.
#[verifier::ext_equal]
#[derive(Clone, Copy, Debug)]
pub struct LongDirEntry {
    /// Sequence order: low 6 bits index the fragment, bit 0x40 marks the
    /// last entry of the set; 0xE5 tombstones the record.
    pub ord: u8,
    /// Characters 1-5.
    pub name1: [u16; 5],
    /// Always the long-name attribute value.
    pub attr: u8,
    /// Always zero: sub-component of a long name.
    pub ldir_type: u8,
    /// Checksum of the paired short entry's raw 11-byte name field.
    pub chk_sum: u8,
    /// Characters 6-11.
    pub name2: [u16; 6],
    /// Unused first-cluster field, always zero.
    pub fst_clus_lo: u16,
    /// Characters 12-13.
    pub name3: [u16; 2],
}

/// The 13 code units a long name fragment holds: `units` zero-terminated
/// inside the budget and padded with 0xFFFF.
pub open spec fn padded_units(units: Seq<u16>) -> Seq<u16> {
    Seq::new(13, |i: int|
        if i < units.len() {
            units[i]
        } else if i == units.len() {
            0u16
        } else {
            0xFFFFu16
        })
}

/// Pointwise relation between a long entry and its 32-byte on-disk record.
pub open spec fn lde_matches_bytes(e: LongDirEntry, b: Seq<u8>) -> bool {
    &&& b.len() == 32
    &&& b[0] == e.ord
    &&& forall|i: int| 0 <= i < 5 ==> b[1 + 2 * i] == u16_lo(e.name1[i]) && b[2 + 2 * i]
        == u16_hi(e.name1[i])
    &&& b[11] == e.attr
    &&& b[12] == e.ldir_type
    &&& b[13] == e.chk_sum
    &&& forall|i: int| 0 <= i < 6 ==> b[14 + 2 * i] == u16_lo(e.name2[i]) && b[15 + 2 * i]
        == u16_hi(e.name2[i])
    &&& b[26] == u16_lo(e.fst_clus_lo)
    &&& b[27] == u16_hi(e.fst_clus_lo)
    &&& forall|i: int| 0 <= i < 2 ==> b[28 + 2 * i] == u16_lo(e.name3[i]) && b[29 + 2 * i]
        == u16_hi(e.name3[i])
}

impl LongDirEntry {
    /// The 13 stored code units in order.
    pub open spec fn name_units(self) -> Seq<u16> {
        self.name1@ + self.name2@ + self.name3@
    }

    /// The stored fragment decoded: units before the first zero, read as
    /// UTF-16 with lossy surrogate handling.
    pub open spec fn spec_name(self) -> Seq<char> {
        crate::utf16::utf16_decode_lossy(zero_prefix(self.name_units()))
    }

    /// An all-zero record carrying the long-name attribute.
    pub fn empty() -> (r: Self)
        ensures
            r.ord == 0 && r.chk_sum == 0 && r.ldir_type == 0 && r.fst_clus_lo == 0,
            r.attr == ATTR_LONG_NAME,
            r.name_units() =~= Seq::new(13, |i: int| 0u16),
    {
        let r = Self {
            ord: 0,
            name1: [0u16; 5],
            attr: ATTR_LONG_NAME,
            ldir_type: 0,
            chk_sum: 0,
            name2: [0u16; 6],
            fst_clus_lo: 0,
            name3: [0u16; 2],
        };
        assert(r.name_units() =~= Seq::new(13, |i: int| 0u16));
        r
    }

    /// Encodes up to 13 UTF-16 code units of `name_str` into the three
    /// split sub-fields, zero-terminating inside the budget and padding
    /// with 0xFFFF; `order` carries the continuation index and end marker,
    /// `check_sum` the paired short entry's checksum.
    pub fn new(order: u8, check_sum: u8, name_str: &str) -> (r: Self)
        requires
            crate::utf16::utf16_encode(name_str@).len() <= 13,
        ensures
            r.ord == order,
            r.chk_sum == check_sum,
            r.attr == ATTR_LONG_NAME,
            r.ldir_type == 0,
            r.fst_clus_lo == 0,
            r.name_units() =~= padded_units(crate::utf16::utf16_encode(name_str@)),
    {
        let units = crate::utf16::encode_utf16_vec(name_str);
        let ghost u = crate::utf16::utf16_encode(name_str@);
        let mut all: [u16; 13] = [0xFFFFu16; 13];
        let n = units.len();
        let mut i: usize = 0;
        while i < n
            invariant
                n == u.len() <= 13,
                units@ == u,
                i <= n,
                forall|j: int| 0 <= j < i ==> all[j] == u[j],
                forall|j: int| i <= j < 13 ==> all[j] == 0xFFFFu16,
            decreases n - i,
        {
            all[i] = units[i];
            i = i + 1;
        }
        if n < 13 {
            all[n] = 0;
        }
        assert(all@ =~= padded_units(u));
        let mut name1: [u16; 5] = [0u16; 5];
        let mut name2: [u16; 6] = [0u16; 6];
        let mut name3: [u16; 2] = [0u16; 2];
        let mut i: usize = 0;
        while i < 5
            invariant
                i <= 5,
                all@ =~= padded_units(u),
                forall|j: int| 0 <= j < i ==> name1[j] == all[j],
            decreases 5 - i,
        {
            name1[i] = all[i];
            i = i + 1;
        }
        let mut i: usize = 0;
        while i < 6
            invariant
                i <= 6,
                all@ =~= padded_units(u),
                forall|j: int| 0 <= j < 5 ==> name1[j] == all[j],
                forall|j: int| 0 <= j < i ==> name2[j] == all[5 + j],
            decreases 6 - i,
        {
            name2[i] = all[5 + i];
            i = i + 1;
        }
        let mut i: usize = 0;
        while i < 2
            invariant
                i <= 2,
                all@ =~= padded_units(u),
                forall|j: int| 0 <= j < 5 ==> name1[j] == all[j],
                forall|j: int| 0 <= j < 6 ==> name2[j] == all[5 + j],
                forall|j: int| 0 <= j < i ==> name3[j] == all[11 + j],
            decreases 2 - i,
        {
            name3[i] = all[11 + i];
            i = i + 1;
        }
        let r = Self {
            ord: order,
            name1,
            attr: ATTR_LONG_NAME,
            ldir_type: 0,
            chk_sum: check_sum,
            name2,
            fst_clus_lo: 0,
            name3,
        };
        assert(r.name_units() =~= all@);
        r
    }

    /// Decodes the stored fragment: concatenates the three sub-fields,
    /// truncates at the first zero unit, and reads the rest as UTF-16,
    /// replacing unpaired surrogates.
    pub fn name(&self) -> (r: String)
        ensures
            r@ == self.spec_name(),
    {
        let units = self.name_utf16();
        let ghost all = self.name_units();
        let mut taken: Vec<u16> = Vec::new();
        let mut i: usize = 0;
        let mut stopped: bool = false;
        while i < 13
            invariant
                i <= 13,
                units@ =~= all,
                all.len() == 13,
                !stopped ==> forall|j: int| 0 <= j < i ==> all[j] != 0,
                !stopped ==> taken@ =~= all.take(i as int),
                stopped ==> taken@ =~= zero_prefix(all),
            decreases 13 - i,
        {
            if !stopped {
                if units[i] == 0 {
                    proof {
                        lemma_zero_prefix_take(all, i as int);
                    }
                    stopped = true;
                } else {
                    taken.push(units[i]);
                    assert(taken@ =~= all.take(i + 1));
                }
            }
            i = i + 1;
        }
        proof {
            if !stopped {
                lemma_zero_prefix_take(all, 13);
                assert(all.take(13) =~= all);
            }
        }
        crate::utf16::decode_utf16_lossy(taken.as_slice())
    }

    /// The three sub-fields concatenated, zero and padding units included.
    pub fn name_utf16(&self) -> (r: [u16; 13])
        ensures
            r@ =~= self.name_units(),
    {
        let mut all: [u16; 13] = [0u16; 13];
        let mut i: usize = 0;
        while i < 5
            invariant
                i <= 5,
                forall|j: int| 0 <= j < i ==> all[j] == self.name1[j],
            decreases 5 - i,
        {
            all[i] = self.name1[i];
            i = i + 1;
        }
        let mut i: usize = 0;
        while i < 6
            invariant
                i <= 6,
                forall|j: int| 0 <= j < 5 ==> all[j] == self.name1[j],
                forall|j: int| 0 <= j < i ==> all[5 + j] == self.name2[j],
            decreases 6 - i,
        {
            all[5 + i] = self.name2[i];
            i = i + 1;
        }
        let mut i: usize = 0;
        while i < 2
            invariant
                i <= 2,
                forall|j: int| 0 <= j < 5 ==> all[j] == self.name1[j],
                forall|j: int| 0 <= j < 6 ==> all[5 + j] == self.name2[j],
                forall|j: int| 0 <= j < i ==> all[11 + j] == self.name3[j],
            decreases 2 - i,
        {
            all[11 + i] = self.name3[i];
            i = i + 1;
        }
        all
    }

    pub fn attr(&self) -> (r: u8)
        ensures
            r == self.attr,
    {
        self.attr
    }

    pub fn order(&self) -> (r: u8)
        ensures
            r == self.ord,
    {
        self.ord
    }

    pub fn check_sum(&self) -> (r: u8)
        ensures
            r == self.chk_sum,
    {
        self.chk_sum
    }

    /// Whether the record is tombstoned.
    pub fn is_deleted(&self) -> (r: bool)
        ensures
            r == (self.ord == DIR_ENTRY_UNUSED),
    {
        self.ord == DIR_ENTRY_UNUSED
    }

    /// Tombstones the record.
    pub fn delete(&mut self)
        ensures
            *final(self) == (LongDirEntry { ord: DIR_ENTRY_UNUSED, ..*old(self) }),
    {
        self.ord = DIR_ENTRY_UNUSED;
    }

    /// Whether the slot can hold a new entry.
    pub fn is_free(&self) -> (r: bool)
        ensures
            r == (self.ord == DIR_ENTRY_LAST_AND_UNUSED || self.ord == DIR_ENTRY_UNUSED),
    {
        self.ord == DIR_ENTRY_LAST_AND_UNUSED || self.ord == DIR_ENTRY_UNUSED
    }

    /// Whether the record was never used: end of directory.
    pub fn is_empty(&self) -> (r: bool)
        ensures
            r == (self.ord == DIR_ENTRY_LAST_AND_UNUSED),
    {
        self.ord == DIR_ENTRY_LAST_AND_UNUSED
    }

    /// Whether the record is in use (not tombstoned).
    pub fn is_valid(&self) -> (r: bool)
        ensures
            r == (self.ord != DIR_ENTRY_UNUSED),
    {
        self.ord != DIR_ENTRY_UNUSED
    }

    /// The continuation index inside the long-entry set: the order byte
    /// with the end marker masked out.
    pub fn lde_order(&self) -> (r: usize)
        ensures
            r == self.ord % 64,
    {
        let o = self.ord;
        let r = o & (LAST_LONG_ENTRY - 1);
        assert(r == o % 64) by (bit_vector)
            requires
                r == o & 0x3F,
        ;
        r as usize
    }

    /// Whether the order byte carries the last-entry marker.
    pub fn is_lde_end(&self) -> (r: bool)
        ensures
            r == (self.ord & LAST_LONG_ENTRY == LAST_LONG_ENTRY),
    {
        (self.ord & LAST_LONG_ENTRY) == LAST_LONG_ENTRY
    }

    /// Packs the record into its 32-byte little-endian on-disk form.
    pub fn to_bytes_array(&self) -> (r: [u8; 32])
        ensures
            lde_matches_bytes(*self, r@),
    {
        let mut b: [u8; 32] = [0u8; 32];
        b[0] = self.ord;
        let mut i: usize = 0;
        while i < 5
            invariant
                i <= 5,
                b[0] == self.ord,
                forall|j: int| 0 <= j < i ==> b[1 + 2 * j] == u16_lo(self.name1[j]) && b[2 + 2 * j]
                    == u16_hi(self.name1[j]),
            decreases 5 - i,
        {
            b[1 + 2 * i] = (self.name1[i] % 256) as u8;
            b[2 + 2 * i] = (self.name1[i] / 256) as u8;
            i = i + 1;
        }
        b[11] = self.attr;
        b[12] = self.ldir_type;
        b[13] = self.chk_sum;
        let mut i: usize = 0;
        while i < 6
            invariant
                i <= 6,
                b[0] == self.ord && b[11] == self.attr && b[12] == self.ldir_type && b[13]
                    == self.chk_sum,
                forall|j: int| 0 <= j < 5 ==> b[1 + 2 * j] == u16_lo(self.name1[j]) && b[2 + 2 * j]
                    == u16_hi(self.name1[j]),
                forall|j: int| 0 <= j < i ==> b[14 + 2 * j] == u16_lo(self.name2[j]) && b[15 + 2
                    * j] == u16_hi(self.name2[j]),
            decreases 6 - i,
        {
            b[14 + 2 * i] = (self.name2[i] % 256) as u8;
            b[15 + 2 * i] = (self.name2[i] / 256) as u8;
            i = i + 1;
        }
        b[26] = (self.fst_clus_lo % 256) as u8;
        b[27] = (self.fst_clus_lo / 256) as u8;
        let mut i: usize = 0;
        while i < 2
            invariant
                i <= 2,
                b[0] == self.ord && b[11] == self.attr && b[12] == self.ldir_type && b[13]
                    == self.chk_sum,
                b[26] == u16_lo(self.fst_clus_lo) && b[27] == u16_hi(self.fst_clus_lo),
                forall|j: int| 0 <= j < 5 ==> b[1 + 2 * j] == u16_lo(self.name1[j]) && b[2 + 2 * j]
                    == u16_hi(self.name1[j]),
                forall|j: int| 0 <= j < 6 ==> b[14 + 2 * j] == u16_lo(self.name2[j]) && b[15 + 2
                    * j] == u16_hi(self.name2[j]),
                forall|j: int| 0 <= j < i ==> b[28 + 2 * j] == u16_lo(self.name3[j]) && b[29 + 2
                    * j] == u16_hi(self.name3[j]),
            decreases 2 - i,
        {
            b[28 + 2 * i] = (self.name3[i] % 256) as u8;
            b[29 + 2 * i] = (self.name3[i] / 256) as u8;
            i = i + 1;
        }
        b
    }

    /// Unpacks a record from the first 32 bytes of `buf`.
    pub fn new_form_bytes(buf: &[u8]) -> (r: Self)
        requires
            buf@.len() >= 32,
        ensures
            lde_matches_bytes(r, buf@.subrange(0, 32)),
    {
        let mut name1: [u16; 5] = [0u16; 5];
        let mut name2: [u16; 6] = [0u16; 6];
        let mut name3: [u16; 2] = [0u16; 2];
        let ghost b = buf@.subrange(0, 32);
        let mut i: usize = 0;
        while i < 5
            invariant
                i <= 5,
                buf@.len() >= 32,
                b =~= buf@.subrange(0, 32),
                forall|j: int| 0 <= j < i ==> u16_lo(name1[j]) == b[1 + 2 * j] && u16_hi(name1[j])
                    == b[2 + 2 * j],
            decreases 5 - i,
        {
            name1[i] = read_u16_le(buf, 1 + 2 * i);
            i = i + 1;
        }
        let mut i: usize = 0;
        while i < 6
            invariant
                i <= 6,
                buf@.len() >= 32,
                b =~= buf@.subrange(0, 32),
                forall|j: int| 0 <= j < 5 ==> u16_lo(name1[j]) == b[1 + 2 * j] && u16_hi(name1[j])
                    == b[2 + 2 * j],
                forall|j: int| 0 <= j < i ==> u16_lo(name2[j]) == b[14 + 2 * j] && u16_hi(name2[j])
                    == b[15 + 2 * j],
            decreases 6 - i,
        {
            name2[i] = read_u16_le(buf, 14 + 2 * i);
            i = i + 1;
        }
        let mut i: usize = 0;
        while i < 2
            invariant
                i <= 2,
                buf@.len() >= 32,
                b =~= buf@.subrange(0, 32),
                forall|j: int| 0 <= j < 5 ==> u16_lo(name1[j]) == b[1 + 2 * j] && u16_hi(name1[j])
                    == b[2 + 2 * j],
                forall|j: int| 0 <= j < 6 ==> u16_lo(name2[j]) == b[14 + 2 * j] && u16_hi(name2[j])
                    == b[15 + 2 * j],
                forall|j: int| 0 <= j < i ==> u16_lo(name3[j]) == b[28 + 2 * j] && u16_hi(name3[j])
                    == b[29 + 2 * j],
            decreases 2 - i,
        {
            name3[i] = read_u16_le(buf, 28 + 2 * i);
            i = i + 1;
        }
        Self {
            ord: buf[0],
            name1,
            attr: buf[11],
            ldir_type: buf[12],
            chk_sum: buf[13],
            name2,
            fst_clus_lo: read_u16_le(buf, 26),
            name3,
        }
    }
}

/// Round trip of one long entry's name fragment: a name of at most 13 code
/// units without the NUL character, stored by the constructor, is read back
/// unchanged by `spec_name`.
pub proof fn lemma_long_name_roundtrip(s: Seq<char>)
    requires
        crate::utf16::utf16_encode(s).len() <= 13,
        forall|i: int| 0 <= i < s.len() ==> s[i] != 0u32 as char,
    ensures
        crate::utf16::utf16_decode_lossy(zero_prefix(padded_units(crate::utf16::utf16_encode(s))))
            =~= s,
{
    let u = crate::utf16::utf16_encode(s);
    let p = padded_units(u);
    crate::utf16::lemma_encode_no_zero(s);
    if u.len() < 13 {
        lemma_zero_prefix_take(p, u.len() as int);
    } else {
        lemma_zero_prefix_take(p, 13);
    }
    assert(p.take(u.len() as int) =~= u);
    crate::utf16::lemma_utf16_roundtrip(s);
}

/// Checksum stability: the checksum is a function of the raw 11-byte name
/// field alone, so two entries whose stored name bytes agree share it; and
/// names equal up to ASCII case store the same bytes, so entries built from
/// them share it too.
pub proof fn lemma_checksum_stability(e1: ShortDirEntry, e2: ShortDirEntry)
    requires
        e1.name_bytes() =~= e2.name_bytes(),
    ensures
        fat_checksum(e1.name_bytes()) == fat_checksum(e2.name_bytes()),
{
}

/// Two names and extensions equal up to ASCII case pad and upper-case to
/// the same stored bytes, hence to the same checksum.
pub proof fn lemma_checksum_ignores_case(n1: Seq<u8>, n2: Seq<u8>, x1: Seq<u8>, x2: Seq<u8>)
    requires
        n1.len() == n2.len(),
        x1.len() == x2.len(),
        forall|i: int| 0 <= i < n1.len() ==> ascii_upper(n1[i]) == ascii_upper(n2[i]),
        forall|i: int| 0 <= i < x1.len() ==> ascii_upper(x1[i]) == ascii_upper(x2[i]),
    ensures
        fat_checksum(padded_upper(n1, 8) + padded_upper(x1, 3)) == fat_checksum(
            padded_upper(n2, 8) + padded_upper(x2, 3),
        ),
{
    assert(padded_upper(n1, 8) =~= padded_upper(n2, 8));
    assert(padded_upper(x1, 3) =~= padded_upper(x2, 3));
}

/// The 32-byte record pins the long entry, as it does the short entry.
pub proof fn lemma_lde_bytes_injective(e1: LongDirEntry, e2: LongDirEntry, b: Seq<u8>)
    requires
        lde_matches_bytes(e1, b),
        lde_matches_bytes(e2, b),
    ensures
        e1 == e2,
{
    assert forall|i: int| 0 <= i < 5 implies e1.name1[i] == e2.name1[i] by {
        lemma_u16_from_bytes(e1.name1[i], e2.name1[i]);
    }
    assert forall|i: int| 0 <= i < 6 implies e1.name2[i] == e2.name2[i] by {
        lemma_u16_from_bytes(e1.name2[i], e2.name2[i]);
    }
    assert forall|i: int| 0 <= i < 2 implies e1.name3[i] == e2.name3[i] by {
        lemma_u16_from_bytes(e1.name3[i], e2.name3[i]);
    }
    lemma_u16_from_bytes(e1.fst_clus_lo, e2.fst_clus_lo);
    assert(e1.name1 =~= e2.name1);
    assert(e1.name2 =~= e2.name2);
    assert(e1.name3 =~= e2.name3);
    assert(e1 =~= e2);
}

} // verus!
