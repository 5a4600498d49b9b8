//! A verified FAT32 filesystem engine.
//!
//! The crate works on a raw disk image: it decodes and encodes the 32-byte
//! on-disk directory-entry records, tracks which clusters belong to which
//! file through the File Allocation Table, caches block-sized reads and
//! writes with reference-counted eviction, and exposes a file/directory
//! handle type on top of those layers.

use vstd::prelude::*;

pub mod cache;
pub mod device;
pub mod entry;
pub mod fat;
pub mod inode;
pub mod mount;
pub mod lru_api;
pub mod volume;
pub mod utf16;
pub mod vf;

verus! {

/// The device's fixed I/O unit, in bytes.
pub const BLOCK_SIZE: usize = 512;

/// Size of one directory entry record, in bytes.
pub const DIRENT_SIZE: usize = 32;

/// Space byte used to pad short names and extensions.
pub const SPACE: u8 = 0x20;

/// `name[0]` value marking a deleted (tombstoned) directory entry.
pub const DIR_ENTRY_UNUSED: u8 = 0xE5;

/// `name[0]` value marking an entry that was never used: end of directory.
pub const DIR_ENTRY_LAST_AND_UNUSED: u8 = 0x00;

/// Bit set in a long entry's order byte on the last entry of its set.
pub const LAST_LONG_ENTRY: u8 = 0x40;

/// How many UTF-16 code units one long directory entry can carry.
pub const LONG_NAME_LEN_CAP: usize = 13;

/// Attribute bit: writes to the file should fail.
pub const ATTR_READ_ONLY: u8 = 0x01;

/// Attribute bit: directory listings should not show this file.
pub const ATTR_HIDDEN: u8 = 0x02;

/// Attribute bit: operating system file.
pub const ATTR_SYSTEM: u8 = 0x04;

/// Attribute bit: volume label entry.
pub const ATTR_VOLUME_ID: u8 = 0x08;

/// Attribute bit: the entry names a directory.
pub const ATTR_DIRECTORY: u8 = 0x10;

/// Attribute bit: archive; set on ordinary files.
pub const ATTR_ARCHIVE: u8 = 0x20;

/// Attribute value marking a long-name continuation entry.
pub const ATTR_LONG_NAME: u8 = 0x0F;

/// FAT link value that terminates a cluster chain.
pub const END_OF_CLUSTER: u32 = 0x0FFF_FFFF;

/// FAT link value of a free (unallocated) cluster.
pub const FREE_CLUSTER: u32 = 0;

/// First-cluster value of a file that has no data clusters yet.
pub const NEW_VIRT_FILE_CLUSTER: u32 = 0;

/// Sentinel cluster id giving the root directory's entry position: the root
/// directory has no on-disk short entry, so this value never names a real
/// cluster.
pub const ROOT_DIR_ENTRY_CLUSTER: u32 = 0xFFFF_FFFF;

/// How many blocks the cache keeps resident before it tries to evict.
pub const BLOCK_CACHE_LIMIT: usize = 64;

} // verus!
