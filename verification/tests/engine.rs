//! Engine behavior on a small in-memory volume: cache eviction safety,
//! cluster-chain consistency, size invariants, and directory listing.

use fat32::cache::BlockCacheManager;
use fat32::device::DiskImage;
use fat32::entry::{LongDirEntry, ShortDirEntry};
use fat32::fat::ClusterChain;
use fat32::mount::MountTable;
use fat32::vf::{root, VirtFile, VirtFileType};
use fat32::volume::{Bpb, FileSystem};
use fat32::{ATTR_ARCHIVE, BLOCK_CACHE_LIMIT, END_OF_CLUSTER};

fn small_bpb() -> Bpb {
    Bpb {
        root_cluster: 2,
        sectors_per_cluster: 1,
        fat1_offset: 512,
        data_offset: 1024,
        n_clusters: 64,
    }
}

fn fresh_fs() -> FileSystem {
    // data region: 62 clusters of 512 bytes after two blocks of metadata.
    FileSystem::create(small_bpb(), 64)
}

/// A file handle whose short entry sits at byte `slot * 32` of the root
/// directory; the entry must already be stored there.
fn handle_at(fs: &mut FileSystem, slot: usize) -> VirtFile {
    let rd = root(fs);
    let pos = rd.dirent_cluster_pos(fs, slot * 32).unwrap();
    let chain = rd.generate_cluster_chain(fs, slot * 32).unwrap();
    VirtFile::new(
        String::from("file"),
        pos,
        Vec::new(),
        chain,
        VirtFileType::File,
    )
}

fn store_entry(fs: &mut FileSystem, slot: usize, e: &ShortDirEntry) {
    let mut rd = root(fs);
    let bytes = e.to_bytes_array();
    assert_eq!(rd.write_at(fs, slot * 32, &bytes), 32);
}

#[test]
fn write_then_read_600_bytes() {
    let mut fs = fresh_fs();
    let e = ShortDirEntry::new(0, b"DATA", b"BIN", VirtFileType::File);
    store_entry(&mut fs, 0, &e);
    let mut f = handle_at(&mut fs, 0);
    assert_eq!(f.cluster_chain.cluster_vec.len(), 0);
    assert_eq!(f.file_size(&mut fs), 0);

    let data: Vec<u8> = (0..600u32).map(|i| (i % 251) as u8).collect();
    let written = f.write_at(&mut fs, 0, &data);
    assert_eq!(written, 600);
    assert_eq!(f.file_size(&mut fs), 600);
    assert_eq!(f.cluster_chain.cluster_vec.len(), 2);

    let mut buf = vec![0u8; 600];
    let read = f.read_at(&mut fs, 0, &mut buf);
    assert_eq!(read, 600);
    assert_eq!(buf, data);
}

#[test]
fn read_stops_at_end_of_chain() {
    let mut fs = fresh_fs();
    let e = ShortDirEntry::new(0, b"SHORT", b"", VirtFileType::File);
    store_entry(&mut fs, 0, &e);
    let mut f = handle_at(&mut fs, 0);
    assert_eq!(f.write_at(&mut fs, 0, b"abc"), 3);
    let mut buf = vec![0u8; 100];
    // one cluster backs the file, so a large read returns the whole cluster
    let read = f.read_at(&mut fs, 0, &mut buf);
    assert_eq!(read, 100.min(512));
    assert_eq!(&buf[..3], b"abc");
    let mut far = vec![0u8; 16];
    assert_eq!(f.read_at(&mut fs, 5000, &mut far), 0);
}

#[test]
fn modify_size_zero_releases_everything() {
    let mut fs = fresh_fs();
    let e = ShortDirEntry::new(0, b"TRUNC", b"", VirtFileType::File);
    store_entry(&mut fs, 0, &e);
    let mut f = handle_at(&mut fs, 0);
    let data = vec![7u8; 1500];
    assert_eq!(f.write_at(&mut fs, 0, &data), 1500);
    assert_eq!(f.cluster_chain.cluster_vec.len(), 3);

    f.modify_size(&mut fs, 0);
    assert_eq!(f.file_size(&mut fs), 0);
    assert_eq!(f.first_cluster(&mut fs), 0);
    assert_eq!(f.cluster_chain.cluster_vec.len(), 0);
}

#[test]
fn grow_then_shrink_restores_cluster_count() {
    let mut fs = fresh_fs();
    let e = ShortDirEntry::new(0, b"WAVE", b"", VirtFileType::File);
    store_entry(&mut fs, 0, &e);
    let mut f = handle_at(&mut fs, 0);
    assert_eq!(f.write_at(&mut fs, 0, &vec![1u8; 700]), 700);
    let before = f.cluster_chain.cluster_vec.len();
    assert_eq!(before, 2);

    f.modify_size(&mut fs, 2100);
    assert_eq!(f.cluster_chain.cluster_vec.len(), 5);
    assert_eq!(f.file_size(&mut fs), 2100);

    f.modify_size(&mut fs, 700);
    assert_eq!(f.cluster_chain.cluster_vec.len(), before);
    assert_eq!(f.file_size(&mut fs), 700);

    let mut buf = vec![0u8; 700];
    assert_eq!(f.read_at(&mut fs, 0, &mut buf), 700);
    assert_eq!(buf, vec![1u8; 700]);
}

#[test]
fn alloc_chain_is_consistent() {
    let mut fs = fresh_fs();
    // the root chain holds exactly the root cluster
    let ids = fs.fat.get_all_cluster_id(2);
    assert_eq!(ids, vec![2]);

    let first = fs
        .fat
        .alloc_cluster_chain(3, 0, &mut fs.cache, &mut fs.device)
        .unwrap();
    let chain = fs.fat.get_all_cluster_id(first);
    assert_eq!(chain.len(), 3);
    assert_eq!(chain[0], first);
    for i in 0..chain.len() {
        for j in 0..i {
            assert_ne!(chain[i], chain[j]);
        }
        assert!(chain[i] >= 2);
    }
    assert_eq!(fs.fat.get_next_cluster(chain[2]), END_OF_CLUSTER);

    // extending the chain keeps the old prefix
    let more = fs
        .fat
        .alloc_cluster_chain(2, chain[2], &mut fs.cache, &mut fs.device)
        .unwrap();
    let longer = fs.fat.get_all_cluster_id(first);
    assert_eq!(longer.len(), 5);
    assert_eq!(&longer[..3], &chain[..]);
    assert_eq!(longer[3], more);

    // freed clusters vanish from the chain but other chains survive
    fs.fat
        .dealloc_cluster(longer[3..].to_vec(), &mut fs.cache, &mut fs.device);
    let again = fs.fat.get_all_cluster_id(2);
    assert_eq!(again, vec![2]);
}

#[test]
fn alloc_refuses_when_pool_too_small() {
    let mut fs = fresh_fs();
    // 62 data clusters, one taken by the root
    let r = fs
        .fat
        .alloc_cluster_chain(62, 0, &mut fs.cache, &mut fs.device);
    assert!(r.is_none());
    let r2 = fs
        .fat
        .alloc_cluster_chain(61, 0, &mut fs.cache, &mut fs.device);
    assert!(r2.is_some());
}

#[test]
fn open_rejects_cyclic_fat() {
    let mut fs = fresh_fs();
    // point the root cluster's link at itself, flush, and remount
    fs.fat
        .set_next_cluster(2, 2, &mut fs.cache, &mut fs.device);
    fs.sync_all();
    let bytes = fs.device.into_bytes();
    let image = DiskImage::from_bytes(bytes);
    assert!(FileSystem::open(image, small_bpb()).is_none());
}

#[test]
fn open_accepts_flushed_volume() {
    let mut fs = fresh_fs();
    let e = ShortDirEntry::new(0, b"KEEP", b"", VirtFileType::File);
    store_entry(&mut fs, 0, &e);
    let mut f = handle_at(&mut fs, 0);
    assert_eq!(f.write_at(&mut fs, 0, b"persist me"), 10);
    fs.sync_all();
    let bytes = fs.device.into_bytes();
    let image = DiskImage::from_bytes(bytes);
    let mut fs2 = FileSystem::open(image, small_bpb()).unwrap();
    let mut f2 = handle_at(&mut fs2, 0);
    let mut buf = vec![0u8; 10];
    assert_eq!(f2.read_at(&mut fs2, 0, &mut buf), 10);
    assert_eq!(&buf, b"persist me");
}

#[test]
fn dir_info_reconstructs_long_name() {
    let mut fs = fresh_fs();
    // "longfilename.txt" spans two long entries (13 + 3 units) before the
    // short alias entry
    let sde = ShortDirEntry::new(0, b"LONGFI~1", b"TXT", VirtFileType::File);
    let chk = sde.gen_check_sum();
    let lde2 = LongDirEntry::new(0x42, chk, "txt");
    let lde1 = LongDirEntry::new(0x01, chk, "longfilename.");
    let mut rd = root(&mut fs);
    assert_eq!(rd.write_at(&mut fs, 0, &lde2.to_bytes_array()), 32);
    assert_eq!(rd.write_at(&mut fs, 32, &lde1.to_bytes_array()), 32);
    assert_eq!(rd.write_at(&mut fs, 64, &sde.to_bytes_array()), 32);

    let (name, next, first, attr) = rd.dir_info(&mut fs, 0).unwrap();
    assert_eq!(name, "longfilename.txt");
    assert_eq!(next, 96);
    assert_eq!(first, 0);
    assert_eq!(attr, ATTR_ARCHIVE as usize);
    assert!(rd.dir_info(&mut fs, 96).is_none());
}

#[test]
fn dir_info_skips_deleted_and_uses_short_name() {
    let mut fs = fresh_fs();
    let mut dead = ShortDirEntry::new(0, b"DEAD", b"", VirtFileType::File);
    dead.delete();
    let live = ShortDirEntry::new(0, b"ALIVE", b"TXT", VirtFileType::File);
    let mut rd = root(&mut fs);
    assert_eq!(rd.write_at(&mut fs, 0, &dead.to_bytes_array()), 32);
    assert_eq!(rd.write_at(&mut fs, 32, &live.to_bytes_array()), 32);
    let (name, next, _, attr) = rd.dir_info(&mut fs, 0).unwrap();
    assert_eq!(name, "alive.txt");
    assert_eq!(next, 64);
    assert_eq!(attr, ATTR_ARCHIVE as usize);
}

#[test]
fn clear_tombstones_and_frees() {
    let mut fs = fresh_fs();
    let e = ShortDirEntry::new(0, b"VICTIM", b"", VirtFileType::File);
    store_entry(&mut fs, 0, &e);
    let mut f = handle_at(&mut fs, 0);
    assert_eq!(f.write_at(&mut fs, 0, &vec![9u8; 1024]), 1024);
    assert_eq!(f.cluster_chain.cluster_vec.len(), 2);
    let released = f.clear(&mut fs);
    assert_eq!(released, 2);
    assert_eq!(f.cluster_chain.cluster_vec.len(), 0);
    let back = f.read_sde(&mut fs);
    assert!(back.is_deleted());
    // the freed clusters are allocatable again
    assert!(fs
        .fat
        .alloc_cluster_chain(61, 0, &mut fs.cache, &mut fs.device)
        .is_some());
}

#[test]
fn stat_reports_dir_size_from_clusters() {
    let mut fs = fresh_fs();
    let rd = root(&mut fs);
    let (size, blk, blocks, is_dir, time) = rd.stat(&mut fs);
    assert_eq!(size, 512);
    assert_eq!(blk, 512);
    assert_eq!(blocks, 1);
    assert!(is_dir);
    assert_eq!(time, 0);
}

#[test]
fn eviction_never_drops_referenced_entries() {
    let mut dev = DiskImage::new(BLOCK_CACHE_LIMIT * 3);
    let mut mgr = BlockCacheManager::new();
    // dirty block 0 and keep its handle checked out
    let pinned = mgr.get_block_cache(0, &mut dev);
    mgr.modify(pinned, 0, &[0xAA, 0xBB]);
    // flood the cache far past its limit
    for b in 1..(BLOCK_CACHE_LIMIT * 2) {
        let h = mgr.get_block_cache(b, &mut dev);
        mgr.release(h);
    }
    // the pinned, dirty entry still holds our bytes
    let bytes = mgr.read(pinned, 0, 2);
    assert_eq!(bytes, vec![0xAA, 0xBB]);
    mgr.release(pinned);
    // after sync_all the device itself holds them
    mgr.sync_all(&mut dev);
    let h2 = mgr.get_block_cache(0, &mut dev);
    assert_eq!(mgr.read(h2, 0, 2), vec![0xAA, 0xBB]);
    mgr.release(h2);
    assert_eq!(&dev.into_bytes()[..2], &[0xAA, 0xBB]);
}

#[test]
fn mount_table_limits_and_matches() {
    let mut t = MountTable::new();
    assert_eq!(
        t.mount("/dev/sd".to_string(), "/mnt".to_string(), "vfat".to_string(), 0),
        0
    );
    // same directory: accepted without a second record
    assert_eq!(
        t.mount("/dev/sd2".to_string(), "/mnt".to_string(), "vfat".to_string(), 0),
        0
    );
    assert_eq!(t.mnt_list.len(), 1);
    for i in 0..15 {
        let dir = format!("/m{}", i);
        assert_eq!(
            t.mount("/dev/x".to_string(), dir, "vfat".to_string(), 0),
            0
        );
    }
    assert_eq!(t.mnt_list.len(), 16);
    assert_eq!(
        t.mount("/dev/y".to_string(), "/full".to_string(), "vfat".to_string(), 0),
        -1
    );
    assert_eq!(t.umount("/mnt".to_string(), 0), 0);
    assert_eq!(t.umount("/nowhere".to_string(), 0), -1);
}

#[test]
fn osinode_read_write_roundtrip() {
    let mut fs = fresh_fs();
    let e = ShortDirEntry::new(0, b"NOTES", b"TXT", VirtFileType::File);
    store_entry(&mut fs, 0, &e);
    let f = handle_at(&mut fs, 0);
    let mut node = fat32::inode::OSInode::new(
        true,
        true,
        f,
        "/".to_string(),
        "notes.txt".to_string(),
    );
    assert!(!node.is_dir());
    assert_eq!(node.name(), "notes.txt");
    let payload = b"hello from the file layer".to_vec();
    assert_eq!(node.write_all(&mut fs, &payload), payload.len());
    assert_eq!(node.file_size(&mut fs), payload.len());
    node.inner.offset = 0;
    let all = node.read_all(&mut fs);
    assert_eq!(&all[..payload.len()], &payload[..]);
    let some = node.read_vec(&mut fs, 6, 4);
    assert_eq!(&some[..4], b"from");
    let released = node.delete(&mut fs);
    assert_eq!(released, 1);
}

#[test]
fn root_handle_shape() {
    let mut fs = fresh_fs();
    let rd = root(&mut fs);
    assert!(rd.is_dir());
    assert!(!rd.is_file());
    assert_eq!(rd.name(), "/");
    assert_eq!(rd.cluster_chain.cluster_vec, vec![2]);
    assert_eq!(rd.first_cluster(&mut fs), 2);
}

#[test]
fn cluster_chain_handle_ops() {
    let mut fs = fresh_fs();
    let mut ch = ClusterChain::new(2);
    ch.generate(&fs.fat);
    assert_eq!(ch.cluster_vec, vec![2]);
    ch.refresh(0);
    assert_eq!(ch.cluster_vec.len(), 0);
    assert_eq!(ch.start_cluster, 0);
    assert_eq!(fs.fat.cluster_chain_len(2), 1);
    assert_eq!(fs.fat.get_cluster_at(2, 0), Some(2));
    assert_eq!(fs.fat.get_cluster_at(2, 1), None);
    let rd = root(&mut fs);
    assert_eq!(rd.dirent_block_pos(&fs, 0), Some((2, 0)));
    assert!(rd.dirent_block_pos(&fs, 4096).is_none());
}

#[test]
fn free_cluster_count_tracks_allocation() {
    let mut fs = fresh_fs();
    // 62 data clusters, the root holds one
    assert_eq!(fs.fat.count_free_clusters(), 61);
    let first = fs
        .fat
        .alloc_cluster_chain(5, 0, &mut fs.cache, &mut fs.device)
        .unwrap();
    assert_eq!(fs.fat.count_free_clusters(), 56);
    let chain = fs.fat.get_all_cluster_id(first);
    fs.fat
        .dealloc_cluster(chain, &mut fs.cache, &mut fs.device);
    assert_eq!(fs.fat.count_free_clusters(), 61);
}

#[test]
fn clear_tombstones_long_entries_too() {
    let mut fs = fresh_fs();
    let sde = ShortDirEntry::new(0, b"LONGFI~1", b"TXT", VirtFileType::File);
    let chk = sde.gen_check_sum();
    let lde2 = LongDirEntry::new(0x42, chk, "txt");
    let lde1 = LongDirEntry::new(0x01, chk, "longfilename.");
    let mut rd = root(&mut fs);
    assert_eq!(rd.write_at(&mut fs, 0, &lde2.to_bytes_array()), 32);
    assert_eq!(rd.write_at(&mut fs, 32, &lde1.to_bytes_array()), 32);
    assert_eq!(rd.write_at(&mut fs, 64, &sde.to_bytes_array()), 32);

    let pos = rd.dirent_cluster_pos(&fs, 64).unwrap();
    let lpos2 = rd.dirent_cluster_pos(&fs, 0).unwrap();
    let lpos1 = rd.dirent_cluster_pos(&fs, 32).unwrap();
    let chain = rd.generate_cluster_chain(&mut fs, 64).unwrap();
    let mut f = VirtFile::new(
        String::from("longfilename.txt"),
        pos,
        vec![lpos2, lpos1],
        chain,
        VirtFileType::File,
    );
    f.clear(&mut fs);
    // the whole entry set is tombstoned, so the listing is empty
    assert!(rd.dir_info(&mut fs, 0).is_none());
}
