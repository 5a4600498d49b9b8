//! Directory-entry codec behavior: round trips, checksums, name handling.

use fat32::entry::{LongDirEntry, ShortDirEntry};
use fat32::vf::VirtFileType;
use fat32::{ATTR_ARCHIVE, ATTR_DIRECTORY, ATTR_LONG_NAME, DIR_ENTRY_UNUSED};

fn reference_checksum(bytes: &[u8]) -> u8 {
    let mut sum: u32 = 0;
    for &b in bytes {
        sum = (((sum & 1) << 7) + (sum >> 1) + b as u32) & 0xFF;
    }
    sum as u8
}

#[test]
fn short_entry_round_trip() {
    let mut e = ShortDirEntry::new(0x00ABCDEF, b"FOO", b"TXT", VirtFileType::File);
    e.set_file_size(123456);
    e.set_create_time(0x1234);
    e.set_create_date(0x2345);
    e.set_last_access_date(0x3456);
    e.set_last_write_time(0x4567);
    e.set_last_write_date(0x5678);
    let bytes = e.to_bytes_array();
    let d = ShortDirEntry::new_from_bytes(&bytes);
    assert_eq!(d.first_cluster(), 0x00ABCDEF);
    assert_eq!(d.file_size(), 123456);
    assert_eq!(d.attr(), ATTR_ARCHIVE);
    assert_eq!(d.name(), "FOO.TXT");
    assert_eq!(d.to_bytes_array(), bytes);
}

#[test]
fn short_entry_layout_is_little_endian() {
    let mut e = ShortDirEntry::empty();
    e.set_first_cluster(0x00345678);
    e.set_file_size(0x0A0B0C0D);
    let b = e.to_bytes_array();
    assert_eq!(b[20], 0x34);
    assert_eq!(b[21], 0x00);
    assert_eq!(b[26], 0x78);
    assert_eq!(b[27], 0x56);
    assert_eq!(b[28], 0x0D);
    assert_eq!(b[29], 0x0C);
    assert_eq!(b[30], 0x0B);
    assert_eq!(b[31], 0x0A);
}

#[test]
fn new_upper_cases_and_pads() {
    let e = ShortDirEntry::new(7, b"main", b"rs", VirtFileType::File);
    assert_eq!(e.name(), "MAIN.RS");
    assert_eq!(e.get_name_lowercase(), "main.rs");
    let d = ShortDirEntry::new(9, b"SUBDIR", b"", VirtFileType::Dir);
    assert_eq!(d.attr(), ATTR_DIRECTORY);
    assert!(d.is_dir());
    assert_eq!(d.name(), "SUBDIR");
}

#[test]
fn checksum_matches_reference_and_ignores_case() {
    let upper = ShortDirEntry::new(1, b"FOO", b"TXT", VirtFileType::File);
    let lower = ShortDirEntry::new(1, b"foo", b"txt", VirtFileType::File);
    assert_eq!(upper.gen_check_sum(), lower.gen_check_sum());
    assert_eq!(upper.gen_check_sum(), reference_checksum(b"FOO     TXT"));
    let other = ShortDirEntry::new(1, b"BAR", b"TXT", VirtFileType::File);
    assert_ne!(upper.gen_check_sum(), other.gen_check_sum());
}

#[test]
fn tombstone_and_sentinels() {
    let mut e = ShortDirEntry::new(44, b"GONE", b"", VirtFileType::File);
    assert!(!e.is_deleted());
    assert!(!e.is_empty());
    assert!(!e.is_free());
    e.delete();
    assert!(e.is_deleted());
    assert!(e.is_free());
    assert_eq!(e.file_size(), 0);
    assert_eq!(e.first_cluster(), 0);
    let z = ShortDirEntry::empty();
    let mut z = z;
    z.set_attr(ATTR_ARCHIVE);
    let zb = {
        let mut b = z.to_bytes_array();
        b[0] = 0;
        b
    };
    let z2 = ShortDirEntry::new_from_bytes(&zb);
    assert!(z2.is_empty());
}

#[test]
fn valid_name_rules() {
    assert!(ShortDirEntry::new(1, b"GOOD", b"TXT", VirtFileType::File).is_valid_name());
    let bad = ShortDirEntry::new(1, b"BA*D", b"TXT", VirtFileType::File);
    assert!(!bad.is_valid_name());
    let mut ctl = ShortDirEntry::new(1, b"OK", b"", VirtFileType::File);
    let mut b = ctl.to_bytes_array();
    b[0] = 0x05;
    ctl = ShortDirEntry::new_from_bytes(&b);
    assert!(ctl.is_valid_name());
    b[0] = 0x1F;
    let ctl2 = ShortDirEntry::new_from_bytes(&b);
    assert!(!ctl2.is_valid_name());
}

#[test]
fn file_kind_checks() {
    assert!(ShortDirEntry::new(1, b"A", b"", VirtFileType::File).is_file());
    assert!(!ShortDirEntry::new(1, b"A", b"", VirtFileType::Dir).is_file());
}

#[test]
fn long_entry_fragment_round_trip() {
    let lde = LongDirEntry::new(0x41, 0xAB, "hello");
    assert_eq!(lde.name(), "hello");
    assert_eq!(lde.order(), 0x41);
    assert_eq!(lde.lde_order(), 1);
    assert!(lde.is_lde_end());
    assert_eq!(lde.check_sum(), 0xAB);
    assert_eq!(lde.attr(), ATTR_LONG_NAME);
}

#[test]
fn long_entry_full_width_and_unicode() {
    let thirteen = "abcdefghijklm";
    let lde = LongDirEntry::new(0x01, 0, thirteen);
    assert_eq!(lde.name(), thirteen);
    assert!(!lde.is_lde_end());
    let uni = LongDirEntry::new(0x01, 0, "héllo wörld");
    assert_eq!(uni.name(), "héllo wörld");
    let emoji = LongDirEntry::new(0x01, 0, "a\u{1F600}b");
    assert_eq!(emoji.name(), "a\u{1F600}b");
}

#[test]
fn long_entry_bytes_round_trip() {
    let lde = LongDirEntry::new(0x42, 0x5C, "tail");
    let b = lde.to_bytes_array();
    assert_eq!(b[0], 0x42);
    assert_eq!(b[11], ATTR_LONG_NAME);
    assert_eq!(b[13], 0x5C);
    let d = LongDirEntry::new_form_bytes(&b);
    assert_eq!(d.name(), "tail");
    assert_eq!(d.order(), 0x42);
    assert_eq!(d.check_sum(), 0x5C);
    assert_eq!(d.to_bytes_array(), b);
}

#[test]
fn long_entry_delete_and_sentinels() {
    let mut lde = LongDirEntry::new(0x01, 0, "x");
    assert!(lde.is_valid());
    assert!(!lde.is_deleted());
    lde.delete();
    assert!(lde.is_deleted());
    assert!(lde.is_free());
    assert_eq!(lde.order(), DIR_ENTRY_UNUSED);
    let empty = LongDirEntry::empty();
    assert!(empty.is_empty());
    assert!(empty.is_free());
}

#[test]
fn read_little_endian_helpers() {
    let buf = [0x78u8, 0x56, 0x34, 0x12];
    assert_eq!(fat32::entry::read_u16_le(&buf, 0), 0x5678);
    assert_eq!(fat32::entry::read_u32_le(&buf, 0), 0x12345678);
}

#[test]
fn name_bytes_arrays() {
    let e = ShortDirEntry::new(1, b"AB", b"C", VirtFileType::File);
    let (with_dot, len) = e.name_bytes_array_with_dot();
    assert_eq!(&with_dot[..len], b"AB.C");
    let packed = e.name_bytes_array();
    assert_eq!(&packed[..3], b"ABC");
    assert_eq!(packed[3], 0);
}

#[test]
fn set_name_canonicalizes_both_parts() {
    let mut e = ShortDirEntry::new(1, b"OLD", b"TXT", VirtFileType::File);
    e.set_name(b"new", b"md");
    assert_eq!(e.name(), "NEW.MD");
    e.set_name(b"BARE", b"");
    assert_eq!(e.name(), "BARE");
}

#[test]
fn delete_keeps_dates_and_attribute() {
    let mut e = ShortDirEntry::new(9, b"KEEP", b"DAT", VirtFileType::File);
    e.set_create_time(0x1111);
    e.set_create_date(0x2222);
    e.set_last_write_time(0x3333);
    e.set_last_write_date(0x4444);
    e.set_last_access_date(0x5555);
    e.set_name_case(0x18);
    let attr = e.attr();
    e.delete();
    let b = e.to_bytes_array();
    assert_eq!(b[11], attr);
    assert_eq!(b[12], 0x18);
    assert_eq!(fat32::entry::read_u16_le(&b, 14), 0x1111);
    assert_eq!(fat32::entry::read_u16_le(&b, 16), 0x2222);
    assert_eq!(fat32::entry::read_u16_le(&b, 22), 0x3333);
    assert_eq!(fat32::entry::read_u16_le(&b, 24), 0x4444);
    assert_eq!(fat32::entry::read_u16_le(&b, 18), 0x5555);
}

#[test]
fn name_bytes_arrays_pack_content() {
    let e = ShortDirEntry::new(1, b"AB", b"C", VirtFileType::File);
    let packed = e.name_bytes_array();
    assert_eq!(&packed[..], b"ABC\0\0\0\0\0\0\0\0");
    let (with_dot, len) = e.name_bytes_array_with_dot();
    assert_eq!(len, 4);
    assert_eq!(&with_dot[..len], b"AB.C");
    assert!(with_dot[len..].iter().all(|&b| b == 0));
    let bare = ShortDirEntry::new(1, b"NOEXT", b"", VirtFileType::File);
    let (wd, l) = bare.name_bytes_array_with_dot();
    assert_eq!(&wd[..l], b"NOEXT");
}
