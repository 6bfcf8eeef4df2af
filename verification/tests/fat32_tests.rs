use sdfat32::block_accessor::{BlockAccessor, MemoryBlockAccessor};
use sdfat32::fat32::{
    BootSector, DirectoryItem, Entry, LfnEntry, BYTES_PER_BLOCK, EBPB, SUBDIRECTORY,
};
use sdfat32::mbr::MBR;

const PARTITION_START: usize = 2048;
const RESERVED_SECTORS: usize = 2;
const SECTORS_PER_FAT: usize = 1;
// data region start: partition start + reserved sectors + 2 FAT copies
const DATA_START: usize = PARTITION_START + RESERVED_SECTORS + 2 * SECTORS_PER_FAT;
const FAT_START: usize = PARTITION_START + RESERVED_SECTORS;
const FILE_SIZE: usize = 19225;
const FILE_FIRST_CLUSTER: u32 = 5;

fn file_byte(k: usize) -> u8 {
    ((k * 31 + 7) % 251) as u8
}

fn put_le16(image: &mut [u8], off: usize, v: u16) {
    image[off..off + 2].copy_from_slice(&v.to_le_bytes());
}

fn put_le32(image: &mut [u8], off: usize, v: u32) {
    image[off..off + 4].copy_from_slice(&v.to_le_bytes());
}

/// Writes one long-filename slot carrying 13 characters of `chars` starting
/// at `start`, in on-disk UTF-16LE order (low byte first).
fn lfn_slot(seq: u8, chars: &[u8], start: usize) -> [u8; 32] {
    let mut slot = [0u8; 32];
    slot[0] = seq;
    slot[0x0B] = 0x0F;
    let unit_offsets = [
        0x01, 0x03, 0x05, 0x07, 0x09, 0x0E, 0x10, 0x12, 0x14, 0x16, 0x18, 0x1C, 0x1E,
    ];
    let mut terminated = false;
    for (i, off) in unit_offsets.iter().enumerate() {
        let pos = start + i;
        if pos < chars.len() {
            slot[*off] = chars[pos];
            slot[*off + 1] = 0;
        } else if !terminated {
            slot[*off] = 0;
            slot[*off + 1] = 0;
            terminated = true;
        } else {
            slot[*off] = 0xFF;
            slot[*off + 1] = 0xFF;
        }
    }
    slot
}

fn short_slot(name8: &[u8; 8], ext3: &[u8; 3], attr: u8, cluster: u32, size: u32) -> [u8; 32] {
    let mut slot = [0u8; 32];
    slot[0..8].copy_from_slice(name8);
    slot[8..11].copy_from_slice(ext3);
    slot[0x0B] = attr;
    slot[0x14] = (cluster >> 16) as u8;
    slot[0x15] = (cluster >> 24) as u8;
    slot[0x1A] = cluster as u8;
    slot[0x1B] = (cluster >> 8) as u8;
    slot[0x1C..0x20].copy_from_slice(&size.to_le_bytes());
    slot
}

fn cluster_block(cluster: u32) -> usize {
    DATA_START + (cluster as usize - 2)
}

/// Builds a complete disk image: an MBR with one FAT32 partition at LBA
/// 2048, a boot sector, two FAT copies, and a directory tree
/// `projects/shmorc/python_welcome.mp3` with a 19225-byte file.
fn build_image() -> Vec<u8> {
    let file_clusters = FILE_SIZE.div_ceil(512);
    let last_cluster = FILE_FIRST_CLUSTER + file_clusters as u32 - 1;
    let total_blocks = cluster_block(last_cluster) + 1;
    let mut image = vec![0u8; total_blocks * 512];

    // MBR: one partition of type 0x0B at LBA 2048
    let mbr_rec = 0x1BE;
    image[mbr_rec] = 0x80;
    image[mbr_rec + 4] = 0x0B;
    put_le32(&mut image, mbr_rec + 8, PARTITION_START as u32);
    image[mbr_rec + 12] = 0x00;
    image[mbr_rec + 13] = 0x01;
    image[510] = 0x55;
    image[511] = 0xAA;

    // Boot sector at the partition start
    let bs = PARTITION_START * 512;
    image[bs] = 0xEB;
    image[bs + 1] = 0x58;
    image[bs + 2] = 0x90;
    image[bs + 3..bs + 11].copy_from_slice(b"MSDOS5.0");
    let ebpb = bs + 11;
    put_le16(&mut image, ebpb, 512); // bytes per logical sector
    image[ebpb + 2] = 1; // sectors per cluster
    put_le16(&mut image, ebpb + 3, RESERVED_SECTORS as u16);
    image[ebpb + 5] = 2; // number of FATs
    put_le16(&mut image, ebpb + 6, 0); // root directory entries
    put_le16(&mut image, ebpb + 8, 0); // 16-bit total logical sectors
    image[ebpb + 10] = 0xF8; // media descriptor
    put_le16(&mut image, ebpb + 13, 63); // sectors per track
    put_le16(&mut image, ebpb + 15, 255); // heads per disk
    put_le32(&mut image, ebpb + 17, 2048); // hidden sectors
    put_le32(&mut image, ebpb + 21, 123456); // sector count
    put_le32(&mut image, ebpb + 25, SECTORS_PER_FAT as u32);
    put_le16(&mut image, ebpb + 31, 0); // version
    put_le32(&mut image, ebpb + 33, 2); // root directory cluster
    put_le16(&mut image, ebpb + 37, 1); // information sector
    put_le16(&mut image, ebpb + 39, 6); // backup information sector
    image[ebpb + 53] = 0x80; // drive number
    image[ebpb + 55] = 0x29; // EBPB boot signature
    put_le32(&mut image, ebpb + 56, 0xDEAD1234);
    image[bs + 510] = 0x55;
    image[bs + 511] = 0xAA;

    // FAT: directory clusters end their chains; the file chain runs from
    // cluster 5 and ends with a raw entry of 0.
    let fat = FAT_START * 512;
    for c in FILE_FIRST_CLUSTER..last_cluster {
        put_le32(&mut image, fat + (c as usize) * 4, c + 1);
    }
    put_le32(&mut image, fat + (last_cluster as usize) * 4, 0);

    // Root directory (cluster 2): "projects" with a long-filename slot,
    // a plain short entry, a freed slot, then the end marker.
    let root = cluster_block(2) * 512;
    image[root..root + 32].copy_from_slice(&lfn_slot(0x41, b"projects", 0));
    image[root + 32..root + 64]
        .copy_from_slice(&short_slot(b"PROJECTS", b"   ", SUBDIRECTORY, 3, 0));
    image[root + 64..root + 96].copy_from_slice(&short_slot(b"README  ", b"TXT", 0x20, 0, 5));
    image[root + 96] = 0xE5; // freed slot
    image[root + 128] = 0x00; // end marker
    // a slot past the end marker must never surface
    image[root + 160..root + 192]
        .copy_from_slice(&short_slot(b"GHOST   ", b"BIN", 0x20, 0, 1));

    // "projects" directory (cluster 3): "shmorc"
    let projects = cluster_block(3) * 512;
    image[projects..projects + 32].copy_from_slice(&lfn_slot(0x41, b"shmorc", 0));
    image[projects + 32..projects + 64]
        .copy_from_slice(&short_slot(b"SHMORC  ", b"   ", SUBDIRECTORY, 4, 0));

    // "shmorc" directory (cluster 4): "python_welcome.mp3", two fragments
    // stored last-segment-first
    let shmorc = cluster_block(4) * 512;
    let name = b"python_welcome.mp3";
    image[shmorc..shmorc + 32].copy_from_slice(&lfn_slot(0x42, name, 13));
    image[shmorc + 32..shmorc + 64].copy_from_slice(&lfn_slot(0x01, name, 0));
    image[shmorc + 64..shmorc + 96].copy_from_slice(&short_slot(
        b"PYTHON_W",
        b"MP3",
        0x20,
        FILE_FIRST_CLUSTER,
        FILE_SIZE as u32,
    ));

    // File content
    for k in 0..FILE_SIZE {
        let cluster = FILE_FIRST_CLUSTER as usize + k / 512;
        image[cluster_block(cluster as u32) * 512 + k % 512] = file_byte(k);
    }

    image
}

fn build_volume() -> sdfat32::fat32::Fat32<MemoryBlockAccessor> {
    let mut dev = MemoryBlockAccessor::new(build_image());
    let mut block = vec![0u8; 512];
    dev.read_block(0, &mut block);
    let mbr = MBR::from_bytes(&block);
    assert_eq!(mbr.partition_count(), 1);
    let partition = mbr.partition_entries[0].as_ref().unwrap();
    assert_eq!(partition.first_sector_block_address, 2048);
    sdfat32::fat32::Fat32::new(dev, partition.first_sector_block_address).unwrap()
}

#[test]
fn boot_sector_fields_at_documented_offsets() {
    let image = build_image();
    let bs = &image[PARTITION_START * 512..PARTITION_START * 512 + 512];
    let parsed = BootSector::new(bs).unwrap();
    assert_eq!(parsed.jump_instruction, 0x90_58EB);
    assert_eq!(&parsed.oem_name, b"MSDOS5.0");
    assert_eq!(parsed.drive_number, 0);
    assert_eq!(parsed.bpb.bytes_per_logical_sector, 512);
    assert_eq!(parsed.bpb.sectors_per_cluster, 1);
    assert_eq!(parsed.bpb.reserved_logical_sectors, 2);
    assert_eq!(parsed.bpb.number_of_fats, 2);
    assert_eq!(parsed.bpb.root_directory_entries, 0);
    assert_eq!(parsed.bpb.total_logical_sectors, 0);
    assert_eq!(parsed.bpb.media_descriptor, 0xF8);
    assert_eq!(parsed.bpb.sectors_per_track, 63);
    assert_eq!(parsed.bpb.heads_per_disk, 255);
    assert_eq!(parsed.bpb.hidden_sectors, 2048);
    assert_eq!(parsed.bpb.sector_count, 123456);
    assert_eq!(parsed.bpb.sectors_per_fat, 1);
    assert_eq!(parsed.bpb.version, 0);
    assert_eq!(parsed.bpb.root_directory_cluster, 2);
    assert_eq!(parsed.bpb.information_sector, 1);
    assert_eq!(parsed.bpb.backup_information_sector, 6);
    assert_eq!(parsed.bpb.drive_number, 0x80);
    assert_eq!(parsed.bpb.boot_signature, 0x29);
    assert_eq!(parsed.bpb.serial_number, 0xDEAD1234);
}

#[test]
fn boot_sector_rejects_bad_trailer_or_signature() {
    let image = build_image();
    let good = &image[PARTITION_START * 512..PARTITION_START * 512 + 512];

    let mut bad_trailer = good.to_vec();
    bad_trailer[510] = 0x54;
    assert!(BootSector::new(&bad_trailer).is_none());

    let mut bad_trailer2 = good.to_vec();
    bad_trailer2[511] = 0x00;
    assert!(BootSector::new(&bad_trailer2).is_none());

    let mut bad_signature = good.to_vec();
    bad_signature[11 + 55] = 0x28;
    assert!(BootSector::new(&bad_signature).is_none());

    let mut ebpb_only = good[11..509].to_vec();
    assert!(EBPB::new(&ebpb_only).is_some());
    ebpb_only[55] = 0;
    assert!(EBPB::new(&ebpb_only).is_none());
}

#[test]
fn entry_classification() {
    let zeros = [0u8; 32];
    assert!(matches!(Entry::new(&zeros), Entry::Last));

    let mut freed = [0u8; 32];
    freed[0] = 0xE5;
    assert!(matches!(Entry::new(&freed), Entry::Empty));

    let lfn = lfn_slot(0x41, b"abc", 0);
    assert!(matches!(Entry::new(&lfn), Entry::Lfn(_)));

    let short = short_slot(b"FOO     ", b"BAR", 0x20, 7, 9);
    match Entry::new(&short) {
        Entry::DirectoryEntry(e) => {
            assert_eq!(e.cluster_num, 7);
            assert_eq!(e.size, 9);
            assert!(!e.flags.contains(SUBDIRECTORY));
        }
        other => panic!("expected a short entry, got {:?}", other),
    }
}

#[test]
fn short_entry_cluster_halves() {
    let short = short_slot(b"BIG     ", b"   ", 0x20, 0x00A2_0001, 0);
    match Entry::new(&short) {
        Entry::DirectoryEntry(e) => assert_eq!(e.cluster_num, 0x00A2_0001),
        other => panic!("expected a short entry, got {:?}", other),
    }
}

#[test]
fn lfn_ascii_name_reconstructed_exactly() {
    let slot = lfn_slot(0x41, b"hello.txt", 0);
    let e = LfnEntry::new(&slot);
    assert_eq!(e.name(), "hello.txt");
}

#[test]
fn lfn_high_characters_are_dropped() {
    // "a<0xB5>b": the 0xB5 character lies above 0x7F and is dropped,
    // never substituted
    let slot = lfn_slot(0x41, &[b'a', 0xB5, b'b'], 0);
    let e = LfnEntry::new(&slot);
    assert_eq!(e.name(), "ab");
}

/// Writes one long-filename slot carrying the given UTF-16 code units,
/// little-endian on disk.
fn lfn_slot_units(seq: u8, units: &[u16]) -> [u8; 32] {
    let mut slot = [0u8; 32];
    slot[0] = seq;
    slot[0x0B] = 0x0F;
    let unit_offsets = [
        0x01, 0x03, 0x05, 0x07, 0x09, 0x0E, 0x10, 0x12, 0x14, 0x16, 0x18, 0x1C, 0x1E,
    ];
    for (i, off) in unit_offsets.iter().enumerate() {
        let v = if i < units.len() {
            units[i]
        } else if i == units.len() {
            0x0000
        } else {
            0xFFFF
        };
        slot[*off] = v as u8;
        slot[*off + 1] = (v >> 8) as u8;
    }
    slot
}

#[test]
fn lfn_high_code_points_with_ascii_low_byte_are_dropped() {
    // U+0141 lies above 0x7F: it is dropped entirely, never read as its
    // low byte 'A'
    let slot = lfn_slot_units(0x41, &[b'a' as u16, 0x0141, b'b' as u16]);
    let e = LfnEntry::new(&slot);
    assert_eq!(e.name(), "ab");
}

#[test]
fn lfn_high_code_point_with_zero_low_byte_does_not_terminate() {
    // U+0100 has a zero low byte but is not the terminator: it is dropped
    // and decoding continues
    let slot = lfn_slot_units(0x41, &[b'x' as u16, 0x0100, b'y' as u16]);
    let e = LfnEntry::new(&slot);
    assert_eq!(e.name(), "xy");
}

#[test]
fn lfn_stops_at_the_zero_unit() {
    let mut units = [0u16; 5];
    units[0] = b'q' as u16;
    units[1] = 0x0000;
    units[2] = b'z' as u16;
    let slot = lfn_slot_units(0x41, &units[..3]);
    // the builder appends the terminator itself after 3 units, but unit 1
    // is already zero: everything after it is ignored
    let e = LfnEntry::new(&slot);
    assert_eq!(e.name(), "q");
}

#[test]
fn root_iteration_in_disk_order_stops_at_end_marker() {
    let mut fat32 = build_volume();
    let mut it = fat32.iter_contents_of_directory_cluster(2);

    match it.next(&mut fat32) {
        Some(DirectoryItem::Directory(d)) => {
            assert_eq!(d.name, "projects");
            assert_eq!(d.cluster, 3);
        }
        other => panic!("expected the projects directory, got {:?}", other),
    }
    match it.next(&mut fat32) {
        Some(DirectoryItem::File(f)) => {
            // the 8.3 name keeps its padding: no trimming
            assert_eq!(f.name, "README  .TXT");
            assert_eq!(f.size, 5);
        }
        other => panic!("expected the readme file, got {:?}", other),
    }
    // iteration ends at the first zero name byte; the slot past it never
    // surfaces
    assert!(it.next(&mut fat32).is_none());
}

#[test]
fn get_cluster_truncates_at_cluster_end() {
    let mut fat32 = build_volume();
    let mut out = vec![0xCCu8; 32];
    // the cluster holds 512 bytes; a window of 32 at offset 500 only has 12
    let copied = fat32.get_cluster(2, 500, &mut out);
    assert_eq!(copied, 12);
    // bytes past the copied prefix stay untouched
    assert!(out[12..].iter().all(|b| *b == 0xCC));

    // an offset past the cluster extent copies nothing
    let copied = fat32.get_cluster(2, 512, &mut out);
    assert_eq!(copied, 0);

    // a window inside the extent is filled completely
    let mut exact = vec![0u8; 32];
    let copied = fat32.get_cluster(2, 0, &mut exact);
    assert_eq!(copied, 32);
    assert_eq!(&exact, &lfn_slot(0x41, b"projects", 0));
}

#[test]
fn cluster_number_after_follows_chain_and_ends_on_zero() {
    let mut fat32 = build_volume();
    assert_eq!(fat32.cluster_number_after(5), Some(6));
    assert_eq!(fat32.cluster_number_after(6), Some(7));
    // directory clusters carry a raw entry of zero: end of chain
    assert_eq!(fat32.cluster_number_after(2), None);
    assert_eq!(fat32.cluster_number_after(3), None);
}

#[test]
fn item_info_resolves_nested_path() {
    let mut fat32 = build_volume();
    match fat32.item_info("projects/shmorc/python_welcome.mp3") {
        Some(DirectoryItem::File(f)) => {
            assert_eq!(f.name, "python_welcome.mp3");
            assert_eq!(f.cluster, FILE_FIRST_CLUSTER);
            assert_eq!(f.size, FILE_SIZE as u32);
        }
        other => panic!("expected the mp3 file, got {:?}", other),
    }

    match fat32.item_info("projects") {
        Some(DirectoryItem::Directory(d)) => assert_eq!(d.cluster, 3),
        other => panic!("expected the projects directory, got {:?}", other),
    }

    // empty segments are skipped
    match fat32.item_info("/projects//shmorc") {
        Some(DirectoryItem::Directory(d)) => assert_eq!(d.cluster, 4),
        other => panic!("expected the shmorc directory, got {:?}", other),
    }
}

#[test]
fn item_info_rejects_trailing_slash_and_unknown_paths() {
    let mut fat32 = build_volume();
    assert!(fat32.item_info("projects/").is_none());
    assert!(fat32.item_info("/").is_none());
    assert!(fat32.item_info("").is_none());
    assert!(fat32.item_info("missing").is_none());
    assert!(fat32.item_info("projects/nothing").is_none());
    // a file cannot be descended into
    assert!(fat32.item_info("README  .TXT/zzz").is_none());
}

#[test]
fn file_stream_produces_exactly_the_file_bytes() {
    let mut fat32 = build_volume();
    let file = match fat32.item_info("projects/shmorc/python_welcome.mp3") {
        Some(DirectoryItem::File(f)) => f,
        other => panic!("expected the mp3 file, got {:?}", other),
    };
    assert_eq!(file.size as usize, FILE_SIZE);

    let mut collected: Vec<u8> = Vec::new();
    let mut it = fat32.iter_file(file);
    while let Some(chunk) = it.next(&mut fat32) {
        assert!(chunk.len() <= 512);
        collected.extend_from_slice(&chunk);
    }

    assert_eq!(collected.len(), FILE_SIZE);
    for k in 0..FILE_SIZE {
        assert_eq!(collected[k], file_byte(k), "byte {} differs", k);
    }

    // the file ends inside its last cluster, so the cursor still points at
    // it; the size bound alone ends the stream, and every further poll
    // stays `None` without touching the device
    assert_eq!(it.cluster, Some(42));
    assert_eq!(it.bytes_read, FILE_SIZE as u32);
    assert!(it.next(&mut fat32).is_none());
    assert!(it.next(&mut fat32).is_none());
}

#[test]
fn file_stream_whole_clusters_ends_with_chain() {
    // a file of exactly two clusters: the last chunk drains the second
    // cluster, the chain lookup returns `None`, and the stream ends with
    // no cluster left and no further reads
    let mut fat32 = build_volume();
    let file = sdfat32::fat32::File {
        name: String::from("two_clusters"),
        cluster: FILE_FIRST_CLUSTER,
        size: 1024,
    };
    let mut it = fat32.iter_file(file);
    assert_eq!(it.next(&mut fat32).unwrap().len(), 512);
    assert_eq!(it.next(&mut fat32).unwrap().len(), 512);
    // cluster 6's successor is cluster 7, so the cursor moved there; make
    // the same walk with a chain that ends instead
    assert_eq!(it.cluster, Some(7));

    // cluster 2 (the root directory) carries a raw FAT entry of zero:
    // a single-cluster file over it ends its chain exactly at the
    // cluster's last byte
    let file = sdfat32::fat32::File {
        name: String::from("one_cluster"),
        cluster: 2,
        size: 512,
    };
    let mut it = fat32.iter_file(file);
    assert_eq!(it.next(&mut fat32).unwrap().len(), 512);
    assert_eq!(it.cluster, None);
    assert!(it.next(&mut fat32).is_none());
    assert!(it.next(&mut fat32).is_none());
}

#[test]
fn file_stream_last_chunk_is_the_remainder() {
    let mut fat32 = build_volume();
    let file = match fat32.item_info("projects/shmorc/python_welcome.mp3") {
        Some(DirectoryItem::File(f)) => f,
        other => panic!("expected the mp3 file, got {:?}", other),
    };
    let mut it = fat32.iter_file(file);
    let mut last_len = 0usize;
    let mut chunks = 0usize;
    while let Some(chunk) = it.next(&mut fat32) {
        last_len = chunk.len();
        chunks += 1;
    }
    assert_eq!(chunks, FILE_SIZE.div_ceil(512));
    assert_eq!(last_len, FILE_SIZE % 512);
}

#[test]
fn find_in_directory_selects_by_name_and_kind() {
    let mut fat32 = build_volume();
    let projects = String::from("projects");
    let readme = String::from("README  .TXT");

    match fat32.find_in_directory(2, &projects, false) {
        Some(DirectoryItem::Directory(d)) => assert_eq!(d.cluster, 3),
        other => panic!("expected the projects directory, got {:?}", other),
    }
    // away from the final segment a file never qualifies, even by name
    assert!(fat32.find_in_directory(2, &readme, false).is_none());
    match fat32.find_in_directory(2, &readme, true) {
        Some(DirectoryItem::File(f)) => assert_eq!(f.size, 5),
        other => panic!("expected the readme file, got {:?}", other),
    }
    assert!(fat32.find_in_directory(2, &String::from("nothing"), true).is_none());
}

#[test]
fn memory_block_accessor_reads_blocks() {
    let mut data = vec![0u8; 1024];
    data[512] = 0xAB;
    data[1023] = 0xCD;
    let mut dev = MemoryBlockAccessor::new(data);
    assert_eq!(dev.block_size(), 512);

    let mut block = vec![0u8; 512];
    dev.read_block(1, &mut block);
    assert_eq!(block[0], 0xAB);
    assert_eq!(block[511], 0xCD);

    // a read outside the device leaves the buffer as it was
    let mut untouched = vec![0x77u8; 512];
    dev.read_block(9, &mut untouched);
    assert!(untouched.iter().all(|b| *b == 0x77));

    // writing is unsupported on this stand-in
    assert!(dev.write_block(0, &vec![0u8; 512]).is_err());
}

#[test]
fn bytes_per_block_constant() {
    assert_eq!(BYTES_PER_BLOCK, 512);
}
