use sdfat32::mbr::{PartitionEntry, MBR};

fn partition_record(
    status: u8,
    chs_start: [u8; 3],
    ptype: u8,
    chs_end: [u8; 3],
    lba_start: u32,
    count_msb_first: [u8; 4],
) -> [u8; 16] {
    let mut r = [0u8; 16];
    r[0] = status;
    r[1..4].copy_from_slice(&chs_start);
    r[4] = ptype;
    r[5..8].copy_from_slice(&chs_end);
    r[8..12].copy_from_slice(&lba_start.to_le_bytes());
    r[12..16].copy_from_slice(&count_msb_first);
    r
}

#[test]
fn zero_type_record_is_absent() {
    let rec = partition_record(0x80, [1, 2, 3], 0x00, [4, 5, 6], 2048, [0, 0, 8, 0]);
    assert!(PartitionEntry::from_bytes(&rec).is_none());
}

#[test]
fn fat32_record_fields() {
    let rec = partition_record(
        0x80,
        [0x01, 0x02, 0x03],
        0x0B,
        [0x04, 0x05, 0x06],
        2048,
        [0x01, 0x02, 0x03, 0x04],
    );
    let e = PartitionEntry::from_bytes(&rec).unwrap();
    assert_eq!(e.status, 0x80);
    assert_eq!(e.partition_type, 0x0B);
    // packed CHS addresses are assembled MSB-first from 3 bytes
    assert_eq!(e.first_sector_chs_address, 0x010203);
    assert_eq!(e.last_sector_chs_address, 0x040506);
    // LBA start is little-endian
    assert_eq!(e.first_sector_block_address, 2048);
    // sector count keeps the MSB-first assembly of the last four bytes
    assert_eq!(e.sector_count, 0x01020304);
}

#[test]
fn mbr_with_one_fat32_partition() {
    let mut block = [0u8; 512];
    let rec = partition_record(0x80, [0, 0, 0], 0x0B, [0, 0, 0], 2048, [0, 0, 8, 0]);
    block[0x1BE..0x1CE].copy_from_slice(&rec);
    block[510] = 0x55;
    block[511] = 0xAA;

    let mbr = MBR::from_bytes(&block);
    assert_eq!(mbr.partition_count(), 1);
    let p = mbr.partition_entries[0].as_ref().unwrap();
    assert_eq!(p.partition_type, 0x0B);
    assert_eq!(p.first_sector_block_address, 2048);
    assert!(mbr.partition_entries[1].is_none());
    assert!(mbr.partition_entries[2].is_none());
    assert!(mbr.partition_entries[3].is_none());
}

#[test]
fn partition_count_counts_every_present_slot() {
    let mut block = [0u8; 512];
    let rec = partition_record(0x00, [0, 0, 0], 0x0C, [0, 0, 0], 63, [0, 0, 1, 0]);
    block[0x1BE..0x1CE].copy_from_slice(&rec);
    block[0x1DE..0x1EE].copy_from_slice(&rec);
    let mbr = MBR::from_bytes(&block);
    assert_eq!(mbr.partition_count(), 2);

    let empty = MBR::from_bytes(&[0u8; 512]);
    assert_eq!(empty.partition_count(), 0);

    let mut full = [0u8; 512];
    for off in [0x1BE, 0x1CE, 0x1DE, 0x1EE] {
        full[off..off + 16].copy_from_slice(&rec);
    }
    assert_eq!(MBR::from_bytes(&full).partition_count(), 4);
}
