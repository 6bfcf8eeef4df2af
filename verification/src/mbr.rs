//! Decoder for the Master Boot Record: the first disk block, holding up to
//! four 16-byte partition records at fixed offsets.

use vstd::prelude::*;
use vstd::slice::slice_subrange;
use crate::byte_util::{le_int, little_endian_to_int};

verus! {

/// One decoded partition record.
///
/// The packed CHS addresses are assembled MSB-first from 3 bytes each. The
/// LBA start is little-endian, while the sector count is assembled MSB-first
/// from the last four bytes of the record; the on-disk byte-order asymmetry
/// between those two fields is preserved exactly.
#[derive(Debug, Clone, Copy, PartialEq, Eq, Structural)]
pub struct PartitionEntry {
    pub status: u8,
    pub first_sector_chs_address: u32,
    pub partition_type: u8,
    pub last_sector_chs_address: u32,
    pub first_sector_block_address: u32,
    pub sector_count: u32,
}

/// The partition entry denoted by a 16-byte record: absent exactly when the
/// type byte (offset 4) is zero, otherwise each field read from its fixed
/// offset.
pub open spec fn spec_partition_entry(record: Seq<u8>) -> Option<PartitionEntry> {
    if record[4] == 0 {
        None
    } else {
        Some(
            (PartitionEntry {
                status: record[0],
                first_sector_chs_address: (0x10000 * record[1] + 0x100 * record[2]
                    + record[3]) as u32,
                partition_type: record[4],
                last_sector_chs_address: (0x10000 * record[5] + 0x100 * record[6]
                    + record[7]) as u32,
                first_sector_block_address: le_int(record.subrange(8, 12)) as u32,
                sector_count: (0x1000000 * record[12] + 0x10000 * record[13] + 0x100 * record[14]
                    + record[15]) as u32,
            }),
        )
    }
}

/// A 16-byte record whose type byte is zero denotes an absent slot.
pub proof fn lemma_zero_type_record_absent(record: Seq<u8>)
    requires
        record[4] == 0,
    ensures
        spec_partition_entry(record) is None,
{
}

/// For a record decoded from each fixed offset of a 512-byte block, the
/// partition count equals the number of records whose type byte (offset 4
/// of each record) is not zero — between 0 and 4.
pub proof fn lemma_partition_count_counts_nonzero_types(mbr: MBR, b: Seq<u8>)
    requires
        b.len() == 512,
        mbr.partition_entries@[0] == spec_partition_entry(b.subrange(0x1BE, 0x1CE)),
        mbr.partition_entries@[1] == spec_partition_entry(b.subrange(0x1CE, 0x1DE)),
        mbr.partition_entries@[2] == spec_partition_entry(b.subrange(0x1DE, 0x1EE)),
        mbr.partition_entries@[3] == spec_partition_entry(b.subrange(0x1EE, 0x1FE)),
    ensures
        mbr.spec_partition_count() == (if b[0x1C2] != 0 {
            1int
        } else {
            0int
        }) + (if b[0x1D2] != 0 {
            1int
        } else {
            0int
        }) + (if b[0x1E2] != 0 {
            1int
        } else {
            0int
        }) + (if b[0x1F2] != 0 {
            1int
        } else {
            0int
        }),
        0 <= mbr.spec_partition_count() <= 4,
{
    assert(b.subrange(0x1BE, 0x1CE)[4] == b[0x1C2]);
    assert(b.subrange(0x1CE, 0x1DE)[4] == b[0x1D2]);
    assert(b.subrange(0x1DE, 0x1EE)[4] == b[0x1E2]);
    assert(b.subrange(0x1EE, 0x1FE)[4] == b[0x1F2]);
}

impl PartitionEntry {
    /// Decodes one partition record. The slice must be exactly 16 bytes;
    /// a record with type byte zero yields `None`.
    pub fn from_bytes(bytes: &[u8]) -> (r: Option<PartitionEntry>)
        requires
            bytes@.len() == 16,
        ensures
            r == spec_partition_entry(bytes@),
    {
        let status = bytes[0];

        let b1 = bytes[1];
        let b2 = bytes[2];
        let b3 = bytes[3];
        assert((b1 as u32) << 16u32 == 0x10000 * b1 && (b2 as u32) << 8u32 == 0x100 * b2)
            by (bit_vector);
        let first_sector_chs_address = ((b1 as u32) << 16) + ((b2 as u32) << 8) + b3 as u32;

        let partition_type = bytes[4];
        if partition_type == 0 {
            return None;
        }

        let b5 = bytes[5];
        let b6 = bytes[6];
        let b7 = bytes[7];
        assert((b5 as u32) << 16u32 == 0x10000 * b5 && (b6 as u32) << 8u32 == 0x100 * b6)
            by (bit_vector);
        let last_sector_chs_address = ((b5 as u32) << 16) + ((b6 as u32) << 8) + b7 as u32;

        let first_sector_block_address = little_endian_to_int(slice_subrange(bytes, 8, 12));
        proof {
            crate::byte_util::lemma_le_int_bound(bytes@.subrange(8, 12));
        }

        let b12 = bytes[12];
        let b13 = bytes[13];
        let b14 = bytes[14];
        let b15 = bytes[15];
        assert((b12 as u32) << 24u32 == 0x1000000 * b12 && (b13 as u32) << 16u32 == 0x10000 * b13
            && (b14 as u32) << 8u32 == 0x100 * b14) by (bit_vector);
        let sector_count = ((b12 as u32) << 24) + ((b13 as u32) << 16) + ((b14 as u32) << 8) + b15
            as u32;

        Some(
            PartitionEntry {
                status,
                first_sector_chs_address,
                partition_type,
                last_sector_chs_address,
                first_sector_block_address,
                sector_count,
            },
        )
    }
}

/// A decoded Master Boot Record: exactly four partition slots, mirroring
/// on-disk order.
#[derive(Debug, Clone, Copy)]
pub struct MBR {
    pub partition_entries: [Option<PartitionEntry>; 4],
}

impl MBR {
    /// The number of present slots, between 0 and 4.
    pub open spec fn spec_partition_count(&self) -> int {
        let s = self.partition_entries@;
        (if s[0] is Some {
            1int
        } else {
            0int
        }) + (if s[1] is Some {
            1int
        } else {
            0int
        }) + (if s[2] is Some {
            1int
        } else {
            0int
        }) + (if s[3] is Some {
            1int
        } else {
            0int
        })
    }

    /// Decodes a 512-byte MBR block: four fixed 16-byte records at offsets
    /// 0x1BE, 0x1CE, 0x1DE and 0x1EE, slot order mirroring on-disk order.
    pub fn from_bytes(bytes: &[u8]) -> (r: MBR)
        requires
            bytes@.len() == 512,
        ensures
            r.partition_entries@[0] == spec_partition_entry(bytes@.subrange(0x1BE, 0x1CE)),
            r.partition_entries@[1] == spec_partition_entry(bytes@.subrange(0x1CE, 0x1DE)),
            r.partition_entries@[2] == spec_partition_entry(bytes@.subrange(0x1DE, 0x1EE)),
            r.partition_entries@[3] == spec_partition_entry(bytes@.subrange(0x1EE, 0x1FE)),
    {
        let e0 = PartitionEntry::from_bytes(slice_subrange(bytes, 0x1BE, 0x1CE));
        let e1 = PartitionEntry::from_bytes(slice_subrange(bytes, 0x1CE, 0x1DE));
        let e2 = PartitionEntry::from_bytes(slice_subrange(bytes, 0x1DE, 0x1EE));
        let e3 = PartitionEntry::from_bytes(slice_subrange(bytes, 0x1EE, 0x1FE));
        MBR { partition_entries: [e0, e1, e2, e3] }
    }

    /// Counts the present partition slots.
    pub fn partition_count(&self) -> (r: u8)
        ensures
            r == self.spec_partition_count(),
            r <= 4,
    {
        let mut count: u8 = 0;
        if self.partition_entries[0].is_some() {
            count = count + 1;
        }
        if self.partition_entries[1].is_some() {
            count = count + 1;
        }
        if self.partition_entries[2].is_some() {
            count = count + 1;
        }
        if self.partition_entries[3].is_some() {
            count = count + 1;
        }
        count
    }
}

} // verus!
