//! The FAT32 traversal engine: boot-sector/EBPB parsing, cluster-level
//! reads, FAT-chain walking, directory-entry and long-filename decoding,
//! path resolution, and file byte-streaming.

use vstd::prelude::*;
use vstd::slice::slice_subrange;
use vstd::string::StrSliceExecFns;
use vstd::string::StringExecFns;
use crate::block_accessor::BlockAccessor;
use crate::byte_util::{le_int, lemma_le_int_bound, little_endian_to_int, take_from_slice,
    taken_from_slice};

verus! {

/// Fixed transport granularity of the stack, in bytes.
pub const BYTES_PER_BLOCK: u32 = 512;

/// Width of one FAT entry, in bytes.
const BYTES_PER_CLUSTER_ENTRY: u64 = 4;

/// Width of one directory slot, in bytes.
const BYTES_PER_DIRECTORY_ENTRY: u32 = 32;

/// Appends one character to a string.
///
/// Relies on `String::push` of std: pushes the given `char` onto the end of
/// the string.
#[verifier::external_body]
fn push_char(s: &mut String, c: char)
    ensures
        final(s)@ == old(s)@.push(c),
{
    s.push(c);
}

/// Reads the next byte behind the cursor and advances it.
fn get(bytes: &mut &[u8]) -> (r: u8)
    requires
        old(bytes)@.len() > 0,
    ensures
        r == old(bytes)@[0],
        final(bytes)@ == old(bytes)@.drop_first(),
{
    take_from_slice(bytes)
}

/// Reads the next `n` bytes behind the cursor as a little-endian integer and
/// advances the cursor. At most four bytes fit a `u32`; more is a caller
/// precondition violation.
fn getn(bytes: &mut &[u8], n: usize) -> (r: u32)
    requires
        n <= 4,
        n <= old(bytes)@.len(),
    ensures
        r == le_int(old(bytes)@.subrange(0, n as int)),
        final(bytes)@ == old(bytes)@.subrange(n as int, old(bytes)@.len() as int),
{
    little_endian_to_int(taken_from_slice(bytes, n))
}

/// Both subranges of a tail of `b`, rephrased against `b` itself. Glue for
/// cursor-style parsing at a known absolute offset.
proof fn lemma_tail_subranges(b: Seq<u8>, off: int, n: int)
    requires
        0 <= off,
        0 <= n,
        off + n <= b.len(),
    ensures
        b.subrange(off, b.len() as int).subrange(0, n) == b.subrange(off, off + n),
        b.subrange(off, b.len() as int).subrange(n, b.len() - off) == b.subrange(
            off + n,
            b.len() as int,
        ),
{
    assert(b.subrange(off, b.len() as int).subrange(0, n) =~= b.subrange(off, off + n));
    assert(b.subrange(off, b.len() as int).subrange(n, b.len() - off) =~= b.subrange(
        off + n,
        b.len() as int,
    ));
}

/// The geometry snapshot carried by the FAT32 extended BIOS parameter block,
/// bytes 11 through 508 of the boot sector. The flag words, the volume label
/// and the file-system-type text are not captured and read as zero.
#[derive(Debug, Clone, Copy, PartialEq, Eq)]
pub struct EBPB {
    // DOS 2.0 BPB
    pub bytes_per_logical_sector: u16,
    pub sectors_per_cluster: u8,
    pub reserved_logical_sectors: u16,
    pub number_of_fats: u8,
    pub root_directory_entries: u16,
    pub total_logical_sectors: u16,
    pub media_descriptor: u8,
    // DOS 3.31 BPB
    pub sectors_per_track: u16,
    pub heads_per_disk: u16,
    pub hidden_sectors: u32,
    pub sector_count: u32,
    // DOS 7.1 EBPB
    pub sectors_per_fat: u32,
    pub flags: [u8; 2],
    pub version: u16,
    pub root_directory_cluster: u32,
    pub information_sector: u16,
    pub backup_information_sector: u16,
    pub drive_number: u8,
    pub boot_signature: u8,
    pub serial_number: u32,
    pub label: [u8; 11],
    pub file_system_type: [u8; 8],
}

/// Byte offset, within the 498-byte EBPB span, of the boot signature that
/// must equal 0x29.
pub const EBPB_SIGNATURE_OFFSET: usize = 55;

/// An EBPB span is acceptable exactly when its boot signature byte is 0x29.
pub open spec fn spec_ebpb_valid(b: Seq<u8>) -> bool {
    b[EBPB_SIGNATURE_OFFSET as int] == 0x29
}

/// The field values denoted by a 498-byte EBPB span, each at its documented
/// offset.
pub open spec fn spec_ebpb(b: Seq<u8>) -> EBPB {
    EBPB {
        bytes_per_logical_sector: le_int(b.subrange(0, 2)) as u16,
        sectors_per_cluster: b[2],
        reserved_logical_sectors: le_int(b.subrange(3, 5)) as u16,
        number_of_fats: b[5],
        root_directory_entries: le_int(b.subrange(6, 8)) as u16,
        total_logical_sectors: le_int(b.subrange(8, 10)) as u16,
        media_descriptor: b[10],
        sectors_per_track: le_int(b.subrange(13, 15)) as u16,
        heads_per_disk: le_int(b.subrange(15, 17)) as u16,
        hidden_sectors: le_int(b.subrange(17, 21)) as u32,
        sector_count: le_int(b.subrange(21, 25)) as u32,
        sectors_per_fat: le_int(b.subrange(25, 29)) as u32,
        flags: [0, 0],
        version: le_int(b.subrange(31, 33)) as u16,
        root_directory_cluster: le_int(b.subrange(33, 37)) as u32,
        information_sector: le_int(b.subrange(37, 39)) as u16,
        backup_information_sector: le_int(b.subrange(39, 41)) as u16,
        drive_number: b[53],
        boot_signature: b[55],
        serial_number: le_int(b.subrange(56, 60)) as u32,
        label: [0, 0, 0, 0, 0, 0, 0, 0, 0, 0, 0],
        file_system_type: [0, 0, 0, 0, 0, 0, 0, 0],
    }
}

impl EBPB {
    /// Decodes the 498-byte EBPB span. Fails exactly when the boot signature
    /// byte is not 0x29; on success every captured field is read from its
    /// documented offset.
    pub fn new(mut bytes: &[u8]) -> (r: Option<EBPB>)
        requires
            bytes@.len() == 498,
        ensures
            r == if spec_ebpb_valid(bytes@) {
                Some(spec_ebpb(bytes@))
            } else {
                None::<EBPB>
            },
    {
        let ghost b0 = bytes@;
        proof {
            assert(b0.subrange(0, 498) =~= b0);
        }

        // DOS 2.0 BPB
        proof {
            lemma_tail_subranges(b0, 0, 2);
            lemma_le_int_bound(b0.subrange(0, 2));
        }
        let bytes_per_logical_sector = getn(&mut bytes, 2) as u16;
        let sectors_per_cluster = get(&mut bytes);
        proof {
            assert(b0.subrange(2, 498).drop_first() =~= b0.subrange(3, 498));
            lemma_tail_subranges(b0, 3, 2);
            lemma_le_int_bound(b0.subrange(3, 5));
        }
        let reserved_logical_sectors = getn(&mut bytes, 2) as u16;
        let number_of_fats = get(&mut bytes);
        proof {
            assert(b0.subrange(5, 498).drop_first() =~= b0.subrange(6, 498));
            lemma_tail_subranges(b0, 6, 2);
            lemma_le_int_bound(b0.subrange(6, 8));
        }
        let root_directory_entries = getn(&mut bytes, 2) as u16;
        proof {
            lemma_tail_subranges(b0, 8, 2);
            lemma_le_int_bound(b0.subrange(8, 10));
        }
        let total_logical_sectors = getn(&mut bytes, 2) as u16;
        let media_descriptor = get(&mut bytes);
        proof {
            assert(b0.subrange(10, 498).drop_first() =~= b0.subrange(11, 498));
            lemma_tail_subranges(b0, 11, 2);
        }
        getn(&mut bytes, 2);  // logical sectors per FAT: ignored for FAT32

        // DOS 3.31 BPB
        proof {
            lemma_tail_subranges(b0, 13, 2);
            lemma_le_int_bound(b0.subrange(13, 15));
        }
        let sectors_per_track = getn(&mut bytes, 2) as u16;
        proof {
            lemma_tail_subranges(b0, 15, 2);
            lemma_le_int_bound(b0.subrange(15, 17));
        }
        let heads_per_disk = getn(&mut bytes, 2) as u16;
        proof {
            lemma_tail_subranges(b0, 17, 4);
            lemma_le_int_bound(b0.subrange(17, 21));
        }
        let hidden_sectors = getn(&mut bytes, 4);
        proof {
            lemma_tail_subranges(b0, 21, 4);
            lemma_le_int_bound(b0.subrange(21, 25));
        }
        let sector_count = getn(&mut bytes, 4);

        // DOS 7.1 EBPB
        proof {
            lemma_tail_subranges(b0, 25, 4);
            lemma_le_int_bound(b0.subrange(25, 29));
        }
        let sectors_per_fat = getn(&mut bytes, 4);

        proof {
            lemma_tail_subranges(b0, 29, 2);
        }
        taken_from_slice(&mut bytes, 2);  // flag words: not captured
        let flags: [u8; 2] = [0, 0];

        proof {
            lemma_tail_subranges(b0, 31, 2);
            lemma_le_int_bound(b0.subrange(31, 33));
        }
        let version = getn(&mut bytes, 2) as u16;
        proof {
            lemma_tail_subranges(b0, 33, 4);
            lemma_le_int_bound(b0.subrange(33, 37));
        }
        let root_directory_cluster = getn(&mut bytes, 4);
        proof {
            lemma_tail_subranges(b0, 37, 2);
            lemma_le_int_bound(b0.subrange(37, 39));
        }
        let information_sector = getn(&mut bytes, 2) as u16;
        proof {
            lemma_tail_subranges(b0, 39, 2);
            lemma_le_int_bound(b0.subrange(39, 41));
        }
        let backup_information_sector = getn(&mut bytes, 2) as u16;
        proof {
            lemma_tail_subranges(b0, 41, 12);
        }
        taken_from_slice(&mut bytes, 12);  // reserved region
        let drive_number = get(&mut bytes);
        proof {
            assert(b0.subrange(53, 498).drop_first() =~= b0.subrange(54, 498));
        }
        get(&mut bytes);  // flags: ignored for FAT32
        proof {
            assert(b0.subrange(54, 498).drop_first() =~= b0.subrange(55, 498));
        }
        let boot_signature = get(&mut bytes);
        proof {
            assert(b0.subrange(55, 498).drop_first() =~= b0.subrange(56, 498));
            lemma_tail_subranges(b0, 56, 4);
            lemma_le_int_bound(b0.subrange(56, 60));
        }
        let serial_number = getn(&mut bytes, 4);

        // Volume label and file-system-type text: not captured
        let label: [u8; 11] = [0, 0, 0, 0, 0, 0, 0, 0, 0, 0, 0];
        let file_system_type: [u8; 8] = [0, 0, 0, 0, 0, 0, 0, 0];

        if boot_signature != 0x29 {
            return None;
        }

        Some(
            EBPB {
                bytes_per_logical_sector,
                sectors_per_cluster,
                reserved_logical_sectors,
                number_of_fats,
                root_directory_entries,
                total_logical_sectors,
                media_descriptor,
                sectors_per_track,
                heads_per_disk,
                hidden_sectors,
                sector_count,
                sectors_per_fat,
                flags,
                version,
                root_directory_cluster,
                information_sector,
                backup_information_sector,
                drive_number,
                boot_signature,
                serial_number,
                label,
                file_system_type,
            },
        )
    }
}

/// A parsed boot sector: the EBPB geometry plus the few fields around it.
#[derive(Debug, Clone, Copy, PartialEq, Eq)]
pub struct BootSector {
    pub jump_instruction: u32,
    pub oem_name: [u8; 8],
    pub bpb: EBPB,
    pub drive_number: u8,
}

/// A 512-byte boot sector is acceptable exactly when its trailer bytes at
/// offsets 510 and 511 are 0x55,0xAA and its EBPB boot signature is 0x29.
pub open spec fn spec_boot_sector_valid(b: Seq<u8>) -> bool {
    &&& b[510] == 0x55
    &&& b[511] == 0xAA
    &&& spec_ebpb_valid(b.subrange(11, 509))
}

/// Boot-sector validity, written over the absolute byte offsets: the
/// trailer bytes 0x55,0xAA at 510 and 511, and the EBPB boot signature
/// 0x29 at byte 66 of the sector.
pub proof fn lemma_boot_sector_validity_bytes(b: Seq<u8>)
    requires
        b.len() == 512,
    ensures
        spec_boot_sector_valid(b) <==> (b[510] == 0x55 && b[511] == 0xAA && b[66] == 0x29),
{
    assert(b.subrange(11, 509)[EBPB_SIGNATURE_OFFSET as int] == b[66]);
}

/// The field values denoted by a 512-byte boot sector.
pub open spec fn spec_boot_sector(b: Seq<u8>) -> BootSector {
    BootSector {
        jump_instruction: (0x10000 * b[2] + 0x100 * b[1] + b[0]) as u32,
        oem_name: [b[3], b[4], b[5], b[6], b[7], b[8], b[9], b[10]],
        bpb: spec_ebpb(b.subrange(11, 509)),
        drive_number: b[509],
    }
}

impl BootSector {
    /// Parses a 512-byte boot sector. Fails exactly when the trailer bytes
    /// are not 0x55,0xAA or the EBPB boot signature is not 0x29; any mismatch
    /// leaves no partially-initialized value behind.
    pub fn new(bytes: &[u8]) -> (r: Option<BootSector>)
        requires
            bytes@.len() == 512,
        ensures
            r == if spec_boot_sector_valid(bytes@) {
                Some(spec_boot_sector(bytes@))
            } else {
                None::<BootSector>
            },
    {
        let b0 = bytes[0];
        let b1 = bytes[1];
        let b2 = bytes[2];
        assert((b2 as u32) << 16u32 == 0x10000 * b2 && (b1 as u32) << 8u32 == 0x100 * b1)
            by (bit_vector);
        let jump_instruction: u32 = ((b2 as u32) << 16) + ((b1 as u32) << 8) + b0 as u32;

        let oem_name: [u8; 8] = [bytes[3], bytes[4], bytes[5], bytes[6], bytes[7], bytes[8],
            bytes[9], bytes[10]];

        let ebpb = match EBPB::new(slice_subrange(bytes, 11, 509)) {
            Some(e) => e,
            None => {
                return None;
            },
        };
        let drive_number = bytes[509];
        if bytes[510] != 0x55 || bytes[511] != 0xAA {
            return None;
        }

        Some(BootSector { jump_instruction, oem_name, bpb: ebpb, drive_number })
    }
}

// Attribute bits of a short directory entry.
pub const READ_ONLY: u8 = 0b0000_0001;

pub const HIDDEN: u8 = 0b0000_0010;

pub const SYSTEM: u8 = 0b0000_0100;

pub const VOLUME_LABEL: u8 = 0b0000_1000;

pub const SUBDIRECTORY: u8 = 0b0001_0000;

pub const ARCHIVE: u8 = 0b0010_0000;

pub const DEVICE: u8 = 0b0100_0000;

pub const RESERVED: u8 = 0b1000_0000;

/// The attribute byte of a short directory entry, tested bit-wise against
/// the masks above.
#[derive(Debug, Clone, Copy, PartialEq, Eq, Structural)]
pub struct DirectoryEntryFlags {
    pub bits: u8,
}

impl DirectoryEntryFlags {
    /// True when every bit of `mask` is set.
    pub fn contains(&self, mask: u8) -> (r: bool)
        ensures
            r == (self.bits & mask == mask),
    {
        self.bits & mask == mask
    }
}

/// The UTF-16 code unit stored at offset `p` of a long-filename slot,
/// little-endian: the byte at `p` is the low half, the byte after it the
/// high half.
pub open spec fn spec_lfn_unit(b: Seq<u8>, p: int) -> u16 {
    (b[p] + 0x100 * b[p + 1]) as u16
}

/// The 13 code units of a long-filename slot, drawn from its three fixed
/// sub-ranges.
pub open spec fn spec_lfn_file_name(b: Seq<u8>) -> Seq<u16> {
    seq![
        spec_lfn_unit(b, 0x01),
        spec_lfn_unit(b, 0x03),
        spec_lfn_unit(b, 0x05),
        spec_lfn_unit(b, 0x07),
        spec_lfn_unit(b, 0x09),
        spec_lfn_unit(b, 0x0E),
        spec_lfn_unit(b, 0x10),
        spec_lfn_unit(b, 0x12),
        spec_lfn_unit(b, 0x14),
        spec_lfn_unit(b, 0x16),
        spec_lfn_unit(b, 0x18),
        spec_lfn_unit(b, 0x1C),
        spec_lfn_unit(b, 0x1E),
    ]
}

/// The filename fragment denoted by a sequence of UTF-16 code units: the
/// units up to the first zero, with every code point above 0x7F dropped —
/// never substituted — and each remaining unit read as its character.
pub open spec fn spec_lfn_name(units: Seq<u16>) -> Seq<char>
    decreases units.len(),
{
    if units.len() == 0 {
        Seq::empty()
    } else {
        let v = units[0];
        if v == 0 {
            Seq::empty()
        } else if v > 0x7F {
            spec_lfn_name(units.drop_first())
        } else {
            seq![(v as u8) as char] + spec_lfn_name(units.drop_first())
        }
    }
}

/// One long-filename slot: 13 UTF-16 code units drawn from its three fixed
/// sub-ranges.
#[derive(Debug, Clone, Copy, PartialEq, Eq)]
pub struct LfnEntry {
    pub file_name: [u16; 13],
}

/// Builds one code unit from its on-disk little-endian bytes.
fn lfn_code_unit(lo: u8, hi: u8) -> (r: u16)
    ensures
        r == lo + 0x100 * hi,
{
    assert((hi as u16) << 8u16 == 0x100 * hi) by (bit_vector);
    lo as u16 + ((hi as u16) << 8)
}

impl LfnEntry {
    /// Decodes a 32-byte long-filename slot; the attribute byte must already
    /// have identified it as one.
    pub fn new(bytes: &[u8]) -> (r: LfnEntry)
        requires
            bytes@.len() == 32,
            bytes@[0x0B] == 0x0F,
        ensures
            r.file_name@ == spec_lfn_file_name(bytes@),
    {
        let file_name: [u16; 13] = [
            lfn_code_unit(bytes[0x01], bytes[0x02]),
            lfn_code_unit(bytes[0x03], bytes[0x04]),
            lfn_code_unit(bytes[0x05], bytes[0x06]),
            lfn_code_unit(bytes[0x07], bytes[0x08]),
            lfn_code_unit(bytes[0x09], bytes[0x0A]),
            lfn_code_unit(bytes[0x0E], bytes[0x0F]),
            lfn_code_unit(bytes[0x10], bytes[0x11]),
            lfn_code_unit(bytes[0x12], bytes[0x13]),
            lfn_code_unit(bytes[0x14], bytes[0x15]),
            lfn_code_unit(bytes[0x16], bytes[0x17]),
            lfn_code_unit(bytes[0x18], bytes[0x19]),
            lfn_code_unit(bytes[0x1C], bytes[0x1D]),
            lfn_code_unit(bytes[0x1E], bytes[0x1F]),
        ];
        let r = LfnEntry { file_name };
        proof {
            assert(r.file_name@ =~= spec_lfn_file_name(bytes@));
        }
        r
    }

    /// The filename fragment carried by this slot, exactly as
    /// `spec_lfn_name` describes it.
    pub fn name(&self) -> (r: String)
        ensures
            r@ == spec_lfn_name(self.file_name@),
    {
        let ghost units = self.file_name@;
        let mut name = String::new();
        proof {
            assert(units.skip(0) =~= units);
            assert(name@ + spec_lfn_name(units) =~= spec_lfn_name(units));
        }
        let mut i: usize = 0;
        while i < 13
            invariant
                0 <= i <= 13,
                units == self.file_name@,
                units.len() == 13,
                spec_lfn_name(units) == name@ + spec_lfn_name(units.skip(i as int)),
            decreases 13 - i,
        {
            let cp = self.file_name[i];
            proof {
                assert(units.skip(i as int)[0] == units[i as int]);
                assert(units.skip(i as int).drop_first() =~= units.skip(i + 1));
            }
            if cp == 0 {
                proof {
                    assert(name@ + Seq::<char>::empty() =~= name@);
                }
                return name;
            }
            if cp <= 0x7F {
                let ghost pre = name@;
                let c = (cp as u8) as char;
                push_char(&mut name, c);
                proof {
                    assert(name@ =~= pre + seq![c]);
                    assert((pre + seq![c]) + spec_lfn_name(units.skip(i + 1)) =~= pre + (seq![c]
                        + spec_lfn_name(units.skip(i + 1))));
                }
            }
            i = i + 1;
        }
        proof {
            assert(units.skip(13) =~= Seq::<u16>::empty());
            assert(name@ + Seq::<char>::empty() =~= name@);
        }
        name
    }
}

/// A fragment whose code units all lie in 0x01..=0x7F decodes to exactly
/// those characters, in order: the name is reconstructed verbatim.
pub proof fn lemma_lfn_name_all_ascii(units: Seq<u16>)
    requires
        forall|i: int| 0 <= i < units.len() ==> 1 <= (#[trigger] units[i]) <= 0x7F,
    ensures
        spec_lfn_name(units) == Seq::new(units.len(), |i: int| (units[i] as u8) as char),
    decreases units.len(),
{
    if units.len() == 0 {
        assert(spec_lfn_name(units) =~= Seq::new(
            units.len(),
            |i: int| (units[i] as u8) as char,
        ));
    } else {
        lemma_lfn_name_all_ascii(units.drop_first());
        assert(spec_lfn_name(units) == seq![(units[0] as u8) as char] + spec_lfn_name(
            units.drop_first(),
        ));
        assert(spec_lfn_name(units) =~= Seq::new(
            units.len(),
            |i: int| (units[i] as u8) as char,
        ));
    }
}

/// A unit whose code point lies above 0x7F contributes nothing to the
/// decoded fragment: it is dropped, never substituted, and never a failure.
/// `i` is the unit's position; no terminator may precede it.
pub proof fn lemma_lfn_name_drops_high(units: Seq<u16>, i: int)
    requires
        0 <= i < units.len(),
        units[i] > 0x7F,
        forall|j: int| 0 <= j < i ==> (#[trigger] units[j]) != 0,
    ensures
        spec_lfn_name(units) == spec_lfn_name(units.remove(i)),
    decreases units.len(),
{
    if i == 0 {
        assert(units.remove(0) =~= units.drop_first());
    } else {
        assert(units.remove(i).drop_first() =~= units.drop_first().remove(i - 1));
        lemma_lfn_name_drops_high(units.drop_first(), i - 1);
        assert(units.remove(i)[0] == units[0]);
    }
}

/// Each byte read as the character with the same code point.
pub open spec fn spec_byte_chars(s: Seq<u8>) -> Seq<char> {
    Seq::new(s.len(), |i: int| s[i] as char)
}

/// The synthesized 8.3 name of a short entry: the 8 name bytes, a dot, then
/// the 3 extension bytes, with no padding trimmed.
pub open spec fn spec_short_name(name8: Seq<u8>, ext3: Seq<u8>) -> Seq<char> {
    spec_byte_chars(name8) + seq!['.'] + spec_byte_chars(ext3)
}

/// One short (8.3) directory entry.
#[derive(Debug, Clone, Copy, PartialEq, Eq)]
pub struct DirectoryEntry {
    pub file_name_bytes: [u8; 8],
    pub file_extension_bytes: [u8; 3],
    pub flags: DirectoryEntryFlags,
    pub cluster_num: u32,
    pub size: u32,
}

/// The field values denoted by a 32-byte short entry: name and extension
/// bytes verbatim, the attribute byte at offset 0x0B, the cluster number
/// split across the two little-endian halves at 0x14 and 0x1A (high half
/// shifted up 16 bits), and the size at 0x1C.
pub open spec fn spec_directory_entry(b: Seq<u8>) -> DirectoryEntry {
    DirectoryEntry {
        file_name_bytes: [b[0], b[1], b[2], b[3], b[4], b[5], b[6], b[7]],
        file_extension_bytes: [b[8], b[9], b[10]],
        flags: DirectoryEntryFlags { bits: b[0x0B] },
        cluster_num: (0x10000 * le_int(b.subrange(0x14, 0x16)) + le_int(
            b.subrange(0x1A, 0x1C),
        )) as u32,
        size: le_int(b.subrange(0x1C, 0x20)) as u32,
    }
}

impl DirectoryEntry {
    /// Decodes a 32-byte short entry.
    pub fn new(bytes: &[u8]) -> (r: DirectoryEntry)
        requires
            bytes@.len() == 32,
        ensures
            r == spec_directory_entry(bytes@),
    {
        let file_name_bytes: [u8; 8] = [bytes[0], bytes[1], bytes[2], bytes[3], bytes[4], bytes[5],
            bytes[6], bytes[7]];
        let file_extension_bytes: [u8; 3] = [bytes[8], bytes[9], bytes[10]];
        let flags = DirectoryEntryFlags { bits: bytes[0x0B] };

        let low_cluster_num = little_endian_to_int(slice_subrange(bytes, 0x1A, 0x1C));
        let high_cluster_num = little_endian_to_int(slice_subrange(bytes, 0x14, 0x16));
        proof {
            lemma_le_int_bound(bytes@.subrange(0x1A, 0x1C));
            lemma_le_int_bound(bytes@.subrange(0x14, 0x16));
            assert(crate::byte_util::pow256(0) == 1);
            assert(crate::byte_util::pow256(1) == 0x100);
            assert(crate::byte_util::pow256(2) == 0x10000);
        }
        assert(high_cluster_num <= 0xFFFF ==> (high_cluster_num << 16u32) == 0x10000
            * high_cluster_num) by (bit_vector);
        let cluster_num = (high_cluster_num << 16) + low_cluster_num;

        let size = little_endian_to_int(slice_subrange(bytes, 0x1C, 0x20));
        proof {
            lemma_le_int_bound(bytes@.subrange(0x1C, 0x20));
        }

        let r = DirectoryEntry { file_name_bytes, file_extension_bytes, flags, cluster_num, size };
        proof {
            assert(r.file_name_bytes@ =~= spec_directory_entry(bytes@).file_name_bytes@);
            assert(r.file_extension_bytes@ =~= spec_directory_entry(
                bytes@,
            ).file_extension_bytes@);
        }
        r
    }

    /// The synthesized 8.3 name, exactly as `spec_short_name` describes it.
    pub fn name(&self) -> (r: String)
        ensures
            r@ == spec_short_name(self.file_name_bytes@, self.file_extension_bytes@),
    {
        let mut name = String::new();

        let mut i: usize = 0;
        while i < 8
            invariant
                0 <= i <= 8,
                name@ =~= spec_byte_chars(self.file_name_bytes@.subrange(0, i as int)),
            decreases 8 - i,
        {
            push_char(&mut name, self.file_name_bytes[i] as char);
            proof {
                assert(name@ =~= spec_byte_chars(
                    self.file_name_bytes@.subrange(0, i + 1),
                ));
            }
            i = i + 1;
        }
        proof {
            assert(self.file_name_bytes@.subrange(0, 8) =~= self.file_name_bytes@);
        }

        push_char(&mut name, '.');

        let mut j: usize = 0;
        while j < 3
            invariant
                0 <= j <= 3,
                name@ =~= spec_byte_chars(self.file_name_bytes@) + seq!['.'] + spec_byte_chars(
                    self.file_extension_bytes@.subrange(0, j as int),
                ),
            decreases 3 - j,
        {
            push_char(&mut name, self.file_extension_bytes[j] as char);
            proof {
                assert(name@ =~= spec_byte_chars(self.file_name_bytes@) + seq!['.']
                    + spec_byte_chars(self.file_extension_bytes@.subrange(0, j + 1)));
            }
            j = j + 1;
        }
        proof {
            assert(self.file_extension_bytes@.subrange(0, 3) =~= self.file_extension_bytes@);
        }
        name
    }
}

/// Classification of one raw 32-byte directory slot.
#[derive(Debug)]
pub enum Entry {
    DirectoryEntry(DirectoryEntry),
    Lfn(LfnEntry),
    Last,
    Empty,
}

impl Entry {
    /// Classifies and decodes one 32-byte directory slot: byte 0 zero ends
    /// the directory, byte 0 0xE5 marks a freed slot, attribute byte 0x0F
    /// marks a long-filename fragment, and anything else is a short entry.
    pub fn new(bytes: &[u8]) -> (r: Entry)
        requires
            bytes@.len() == 32,
        ensures
            bytes@[0] == 0x00 ==> r is Last,
            bytes@[0] != 0x00 && bytes@[0] == 0xE5 ==> r is Empty,
            bytes@[0] != 0x00 && bytes@[0] != 0xE5 && bytes@[0x0B] == 0x0F ==> (r matches
                Entry::Lfn(e) && e.file_name@ == spec_lfn_file_name(bytes@)),
            bytes@[0] != 0x00 && bytes@[0] != 0xE5 && bytes@[0x0B] != 0x0F ==> (r matches
                Entry::DirectoryEntry(d) && d == spec_directory_entry(bytes@)),
    {
        match bytes[0x00] {
            0x00 => Entry::Last,
            0xE5 => Entry::Empty,
            _ => match bytes[0x0B] {
                0x0F => Entry::Lfn(LfnEntry::new(bytes)),
                _ => Entry::DirectoryEntry(DirectoryEntry::new(bytes)),
            },
        }
    }
}

/// A resolved item of a directory listing.
#[derive(Debug, Clone, PartialEq, Eq)]
pub enum DirectoryItem {
    File(File),
    Directory(Directory),
}

/// A resolved file: its name, first cluster and byte size.
#[derive(Debug, Clone, PartialEq, Eq)]
pub struct File {
    pub name: String,
    pub cluster: u32,
    pub size: u32,
}

/// A resolved subdirectory: its name and first cluster.
#[derive(Debug, Clone, PartialEq, Eq)]
pub struct Directory {
    pub name: String,
    pub cluster: u32,
}

/// Carrier for future per-file metadata; nothing is recorded yet.
pub struct FileInfo {}

/// A vector of `n` zero bytes.
fn zero_vec(n: usize) -> (v: Vec<u8>)
    ensures
        v@ == Seq::new(n as nat, |i: int| 0u8),
{
    let mut v: Vec<u8> = Vec::new();
    let mut i: usize = 0;
    while i < n
        invariant
            0 <= i <= n,
            v@ =~= Seq::new(i as nat, |j: int| 0u8),
        decreases n - i,
    {
        v.push(0);
        proof {
            assert(v@ =~= Seq::new((i + 1) as nat, |j: int| 0u8));
        }
        i = i + 1;
    }
    v
}

/// The bytes of a cluster: the concatenation of `count` consecutive blocks
/// of the device, starting at `first_block`.
pub open spec fn spec_cluster_content(disk: Seq<Seq<u8>>, first_block: int, count: nat) -> Seq<u8>
    decreases count,
{
    if count == 0 {
        Seq::empty()
    } else {
        spec_cluster_content(disk, first_block, (count - 1) as nat) + disk[first_block + count - 1]
    }
}

/// A run of whole 512-byte blocks concatenates to exactly 512 bytes per
/// block.
pub proof fn lemma_cluster_content_len(disk: Seq<Seq<u8>>, first_block: int, count: nat)
    requires
        forall|j: int| first_block <= j < first_block + count ==> (#[trigger] disk[j]).len() == 512,
    ensures
        spec_cluster_content(disk, first_block, count).len() == 512 * count,
    decreases count,
{
    if count > 0 {
        lemma_cluster_content_len(disk, first_block, (count - 1) as nat);
    }
}

/// How many bytes a window of `want` bytes at `off` can take from a span of
/// `avail` bytes: the request, truncated at the end of the span.
pub open spec fn spec_copy_count(avail: int, off: int, want: int) -> int {
    let left = if off >= avail {
        0
    } else {
        avail - off
    };
    if want < left {
        want
    } else {
        left
    }
}

/// A FAT32 volume over a block device, rooted at the partition's physical
/// start block. The boot-sector geometry is parsed once at construction and
/// immutable for the life of the volume.
pub struct Fat32<B> where B: BlockAccessor {
    pub block_storage: B,
    pub physical_start_block: u32,
    pub boot_sector: BootSector,
}

impl<B: BlockAccessor> Fat32<B> {
    /// Bytes held by one cluster.
    pub open spec fn spec_bytes_per_cluster(&self) -> int {
        512 * self.boot_sector.bpb.sectors_per_cluster
    }

    /// First block of the data region: partition start, then the reserved
    /// sectors, then two FAT copies. The multiplier 2 is fixed rather than
    /// read from the FAT-count field.
    pub open spec fn spec_data_start_block(&self) -> int {
        self.physical_start_block + self.boot_sector.bpb.reserved_logical_sectors + 2
            * self.boot_sector.bpb.sectors_per_fat
    }

    /// First block of cluster `cluster_num`; clusters are numbered from 2.
    pub open spec fn spec_cluster_first_block(&self, cluster_num: int) -> int {
        self.spec_data_start_block() + self.boot_sector.bpb.sectors_per_cluster * (cluster_num - 2)
    }

    /// Every block of cluster `cluster_num` lies on the device.
    pub open spec fn spec_cluster_in_range(&self, disk: Seq<Seq<u8>>, cluster_num: int) -> bool {
        self.spec_cluster_first_block(cluster_num) + self.boot_sector.bpb.sectors_per_cluster
            <= disk.len()
    }

    /// Every block of cluster `cluster_num` lies on the device and holds a
    /// full 512 bytes, so its content is meaningful.
    pub open spec fn spec_cluster_readable(&self, disk: Seq<Seq<u8>>, cluster_num: int) -> bool {
        &&& self.spec_cluster_in_range(disk, cluster_num)
        &&& forall|j: int|
            self.spec_cluster_first_block(cluster_num) <= j < self.spec_cluster_first_block(
                cluster_num,
            ) + self.boot_sector.bpb.sectors_per_cluster ==> (#[trigger] disk[j]).len() == 512
    }

    /// The content of cluster `cluster_num` on the device.
    pub open spec fn spec_cluster_bytes(&self, disk: Seq<Seq<u8>>, cluster_num: int) -> Seq<u8> {
        spec_cluster_content(
            disk,
            self.spec_cluster_first_block(cluster_num),
            self.boot_sector.bpb.sectors_per_cluster as nat,
        )
    }

    /// First block of the file allocation table.
    pub open spec fn spec_fat_start_block(&self) -> int {
        self.physical_start_block + self.boot_sector.bpb.reserved_logical_sectors
    }

    /// The block holding the 4-byte FAT entry of cluster `cluster_num`.
    pub open spec fn spec_fat_block(&self, cluster_num: int) -> int {
        self.spec_fat_start_block() + (4 * cluster_num) / 512
    }

    /// The raw FAT entry of cluster `cluster_num`: 4 little-endian bytes at
    /// offset `4 * cluster_num` within the FAT region.
    pub open spec fn spec_fat_entry(&self, disk: Seq<Seq<u8>>, cluster_num: int) -> int {
        le_int(
            disk[self.spec_fat_block(cluster_num)].subrange(
                (4 * cluster_num) % 512,
                (4 * cluster_num) % 512 + 4,
            ),
        )
    }

    /// The successor of `cluster_num` in its chain: none exactly when the
    /// raw FAT entry is zero, which this stack treats as end-of-chain.
    pub open spec fn spec_cluster_number_after(&self, disk: Seq<Seq<u8>>, cluster_num: int) -> Option<
        u32,
    > {
        if self.spec_fat_entry(disk, cluster_num) == 0 {
            None
        } else {
            Some(self.spec_fat_entry(disk, cluster_num) as u32)
        }
    }

    /// One productive stream transition: how a file cursor at `cluster`
    /// with `bytes_read` of `file_size` produced advances. The chunk is
    /// `min(512, file_size - bytes_read)` bytes; the cursor follows the
    /// FAT chain exactly when the new position is a cluster boundary.
    pub open spec fn spec_stream_step(
        &self,
        disk: Seq<Seq<u8>>,
        cluster: u32,
        bytes_read: u32,
        file_size: u32,
    ) -> (Option<u32>, u32)
        recommends
            bytes_read < file_size,
            self.boot_sector.bpb.sectors_per_cluster >= 1,
    {
        let bpc = 512 * self.boot_sector.bpb.sectors_per_cluster;
        let chunk: int = if file_size - bytes_read < 512 {
            file_size - bytes_read
        } else {
            512
        };
        let new_read = (bytes_read + chunk) as u32;
        let next_cluster = if new_read as int % bpc == 0 {
            self.spec_cluster_number_after(disk, cluster as int)
        } else {
            Some(cluster)
        };
        (next_cluster, new_read)
    }

    /// Iterating the stream transition from this cursor drains the current
    /// cluster: every step strictly advances and stays within the file
    /// size, every step before the last keeps the cursor on the cluster,
    /// and the last step lands exactly on the file size.
    pub open spec fn spec_stream_drains(
        &self,
        disk: Seq<Seq<u8>>,
        cluster: u32,
        bytes_read: u32,
        file_size: u32,
    ) -> bool
        decreases file_size - bytes_read,
        via Self::spec_stream_drains_decreases
    {
        bytes_read >= file_size || {
            let s = self.spec_stream_step(disk, cluster, bytes_read, file_size);
            &&& bytes_read < s.1 <= file_size
            &&& (s.1 < file_size ==> s.0 == Some(cluster) && self.spec_stream_drains(
                disk,
                cluster,
                s.1,
                file_size,
            ))
        }
    }

    #[via_fn]
    proof fn spec_stream_drains_decreases(
        &self,
        disk: Seq<Seq<u8>>,
        cluster: u32,
        bytes_read: u32,
        file_size: u32,
    ) {
    }

    /// A cursor whose remaining bytes lie within its cluster's remaining
    /// extent drains that cluster and no more: each transition yields a
    /// full or final chunk and stays on the cluster, and the last one
    /// lands exactly on the file size. When the final position is a
    /// cluster boundary the transition follows the FAT chain, so a last
    /// cluster — one whose raw FAT entry is zero — leaves no cursor behind
    /// and the stream terminates; `FileIterator::next` then leaves the
    /// exhausted cursor untouched and performs no further reads.
    pub proof fn lemma_last_cluster_drains(
        &self,
        disk: Seq<Seq<u8>>,
        cluster: u32,
        bytes_read: u32,
        file_size: u32,
    )
        requires
            self.boot_sector.bpb.sectors_per_cluster >= 1,
            bytes_read <= file_size,
            bytes_read % 512 == 0 || bytes_read == file_size,
            file_size - bytes_read <= self.spec_bytes_per_cluster() - (bytes_read as int
                % self.spec_bytes_per_cluster()),
        ensures
            self.spec_stream_drains(disk, cluster, bytes_read, file_size),
        decreases file_size - bytes_read,
    {
        let spc = self.boot_sector.bpb.sectors_per_cluster as int;
        let bpc = 512 * spc;
        if bytes_read < file_size {
            let s = self.spec_stream_step(disk, cluster, bytes_read, file_size);
            let chunk: int = if file_size - bytes_read < 512 {
                file_size - bytes_read
            } else {
                512
            };
            let br = bytes_read as int;
            let r = br % bpc;
            vstd::arithmetic::div_mod::lemma_fundamental_div_mod(br, bpc);
            let q = br / bpc;
            if s.1 < file_size {
                // a full 512-byte chunk that does not exhaust the file
                // cannot land on the cluster boundary: the remaining
                // extent was larger than the chunk
                assert(chunk == 512);
                assert((br + 512) % bpc == r + 512) by {
                    vstd::arithmetic::div_mod::lemma_mod_multiples_vanish(q, r + 512, bpc);
                    vstd::arithmetic::div_mod::lemma_small_mod((r + 512) as nat, bpc as nat);
                    assert(bpc * q + r + 512 == bpc * q + (r + 512));
                };
                assert(s.1 as int % bpc != 0);
                self.lemma_last_cluster_drains(disk, cluster, s.1, file_size);
            }
        }
    }

    /// The FAT chain from `cluster` covers the rest of the file: either
    /// the remaining bytes fit the current cluster's remaining extent, or
    /// the cluster's FAT entry lies on the device and names a valid
    /// successor whose chain covers what is left after this cluster.
    pub open spec fn spec_chain_covers(
        &self,
        disk: Seq<Seq<u8>>,
        cluster: u32,
        bytes_read: u32,
        file_size: u32,
    ) -> bool
        recommends
            self.boot_sector.bpb.sectors_per_cluster >= 1,
        decreases file_size - bytes_read,
        via Self::spec_chain_covers_decreases
    {
        bytes_read >= file_size || {
            let bpc = self.spec_bytes_per_cluster();
            let extent = bpc - (bytes_read as int % bpc);
            file_size - bytes_read <= extent || {
                &&& self.boot_sector.bpb.sectors_per_cluster >= 1
                &&& self.spec_fat_block(cluster as int) < disk.len()
                &&& (self.spec_cluster_number_after(disk, cluster as int) matches Some(c2) && c2
                    >= 2 && self.spec_chain_covers(disk, c2, (bytes_read + extent) as u32, file_size))
            }
        }
    }

    #[via_fn]
    proof fn spec_chain_covers_decreases(
        &self,
        disk: Seq<Seq<u8>>,
        cluster: u32,
        bytes_read: u32,
        file_size: u32,
    ) {
        let bpc = self.spec_bytes_per_cluster();
        if bpc > 0 {
            vstd::arithmetic::div_mod::lemma_mod_division_less_than_divisor(
                bytes_read as int,
                bpc,
            );
        }
    }

    /// Iterating the stream transition from this cursor runs to
    /// completion: every step strictly advances within the file size and
    /// hands the cursor a valid cluster while bytes remain, and the last
    /// step lands exactly on the file size — so the chunks of a completed
    /// stream concatenate to exactly the file's byte count.
    pub open spec fn spec_stream_completes(
        &self,
        disk: Seq<Seq<u8>>,
        cluster: u32,
        bytes_read: u32,
        file_size: u32,
    ) -> bool
        decreases file_size - bytes_read,
        via Self::spec_stream_completes_decreases
    {
        bytes_read >= file_size || {
            let s = self.spec_stream_step(disk, cluster, bytes_read, file_size);
            &&& bytes_read < s.1 <= file_size
            &&& (s.1 < file_size ==> (s.0 matches Some(c2) && c2 >= 2
                && self.spec_stream_completes(disk, c2, s.1, file_size)))
        }
    }

    #[via_fn]
    proof fn spec_stream_completes_decreases(
        &self,
        disk: Seq<Seq<u8>>,
        cluster: u32,
        bytes_read: u32,
        file_size: u32,
    ) {
    }

    /// A stream whose FAT chain covers the file runs to completion: from
    /// an aligned cursor, every transition yields a full or final chunk,
    /// crosses cluster boundaries along the chain, and the last one lands
    /// exactly on the file size. The concatenation of the yielded chunks
    /// therefore has length exactly `file_size - bytes_read`.
    pub proof fn lemma_covered_stream_completes(
        &self,
        disk: Seq<Seq<u8>>,
        cluster: u32,
        bytes_read: u32,
        file_size: u32,
    )
        requires
            self.boot_sector.bpb.sectors_per_cluster >= 1,
            cluster >= 2,
            bytes_read <= file_size,
            bytes_read % 512 == 0 || bytes_read == file_size,
            self.spec_chain_covers(disk, cluster, bytes_read, file_size),
        ensures
            self.spec_stream_completes(disk, cluster, bytes_read, file_size),
        decreases file_size - bytes_read,
    {
        let spc = self.boot_sector.bpb.sectors_per_cluster as int;
        let bpc = 512 * spc;
        if bytes_read < file_size {
            let s = self.spec_stream_step(disk, cluster, bytes_read, file_size);
            let br = bytes_read as int;
            let r = br % bpc;
            vstd::arithmetic::div_mod::lemma_fundamental_div_mod(br, bpc);
            vstd::arithmetic::div_mod::lemma_mod_division_less_than_divisor(br, bpc);
            let q = br / bpc;
            let extent = bpc - r;
            if s.1 < file_size {
                // mid-stream steps always produce a full 512-byte chunk,
                // and the cursor position stays 512-aligned
                assert(s.1 == br + 512);
                vstd::arithmetic::div_mod::lemma_fundamental_div_mod(br, 512);
                let a = br / 512;
                let k = a - spc * q;
                assert(r == 512 * k) by (nonlinear_arith)
                    requires
                        br == 512 * a,
                        bpc == 512 * spc,
                        br == bpc * q + r,
                        k == a - spc * q,
                ;
                assert(512 * k < 512 * spc ==> k <= spc - 1) by (nonlinear_arith);
                assert(k <= spc - 1 ==> 512 * k <= 512 * (spc - 1)) by (nonlinear_arith);
                assert(512 * (spc - 1) == bpc - 512) by (nonlinear_arith)
                    requires
                        bpc == 512 * spc,
                ;
                if r + 512 < bpc {
                    // the step stays inside the current cluster
                    assert((br + 512) % bpc == r + 512) by {
                        vstd::arithmetic::div_mod::lemma_mod_multiples_vanish(q, r + 512, bpc);
                        vstd::arithmetic::div_mod::lemma_small_mod((r + 512) as nat, bpc as nat);
                        assert(bpc * q + r + 512 == bpc * q + (r + 512));
                    };
                    assert(s.0 == Some(cluster));
                    self.lemma_covered_stream_completes(disk, cluster, s.1, file_size);
                } else {
                    // the step lands exactly on the cluster boundary: the
                    // remaining extent was 512, so coverage must continue
                    // through the FAT chain
                    assert(r + 512 == bpc);
                    assert((br + 512) % bpc == 0) by {
                        vstd::arithmetic::div_mod::lemma_mod_multiples_vanish(
                            q + 1,
                            0,
                            bpc,
                        );
                        assert(bpc * (q + 1) == bpc * q + bpc) by (nonlinear_arith);
                        assert(bpc * (q + 1) + 0 == br + 512);
                        vstd::arithmetic::div_mod::lemma_small_mod(0nat, bpc as nat);
                    };
                    assert(extent == 512);
                    assert(file_size - bytes_read > extent);
                    let c2 = self.spec_cluster_number_after(disk, cluster as int).unwrap();
                    assert(s.0 == Some(c2) && c2 >= 2);
                    assert(bytes_read + extent == s.1);
                    self.lemma_covered_stream_completes(disk, c2, s.1, file_size);
                }
            }
        }
    }

    /// The volume's geometry fields agree with `other`'s; reads leave them
    /// untouched.
    pub open spec fn spec_same_volume(&self, other: &Self) -> bool {
        &&& self.physical_start_block == other.physical_start_block
        &&& self.boot_sector == other.boot_sector
        &&& self.block_storage.spec_blocks() == other.block_storage.spec_blocks()
    }

    /// Builds a volume over `block_storage` rooted at
    /// `physical_start_block`: reads that block and parses it as a boot
    /// sector. Fails exactly when the boot sector is rejected (bad trailer
    /// or EBPB signature); no partially-built volume escapes.
    pub fn new(mut block_storage: B, physical_start_block: u32) -> (r: Option<Fat32<B>>)
        ensures
            r matches Some(f) ==> {
                &&& f.physical_start_block == physical_start_block
                &&& f.block_storage.spec_blocks() == block_storage.spec_blocks()
            },
            physical_start_block < block_storage.spec_blocks().len() ==> {
                let blk = block_storage.spec_blocks()[physical_start_block as int];
                &&& (r is Some <==> spec_boot_sector_valid(blk))
                &&& (r matches Some(f) ==> f.boot_sector == spec_boot_sector(blk))
            },
    {
        let mut block = zero_vec(512);
        block_storage.read_block(physical_start_block as u64, &mut block);
        let boot_sector = match BootSector::new(block.as_slice()) {
            Some(b) => b,
            None => {
                return None;
            },
        };

        Some(Fat32 { block_storage, physical_start_block, boot_sector })
    }

    /// Reads data from the given cluster into `result`, returning the number
    /// of bytes copied.
    ///
    /// The length of `result` sets the most that will be copied, starting at
    /// `byte_offset` within the cluster. A window that runs past the
    /// cluster's byte extent copies only what the cluster holds — fewer
    /// bytes than requested, never a failure, and never a write beyond the
    /// copied prefix. Cluster numbers start at 2.
    pub fn get_cluster(&mut self, cluster_num: u32, byte_offset: usize, result: &mut Vec<u8>) -> (count:
        usize)
        requires
            cluster_num >= 2,
        ensures
            final(self).spec_same_volume(old(self)),
            final(result)@.len() == old(result)@.len(),
            count == spec_copy_count(
                old(self).spec_bytes_per_cluster(),
                byte_offset as int,
                old(result)@.len() as int,
            ),
            forall|i: int|
                count <= i < final(result)@.len() ==> final(result)@[i] == old(result)@[i],
            old(self).spec_cluster_in_range(
                old(self).block_storage.spec_blocks(),
                cluster_num as int,
            ) ==> forall|i: int|
                0 <= i < count ==> final(result)@[i] == old(self).spec_cluster_bytes(
                    old(self).block_storage.spec_blocks(),
                    cluster_num as int,
                )[byte_offset + i],
    {
        let ghost disk = self.block_storage.spec_blocks();
        let spc: u64 = self.boot_sector.bpb.sectors_per_cluster as u64;

        let start_of_clusters_in_filesystem: u64 = self.physical_start_block as u64
            + self.boot_sector.bpb.reserved_logical_sectors as u64
            + self.boot_sector.bpb.sectors_per_fat as u64 * 2;

        let cluster_index: u64 = cluster_num as u64 - 2;
        assert(spc * cluster_index <= 255 * 0xFFFFFFFFu64) by (nonlinear_arith)
            requires
                spc <= 255,
                cluster_index <= 0xFFFFFFFFu64,
        ;
        let first_block_of_cluster: u64 = start_of_clusters_in_filesystem + spc * cluster_index;
        let ghost first = first_block_of_cluster as int;

        let mut out: Vec<u8> = Vec::new();
        let mut block = zero_vec(512);
        let mut block_num: u64 = first_block_of_cluster;
        while block_num < first_block_of_cluster + spc
            invariant
                first_block_of_cluster <= block_num <= first_block_of_cluster + spc,
                first == first_block_of_cluster as int,
                spc < 0x100,
                first + spc < 0x20000000000,
                block@.len() == 512,
                out@.len() == 512 * (block_num - first_block_of_cluster),
                self.block_storage.spec_blocks() == disk,
                self.physical_start_block == old(self).physical_start_block,
                self.boot_sector == old(self).boot_sector,
                first + spc <= disk.len() ==> out@ == spec_cluster_content(
                    disk,
                    first,
                    (block_num - first_block_of_cluster) as nat,
                ),
            decreases first_block_of_cluster + spc - block_num,
        {
            self.block_storage.read_block(block_num, &mut block);
            out.extend_from_slice(block.as_slice());
            block_num = block_num + 1;
        }

        let byte_count: usize = out.len();
        let avail: usize = if byte_offset >= byte_count {
            0
        } else {
            byte_count - byte_offset
        };
        let n: usize = if result.len() < avail {
            result.len()
        } else {
            avail
        };

        let mut position: usize = 0;
        while position < n
            invariant
                0 <= position <= n,
                n <= result@.len(),
                byte_count == out@.len(),
                n > 0 ==> byte_offset + n <= byte_count,
                result@.len() == old(result)@.len(),
                forall|i: int| 0 <= i < position ==> result@[i] == out@[byte_offset + i],
                forall|i: int| position <= i < result@.len() ==> result@[i] == old(result)@[i],
                self.block_storage.spec_blocks() == disk,
                self.physical_start_block == old(self).physical_start_block,
                self.boot_sector == old(self).boot_sector,
            decreases n - position,
        {
            let b = out[byte_offset + position];
            result[position] = b;
            position = position + 1;
        }

        n
    }

    /// Looks up the next cluster of the chain in the file allocation table.
    /// Returns `None` exactly when the raw 4-byte entry is zero, which this
    /// stack treats as end-of-chain; a present successor is never zero.
    /// Cluster numbers start at 2.
    pub fn cluster_number_after(&mut self, cluster_num: u32) -> (r: Option<u32>)
        requires
            cluster_num >= 2,
        ensures
            final(self).spec_same_volume(old(self)),
            r != Some(0u32),
            old(self).spec_fat_block(cluster_num as int) < old(
                self,
            ).block_storage.spec_blocks().len() ==> r == old(self).spec_cluster_number_after(
                old(self).block_storage.spec_blocks(),
                cluster_num as int,
            ),
    {
        let file_allocation_table_start_block: u64 = self.physical_start_block as u64
            + self.boot_sector.bpb.reserved_logical_sectors as u64;

        let entry_byte_position: u64 = cluster_num as u64 * BYTES_PER_CLUSTER_ENTRY;
        let block_num_for_cluster: u64 = file_allocation_table_start_block + entry_byte_position
            / (BYTES_PER_BLOCK as u64);

        let mut block = zero_vec(512);
        self.block_storage.read_block(block_num_for_cluster, &mut block);

        let c64: u64 = cluster_num as u64;
        assert((c64 * 4) % 512 <= 508 && (c64 * 4) / 512 <= 0x2000000 && c64 * 4 == 4 * c64)
            by (bit_vector)
            requires
                c64 <= 0xFFFFFFFFu64,
        ;
        let cluster_entry_offset: usize = (entry_byte_position % (BYTES_PER_BLOCK as u64)) as usize;

        let next_cluster = little_endian_to_int(
            slice_subrange(block.as_slice(), cluster_entry_offset, cluster_entry_offset + 4),
        );
        proof {
            lemma_le_int_bound(block@.subrange(
                cluster_entry_offset as int,
                cluster_entry_offset + 4,
            ));
        }

        if next_cluster == 0 {
            None
        } else {
            Some(next_cluster)
        }
    }

    /// Starts a scan over the directory slots held in one cluster. The scan
    /// is lazy, finite and not restartable, and does not follow the FAT
    /// chain across clusters.
    pub fn iter_contents_of_directory_cluster(&self, cluster_num: u32) -> (r: DirectoryIterator)
        ensures
            r.cluster == cluster_num,
            r.entry_in_cluster == 0,
    {
        DirectoryIterator::new(cluster_num)
    }

    /// The outcome of resolving `path` from position `start` against the
    /// directory held in `cluster`: empty segments are skipped; a segment
    /// with no selected item resolves to nothing; the final segment's
    /// selection is the result; a directory selected earlier is descended
    /// into, unless its cluster number lies below 2 (structural
    /// corruption, never followed).
    pub open spec fn spec_resolve_from(
        &self,
        disk: Seq<Seq<u8>>,
        path: Seq<char>,
        start: int,
        cluster: u32,
    ) -> Option<SpecDirItem>
        decreases path.len() - start,
        via Self::spec_resolve_from_decreases
    {
        if start < 0 || start > path.len() {
            None
        } else {
            let e = spec_seg_end(path, start);
            let is_final = e == path.len();
            if e == start {
                if is_final {
                    None
                } else {
                    self.spec_resolve_from(disk, path, e + 1, cluster)
                }
            } else {
                let name = path.subrange(start, e);
                match spec_find_in_items(
                    spec_dir_items_from(self.spec_cluster_bytes(disk, cluster as int), 0),
                    name,
                    is_final,
                ) {
                    None => None,
                    Some(m) => if is_final {
                        Some(m)
                    } else if m.cluster < 2 {
                        None
                    } else {
                        self.spec_resolve_from(disk, path, e + 1, m.cluster)
                    },
                }
            }
        }
    }

    #[via_fn]
    proof fn spec_resolve_from_decreases(
        &self,
        disk: Seq<Seq<u8>>,
        path: Seq<char>,
        start: int,
        cluster: u32,
    ) {
        if 0 <= start <= path.len() {
            lemma_spec_seg_end_bounds(path, start);
        }
    }

    /// Every directory cluster that resolving `path` from `start` walks
    /// through lies fully on the device, so the walk's outcome is
    /// meaningful.
    pub open spec fn spec_resolve_readable(
        &self,
        disk: Seq<Seq<u8>>,
        path: Seq<char>,
        start: int,
        cluster: u32,
    ) -> bool
        decreases path.len() - start,
        via Self::spec_resolve_readable_decreases
    {
        if start < 0 || start > path.len() {
            true
        } else {
            let e = spec_seg_end(path, start);
            let is_final = e == path.len();
            if e == start {
                if is_final {
                    true
                } else {
                    self.spec_resolve_readable(disk, path, e + 1, cluster)
                }
            } else {
                let name = path.subrange(start, e);
                self.spec_cluster_readable(disk, cluster as int) && match spec_find_in_items(
                    spec_dir_items_from(self.spec_cluster_bytes(disk, cluster as int), 0),
                    name,
                    is_final,
                ) {
                    None => true,
                    Some(m) => if is_final {
                        true
                    } else if m.cluster < 2 {
                        true
                    } else {
                        self.spec_resolve_readable(disk, path, e + 1, m.cluster)
                    },
                }
            }
        }
    }

    #[via_fn]
    proof fn spec_resolve_readable_decreases(
        &self,
        disk: Seq<Seq<u8>>,
        path: Seq<char>,
        start: int,
        cluster: u32,
    ) {
        if 0 <= start <= path.len() {
            lemma_spec_seg_end_bounds(path, start);
        }
    }

    /// Scans the directory held in `cluster` for the first item that a
    /// path segment selects: the item's name must equal `name`, and away
    /// from the final segment only a directory qualifies — a file of the
    /// same name is passed over. When the cluster's blocks all lie on the
    /// device, the result is exactly the selection `spec_find_in_items`
    /// makes over the cluster's listing.
    #[verifier::rlimit(100)]
    #[verifier::spinoff_prover]
    #[verifier::loop_isolation(false)]
    pub fn find_in_directory(&mut self, cluster: u32, name: &String, is_final: bool) -> (r: Option<
        DirectoryItem,
    >)
        requires
            cluster >= 2,
        ensures
            final(self).spec_same_volume(old(self)),
            ({
                let disk = old(self).block_storage.spec_blocks();
                let content = old(self).spec_cluster_bytes(disk, cluster as int);
                old(self).spec_cluster_readable(disk, cluster as int) ==> match spec_find_in_items(
                    spec_dir_items_from(content, 0),
                    name@,
                    is_final,
                ) {
                    None => r is None,
                    Some(m) => (r matches Some(it) && spec_item_matches(it, m)),
                }
            }),
    {
        let ghost disk = self.block_storage.spec_blocks();
        let ghost content = self.spec_cluster_bytes(disk, cluster as int);
        let ghost readable = self.spec_cluster_readable(disk, cluster as int);
        let spc = self.boot_sector.bpb.sectors_per_cluster;
        let mut it = DirectoryIterator::new(cluster);

        loop
            invariant
                it.cluster == cluster,
                cluster >= 2,
                spc == self.boot_sector.bpb.sectors_per_cluster,
                self.spec_same_volume(old(self)),
                disk == old(self).block_storage.spec_blocks(),
                content == old(self).spec_cluster_bytes(disk, cluster as int),
                readable == old(self).spec_cluster_readable(disk, cluster as int),
                readable ==> spec_find_in_items(spec_dir_items_from(content, 0), name@, is_final)
                    == spec_find_in_items(
                    spec_dir_items_from(content, it.entry_in_cluster as int),
                    name@,
                    is_final,
                ),
            decreases
                    (if 32 * (it.entry_in_cluster as int) + 32 > 512 * (spc as int) {
                        0int
                    } else {
                        512 * (spc as int) - 32 * it.entry_in_cluster
                    }),
        {
            let ghost pre_slot = it.entry_in_cluster as int;
            match it.next(self) {
                None => {
                    proof {
                        if readable {
                            assert(spec_dir_items_from(content, pre_slot)
                                =~= Seq::<SpecDirItem>::empty());
                        }
                    }
                    return None;
                },
                Some(item) => {
                    let matches_name = match &item {
                        DirectoryItem::Directory(d) => d.name == *name,
                        DirectoryItem::File(f) => f.name == *name,
                    };
                    let qualifies = match &item {
                        DirectoryItem::Directory(_) => matches_name,
                        DirectoryItem::File(_) => matches_name && is_final,
                    };
                    proof {
                        if readable {
                            let step = spec_dir_next(content, pre_slot, Seq::empty()).unwrap();
                            let items = spec_dir_items_from(content, pre_slot);
                            assert(items == seq![step.0] + spec_dir_items_from(content, step.1));
                            assert(items[0] == step.0);
                            assert(items.drop_first() =~= spec_dir_items_from(content, step.1));
                            assert(spec_item_matches(item, step.0));
                            assert(qualifies == (step.0.name == name@ && (is_final
                                || step.0.is_directory)));
                        }
                    }
                    if qualifies {
                        return Some(item);
                    }
                },
            }
        }
    }

    /// Resolves a '/'-separated path starting at the fixed root cluster 2.
    ///
    /// A path ending in '/' is rejected: files never end in '/'. Empty
    /// segments are skipped. A directory match that is not the final segment
    /// descends; a match at the final segment is returned; a segment with no
    /// match yields absence, indistinguishable from a malformed path. A
    /// directory record whose cluster number lies below 2 is structural
    /// corruption; resolution stops with absence rather than follow it.
    #[verifier::rlimit(100)]
    #[verifier::spinoff_prover]
    #[verifier::loop_isolation(false)]
    pub fn item_info(&mut self, path: &str) -> (r: Option<DirectoryItem>)
        ensures
            final(self).spec_same_volume(old(self)),
            path@.len() > 0 && path@.last() == '/' ==> r is None,
            ({
                let disk = old(self).block_storage.spec_blocks();
                (!(path@.len() > 0 && path@.last() == '/') && old(self).spec_resolve_readable(
                    disk,
                    path@,
                    0,
                    2,
                )) ==> match old(self).spec_resolve_from(disk, path@, 0, 2) {
                    None => r is None,
                    Some(m) => (r matches Some(it) && spec_item_matches(it, m)),
                }
            }),
    {
        let ghost disk = self.block_storage.spec_blocks();
        let ghost p = path@;

        // Start at the root directory
        let mut current_cluster: u32 = 2;

        let path_len = path.unicode_len();
        if path_len > 0 {
            if path.get_char(path_len - 1) == '/' {
                // Files don't end with '/'
                return None;
            }
        }

        let ghost walk_ok = self.spec_resolve_readable(disk, p, 0, 2);

        let mut seg_start: usize = 0;
        loop
            invariant
                current_cluster >= 2,
                seg_start <= path_len,
                path_len == p.len(),
                p == path@,
                !(p.len() > 0 && p.last() == '/'),
                self.spec_same_volume(old(self)),
                disk == old(self).block_storage.spec_blocks(),
                walk_ok == old(self).spec_resolve_readable(disk, p, 0, 2),
                walk_ok ==> old(self).spec_resolve_from(disk, p, 0, 2) == old(
                    self,
                ).spec_resolve_from(disk, p, seg_start as int, current_cluster),
                walk_ok ==> old(self).spec_resolve_readable(
                    disk,
                    p,
                    seg_start as int,
                    current_cluster,
                ),
            decreases path_len - seg_start,
        {
            let mut seg_end: usize = seg_start;
            while seg_end < path_len && path.get_char(seg_end) != '/'
                invariant
                    seg_start <= seg_end <= path_len,
                    spec_seg_end(p, seg_start as int) == spec_seg_end(p, seg_end as int),
                decreases path_len - seg_end,
            {
                seg_end = seg_end + 1;
            }
            proof {
                assert(spec_seg_end(p, seg_start as int) == seg_end);
            }
            let is_final_segment = seg_end == path_len;

            if seg_end > seg_start {
                let part = String::from_str(path.substring_char(seg_start, seg_end));
                let ghost items = spec_dir_items_from(
                    old(self).spec_cluster_bytes(disk, current_cluster as int),
                    0,
                );
                let ghost selection = spec_find_in_items(items, part@, is_final_segment);
                proof {
                    assert(self.spec_cluster_bytes(disk, current_cluster as int) == old(
                        self,
                    ).spec_cluster_bytes(disk, current_cluster as int));
                    assert(self.spec_cluster_readable(disk, current_cluster as int) == old(
                        self,
                    ).spec_cluster_readable(disk, current_cluster as int));
                    if walk_ok {
                        assert(old(self).spec_cluster_readable(disk, current_cluster as int));
                        if selection is Some {
                            lemma_spec_find_in_items_qualifies(items, part@, is_final_segment);
                        }
                        assert(old(self).spec_resolve_from(
                            disk,
                            p,
                            seg_start as int,
                            current_cluster,
                        ) == match selection {
                            None => None::<SpecDirItem>,
                            Some(m) => if is_final_segment {
                                Some(m)
                            } else if m.cluster < 2 {
                                None
                            } else {
                                old(self).spec_resolve_from(disk, p, seg_end + 1, m.cluster)
                            },
                        });
                    }
                }
                match self.find_in_directory(current_cluster, &part, is_final_segment) {
                    None => {
                        // No match for this segment anywhere in the
                        // directory: resolution fails.
                        return None;
                    },
                    Some(DirectoryItem::Directory(d)) => {
                        if is_final_segment {
                            return Some(DirectoryItem::Directory(d));
                        }
                        if d.cluster < 2 {
                            return None;
                        }
                        current_cluster = d.cluster;
                    },
                    Some(DirectoryItem::File(f)) => {
                        // the scan yields a file only at the final segment
                        return Some(DirectoryItem::File(f));
                    },
                }
            }

            if is_final_segment {
                // Only an empty final segment reaches this point: every
                // scanned final segment returned above.
                return None;
            }
            seg_start = seg_end + 1;
        }
    }

    /// Starts a byte stream over the content of `file`, beginning at its
    /// first cluster. The stream is lazy, finite and not restartable.
    pub fn iter_file(&self, file: File) -> (r: FileIterator)
        requires
            file.cluster >= 2,
        ensures
            r.cluster == Some(file.cluster),
            r.bytes_read == 0,
            r.file_size == file.size,
            r.wf(),
    {
        FileIterator { cluster: Some(file.cluster), bytes_read: 0, file_size: file.size }
    }
}

/// A file content cursor: the current cluster, how many bytes have been
/// produced so far, and the total file size. It advances across cluster
/// boundaries through the FAT chain.
#[derive(Debug, Clone, Copy, PartialEq, Eq, Structural)]
pub struct FileIterator {
    pub cluster: Option<u32>,
    pub bytes_read: u32,
    pub file_size: u32,
}

impl FileIterator {
    /// The cursor's alignment invariant: progress never passes the file
    /// size, and stops only at chunk boundaries or at the end of the file.
    pub open spec fn wf(&self) -> bool {
        &&& self.bytes_read <= self.file_size
        &&& (self.bytes_read % 512 == 0 || self.bytes_read == self.file_size)
    }

    /// Produces the next chunk of at most 512 bytes, or `None` once the
    /// whole file has been produced or the cluster chain has ended.
    ///
    /// An exhausted cursor (no current cluster, or all bytes produced) stays
    /// unchanged and performs no further device reads. A productive step
    /// yields exactly `min(512, file_size - bytes_read)` bytes — the
    /// cluster's remaining bytes are consumed before the chain advances —
    /// and follows the FAT chain exactly when the new position is a
    /// cluster boundary.
    pub fn next<B: BlockAccessor>(&mut self, fat32: &mut Fat32<B>) -> (r: Option<Vec<u8>>)
        requires
            old(self).wf(),
            old(self).cluster matches Some(c) ==> c >= 2,
            old(fat32).boot_sector.bpb.sectors_per_cluster >= 1,
        ensures
            final(fat32).spec_same_volume(old(fat32)),
            final(self).wf(),
            final(self).file_size == old(self).file_size,
            old(self).cluster is None ==> *final(self) == *old(self) && r is None,
            old(self).cluster is Some && old(self).bytes_read == old(self).file_size
                ==> *final(self) == *old(self) && r is None,
            (old(self).cluster is Some && old(self).bytes_read < old(self).file_size)
                ==> (r matches Some(chunk) && {
                let c = old(self).cluster->0;
                let disk = old(fat32).block_storage.spec_blocks();
                let chunk_len: int = if old(self).file_size - old(self).bytes_read < 512 {
                    old(self).file_size - old(self).bytes_read
                } else {
                    512
                };
                let new_read = old(self).bytes_read + chunk_len;
                let bpc = 512 * old(fat32).boot_sector.bpb.sectors_per_cluster;
                let off = old(self).bytes_read as int % bpc;
                &&& chunk@.len() == chunk_len
                &&& final(self).bytes_read == new_read
                &&& final(self).cluster != Some(0u32)
                &&& (new_read % bpc != 0 ==> final(self).cluster == old(self).cluster)
                &&& (new_read % bpc == 0 && old(fat32).spec_fat_block(c as int) < disk.len()
                    ==> final(self).cluster == old(fat32).spec_cluster_number_after(
                    disk,
                    c as int,
                ))
                &&& (old(fat32).spec_cluster_readable(disk, c as int) ==> chunk@ == old(
                    fat32,
                ).spec_cluster_bytes(disk, c as int).subrange(off, off + chunk_len))
                &&& ((new_read % bpc != 0 || old(fat32).spec_fat_block(c as int) < disk.len())
                    ==> (final(self).cluster, final(self).bytes_read) == old(
                    fat32,
                ).spec_stream_step(disk, c, old(self).bytes_read, old(self).file_size))
            }),
    {
        let spc: u8 = fat32.boot_sector.bpb.sectors_per_cluster;
        let bytes_per_cluster: u32 = spc as u32 * BYTES_PER_BLOCK;

        match self.cluster {
            None => None,
            Some(cluster_num) => {
                if self.file_size == self.bytes_read {
                    return None;
                }
                let bytes_left: u32 = self.file_size - self.bytes_read;
                let bytes_to_read: usize = if bytes_left < 512 {
                    bytes_left as usize
                } else {
                    512
                };

                let mut block = zero_vec(bytes_to_read);
                let offset: u32 = self.bytes_read % bytes_per_cluster;

                proof {
                    let bri = self.bytes_read as int;
                    let bpci = bytes_per_cluster as int;
                    vstd::arithmetic::div_mod::lemma_fundamental_div_mod(bri, bpci);
                    vstd::arithmetic::div_mod::lemma_fundamental_div_mod(bri, 512);
                    let q = bri / bpci;
                    let a = bri / 512;
                    let k = a - (spc as int) * q;
                    assert(offset as int == 512 * k) by (nonlinear_arith)
                        requires
                            bri == 512 * a,
                            bpci == 512 * (spc as int),
                            bri == bpci * q + (offset as int),
                            k == a - (spc as int) * q,
                    ;
                    assert(512 * k < 512 * (spc as int) ==> k <= (spc as int) - 1)
                        by (nonlinear_arith);
                    assert(k <= (spc as int) - 1 ==> 512 * k <= 512 * ((spc as int) - 1))
                        by (nonlinear_arith);
                    assert(512 * ((spc as int) - 1) == bpci - 512) by (nonlinear_arith)
                        requires
                            bpci == 512 * (spc as int),
                    ;
                    assert(offset + 512 <= bpci);
                }

                let bytes_read_count = fat32.get_cluster(
                    cluster_num,
                    offset as usize,
                    &mut block,
                );
                proof {
                    if fat32.spec_cluster_readable(
                        fat32.block_storage.spec_blocks(),
                        cluster_num as int,
                    ) {
                        lemma_cluster_content_len(
                            fat32.block_storage.spec_blocks(),
                            fat32.spec_cluster_first_block(cluster_num as int),
                            spc as nat,
                        );
                        assert(block@ =~= fat32.spec_cluster_bytes(
                            fat32.block_storage.spec_blocks(),
                            cluster_num as int,
                        ).subrange(offset as int, offset + bytes_to_read));
                    }
                }

                self.bytes_read = self.bytes_read + bytes_read_count as u32;

                if self.bytes_read % bytes_per_cluster == 0 {
                    self.cluster = fat32.cluster_number_after(cluster_num);
                }

                Some(block)
            },
        }
    }
}

/// Mathematical form of one resolved directory item: what a
/// `DirectoryItem` denotes, with the name as a character sequence.
pub ghost struct SpecDirItem {
    pub is_directory: bool,
    pub name: Seq<char>,
    pub cluster: u32,
    pub size: u32,
}

/// The next resolved item of a directory cluster, scanning 32-byte slots
/// from `slot` with the long-filename text `acc` accumulated so far: `None`
/// at the end marker (byte 0 zero) or past the cluster's end; freed slots
/// (byte 0 0xE5) discard the accumulated text; long-filename fragments
/// prepend their text (fragments are stored last-segment-first on disk); a
/// short entry yields the item and the slot after it.
#[verifier::opaque]
pub open spec fn spec_dir_next(data: Seq<u8>, slot: int, acc: Seq<char>) -> Option<
    (SpecDirItem, int),
>
    decreases
            (if 0 <= slot && 32 * slot < data.len() {
                data.len() - 32 * slot
            } else {
                0
            }),
{
    if slot < 0 || 32 * slot + 32 > data.len() {
        None
    } else {
        let e = data.subrange(32 * slot, 32 * slot + 32);
        if e[0] == 0x00 {
            None
        } else if e[0] == 0xE5 {
            spec_dir_next(data, slot + 1, Seq::empty())
        } else if e[0x0B] == 0x0F {
            spec_dir_next(data, slot + 1, spec_lfn_name(spec_lfn_file_name(e)) + acc)
        } else {
            let de = spec_directory_entry(e);
            let name = if acc.len() == 0 {
                spec_short_name(de.file_name_bytes@, de.file_extension_bytes@)
            } else {
                acc
            };
            Some(
                (
                    SpecDirItem {
                        is_directory: de.flags.bits & SUBDIRECTORY == SUBDIRECTORY,
                        name,
                        cluster: de.cluster_num,
                        size: de.size,
                    },
                    slot + 1,
                ),
            )
        }
    }
}

/// The slot at `slot` is a long-filename fragment: not an end marker, not
/// freed, attribute byte 0x0F.
pub open spec fn spec_slot_is_lfn(data: Seq<u8>, slot: int) -> bool {
    let e = data.subrange(32 * slot, 32 * slot + 32);
    e[0] != 0x00 && e[0] != 0xE5 && e[0x0B] == 0x0F
}

/// The slot at `slot` is a short entry: not an end marker, not freed, not
/// a long-filename fragment.
pub open spec fn spec_slot_is_short(data: Seq<u8>, slot: int) -> bool {
    let e = data.subrange(32 * slot, 32 * slot + 32);
    e[0] != 0x00 && e[0] != 0xE5 && e[0x0B] != 0x0F
}

/// The fragment text carried by the long-filename slot at `slot`.
pub open spec fn spec_slot_fragment_text(data: Seq<u8>, slot: int) -> Seq<char> {
    spec_lfn_name(spec_lfn_file_name(data.subrange(32 * slot, 32 * slot + 32)))
}

/// The name assembled by a run of `k` long-filename slots starting at
/// `slot`: each fragment is prepended to the text gathered so far, so
/// fragments stored last-segment-first on disk come out in logical order.
pub open spec fn spec_lfn_run_name(data: Seq<u8>, slot: int, k: int) -> Seq<char>
    decreases k,
{
    if k <= 0 {
        Seq::empty()
    } else {
        spec_lfn_run_name(data, slot + 1, k - 1) + spec_slot_fragment_text(data, slot)
    }
}

/// Scanning across a run of `k` long-filename fragments prepends the run's
/// assembled name to whatever text was already gathered.
proof fn lemma_lfn_run_accumulates(data: Seq<u8>, slot: int, k: int, acc: Seq<char>)
    requires
        0 <= slot,
        0 <= k,
        32 * (slot + k) + 32 <= data.len(),
        forall|j: int| slot <= j < slot + k ==> spec_slot_is_lfn(data, j),
    ensures
        spec_dir_next(data, slot, acc) == spec_dir_next(
            data,
            slot + k,
            spec_lfn_run_name(data, slot, k) + acc,
        ),
    decreases k,
{
    reveal(spec_dir_next);
    if k <= 0 {
        assert(spec_lfn_run_name(data, slot, k) + acc =~= acc);
    } else {
        assert(spec_slot_is_lfn(data, slot));
        let t = spec_slot_fragment_text(data, slot);
        assert(spec_dir_next(data, slot, acc) == spec_dir_next(data, slot + 1, t + acc));
        lemma_lfn_run_accumulates(data, slot + 1, k - 1, t + acc);
        assert(spec_lfn_run_name(data, slot + 1, k - 1) + (t + acc) =~= (spec_lfn_run_name(
            data,
            slot + 1,
            k - 1,
        ) + t) + acc);
    }
}

/// A run of `k` long-filename fragments followed by one short entry yields
/// exactly one item: its name is the fragments' text assembled in logical
/// order — the synthesized 8.3 name is used only when that text is empty —
/// its other fields come from the short entry, and the scan resumes at the
/// slot after it. Together with `lemma_lfn_name_all_ascii`, a run whose
/// code units all lie in 0x01..=0x7F reconstructs the exact long name.
pub proof fn lemma_lfn_run_then_short_entry(data: Seq<u8>, slot: int, k: int)
    requires
        0 <= slot,
        0 <= k,
        32 * (slot + k) + 32 <= data.len(),
        forall|j: int| slot <= j < slot + k ==> spec_slot_is_lfn(data, j),
        spec_slot_is_short(data, slot + k),
    ensures
        ({
            let de = spec_directory_entry(data.subrange(32 * (slot + k), 32 * (slot + k) + 32));
            let run = spec_lfn_run_name(data, slot, k);
            let name = if run.len() == 0 {
                spec_short_name(de.file_name_bytes@, de.file_extension_bytes@)
            } else {
                run
            };
            spec_dir_next(data, slot, Seq::empty()) == Some(
                (
                    SpecDirItem {
                        is_directory: de.flags.bits & SUBDIRECTORY == SUBDIRECTORY,
                        name,
                        cluster: de.cluster_num,
                        size: de.size,
                    },
                    slot + k + 1,
                ),
            )
        }),
{
    lemma_lfn_run_accumulates(data, slot, k, Seq::empty());
    let run = spec_lfn_run_name(data, slot, k);
    assert(run + Seq::<char>::empty() =~= run);
    reveal(spec_dir_next);
    assert(spec_slot_is_short(data, slot + k));
}

/// A productive scan step lands strictly further into the cluster, within
/// its slot count.
pub proof fn lemma_spec_dir_next_advances(data: Seq<u8>, slot: int, acc: Seq<char>)
    requires
        spec_dir_next(data, slot, acc) is Some,
    ensures
        0 <= slot,
        32 * slot + 32 <= data.len(),
        slot < spec_dir_next(data, slot, acc).unwrap().1,
        32 * spec_dir_next(data, slot, acc).unwrap().1 <= data.len(),
    decreases
            (if 0 <= slot && 32 * slot < data.len() {
                data.len() - 32 * slot
            } else {
                0
            }),
{
    reveal(spec_dir_next);
    let e = data.subrange(32 * slot, 32 * slot + 32);
    if e[0] == 0x00 {
    } else if e[0] == 0xE5 {
        lemma_spec_dir_next_advances(data, slot + 1, Seq::empty());
    } else if e[0x0B] == 0x0F {
        lemma_spec_dir_next_advances(data, slot + 1, spec_lfn_name(spec_lfn_file_name(e)) + acc);
    }
}

/// Every item a slot scan yields from `slot` to the end of the directory,
/// in disk order: the items of `spec_dir_next`, chained.
pub open spec fn spec_dir_items_from(data: Seq<u8>, slot: int) -> Seq<SpecDirItem>
    decreases
            (if 0 <= slot && 32 * slot < data.len() {
                data.len() - 32 * slot
            } else {
                0
            }),
    via spec_dir_items_from_decreases
{
    match spec_dir_next(data, slot, Seq::empty()) {
        None => Seq::empty(),
        Some(step) => seq![step.0] + spec_dir_items_from(data, step.1),
    }
}

#[via_fn]
proof fn spec_dir_items_from_decreases(data: Seq<u8>, slot: int) {
    if spec_dir_next(data, slot, Seq::empty()) is Some {
        lemma_spec_dir_next_advances(data, slot, Seq::empty());
    }
}

/// An end marker yields nothing: the listing from a slot whose first byte
/// is zero is empty.
pub proof fn lemma_dir_items_stop_at_end_marker(data: Seq<u8>, slot: int)
    requires
        0 <= slot,
        32 * slot + 32 <= data.len(),
        data[32 * slot] == 0,
    ensures
        spec_dir_items_from(data, slot).len() == 0,
{
    reveal(spec_dir_next);
    assert(data.subrange(32 * slot, 32 * slot + 32)[0] == data[32 * slot]);
}

/// One scan step never looks past the first end marker: on data that
/// agrees up to and including the marker's slot, the step is the same.
proof fn lemma_dir_next_ignores_beyond_marker(
    data: Seq<u8>,
    trunc: Seq<u8>,
    marker: int,
    slot: int,
    acc: Seq<char>,
)
    requires
        0 <= slot <= marker,
        32 * marker + 32 <= data.len(),
        data[32 * marker] == 0,
        trunc == data.subrange(0, 32 * marker + 32),
    ensures
        spec_dir_next(data, slot, acc) == spec_dir_next(trunc, slot, acc),
    decreases marker - slot,
{
    reveal(spec_dir_next);
    assert(data.subrange(32 * slot, 32 * slot + 32) =~= trunc.subrange(
        32 * slot,
        32 * slot + 32,
    ));
    let e = data.subrange(32 * slot, 32 * slot + 32);
    if slot == marker {
        assert(e[0] == data[32 * marker]);
    } else {
        if e[0] == 0x00 {
        } else if e[0] == 0xE5 {
            lemma_dir_next_ignores_beyond_marker(data, trunc, marker, slot + 1, Seq::empty());
        } else if e[0x0B] == 0x0F {
            lemma_dir_next_ignores_beyond_marker(
                data,
                trunc,
                marker,
                slot + 1,
                spec_lfn_name(spec_lfn_file_name(e)) + acc,
            );
        }
    }
}

/// No item from beyond the first end marker is ever yielded: the whole
/// listing is unchanged when everything past the marker's slot is cut
/// away.
pub proof fn lemma_dir_items_ignore_beyond_marker(data: Seq<u8>, marker: int, slot: int)
    requires
        0 <= slot <= marker,
        32 * marker + 32 <= data.len(),
        data[32 * marker] == 0,
    ensures
        spec_dir_items_from(data, slot) == spec_dir_items_from(
            data.subrange(0, 32 * marker + 32),
            slot,
        ),
    decreases marker - slot,
{
    let trunc = data.subrange(0, 32 * marker + 32);
    lemma_dir_next_ignores_beyond_marker(data, trunc, marker, slot, Seq::empty());
    match spec_dir_next(data, slot, Seq::empty()) {
        None => {
        },
        Some(step) => {
            lemma_spec_dir_next_advances(data, slot, Seq::empty());
            if step.1 <= marker {
                lemma_dir_items_ignore_beyond_marker(data, marker, step.1);
            } else {
                // the short entry sat exactly at the marker's slot, which
                // is impossible: the marker's first byte is zero
                reveal(spec_dir_next);
                lemma_dir_next_step_stays_at_or_before_marker(data, marker, slot, Seq::empty());
            }
        },
    }
}

/// A productive step taken at or before the marker lands at or before the
/// slot after the marker, and never returns an item from the marker's own
/// slot.
proof fn lemma_dir_next_step_stays_at_or_before_marker(
    data: Seq<u8>,
    marker: int,
    slot: int,
    acc: Seq<char>,
)
    requires
        0 <= slot <= marker,
        32 * marker + 32 <= data.len(),
        data[32 * marker] == 0,
        spec_dir_next(data, slot, acc) is Some,
    ensures
        spec_dir_next(data, slot, acc).unwrap().1 <= marker,
    decreases marker - slot,
{
    reveal(spec_dir_next);
    let e = data.subrange(32 * slot, 32 * slot + 32);
    assert(e[0] == data[32 * slot]);
    if slot == marker {
    } else {
        if e[0] == 0xE5 {
            lemma_dir_next_step_stays_at_or_before_marker(data, marker, slot + 1, Seq::empty());
        } else if e[0x0B] == 0x0F {
            lemma_dir_next_step_stays_at_or_before_marker(
                data,
                marker,
                slot + 1,
                spec_lfn_name(spec_lfn_file_name(e)) + acc,
            );
        }
    }
}

/// The first item of a listing that a path segment selects: its name must
/// match, and away from the final segment only a directory qualifies —
/// a file of the same name is passed over.
pub open spec fn spec_find_in_items(
    items: Seq<SpecDirItem>,
    name: Seq<char>,
    is_final: bool,
) -> Option<SpecDirItem>
    decreases items.len(),
{
    if items.len() == 0 {
        None
    } else if items[0].name == name && (is_final || items[0].is_directory) {
        Some(items[0])
    } else {
        spec_find_in_items(items.drop_first(), name, is_final)
    }
}

/// The position of the first '/' at or after `i`, or the end of the path.
pub open spec fn spec_seg_end(s: Seq<char>, i: int) -> int
    decreases s.len() - i,
{
    if i < 0 || i >= s.len() {
        s.len() as int
    } else if s[i] == '/' {
        i
    } else {
        spec_seg_end(s, i + 1)
    }
}

/// A segment never ends before it starts, nor past the path.
pub proof fn lemma_spec_seg_end_bounds(s: Seq<char>, i: int)
    requires
        0 <= i <= s.len(),
    ensures
        i <= spec_seg_end(s, i) <= s.len(),
    decreases s.len() - i,
{
    if i < s.len() && s[i] != '/' {
        lemma_spec_seg_end_bounds(s, i + 1);
    }
}

/// A selected item always satisfies the selection rule: its name matches,
/// and away from the final segment it is a directory.
pub proof fn lemma_spec_find_in_items_qualifies(
    items: Seq<SpecDirItem>,
    name: Seq<char>,
    is_final: bool,
)
    requires
        spec_find_in_items(items, name, is_final) is Some,
    ensures
        ({
            let m = spec_find_in_items(items, name, is_final).unwrap();
            m.name == name && (is_final || m.is_directory)
        }),
    decreases items.len(),
{
    if items.len() > 0 && !(items[0].name == name && (is_final || items[0].is_directory)) {
        lemma_spec_find_in_items_qualifies(items.drop_first(), name, is_final);
    }
}

/// The executable item denotes the mathematical one.
pub open spec fn spec_item_matches(it: DirectoryItem, m: SpecDirItem) -> bool {
    match it {
        DirectoryItem::Directory(d) => {
            &&& m.is_directory
            &&& d.name@ == m.name
            &&& d.cluster == m.cluster
        },
        DirectoryItem::File(f) => {
            &&& !m.is_directory
            &&& f.name@ == m.name
            &&& f.cluster == m.cluster
            &&& f.size == m.size
        },
    }
}

/// Reads one 32-byte directory slot of a cluster through `get_cluster`.
/// A slot past the cluster's extent never arises: the caller stops first.
fn read_dir_slot<B: BlockAccessor>(fat32: &mut Fat32<B>, cluster: u32, cluster_offset: usize) -> (out:
    Vec<u8>)
    requires
        cluster >= 2,
        cluster_offset + 32 <= 512 * old(fat32).boot_sector.bpb.sectors_per_cluster,
    ensures
        final(fat32).spec_same_volume(old(fat32)),
        out@.len() == 32,
        ({
            let disk = old(fat32).block_storage.spec_blocks();
            old(fat32).spec_cluster_readable(disk, cluster as int) ==> out@ == old(
                fat32,
            ).spec_cluster_bytes(disk, cluster as int).subrange(
                cluster_offset as int,
                cluster_offset + 32,
            )
        }),
{
    let mut entry_bytes = zero_vec(32);
    let count = fat32.get_cluster(cluster, cluster_offset, &mut entry_bytes);
    proof {
        let disk = fat32.block_storage.spec_blocks();
        if fat32.spec_cluster_readable(disk, cluster as int) {
            lemma_cluster_content_len(
                disk,
                fat32.spec_cluster_first_block(cluster as int),
                fat32.boot_sector.bpb.sectors_per_cluster as nat,
            );
            assert(count == 32);
            assert(entry_bytes@ =~= fat32.spec_cluster_bytes(disk, cluster as int).subrange(
                cluster_offset as int,
                cluster_offset + 32,
            ));
        }
    }
    entry_bytes
}

/// A lazy, finite, non-restartable scan over the directory slots of one
/// cluster. It does not follow the FAT chain across clusters.
#[derive(Debug, Clone, Copy, PartialEq, Eq, Structural)]
pub struct DirectoryIterator {
    pub cluster: u32,
    pub entry_in_cluster: u32,
}

impl DirectoryIterator {
    /// A fresh scan positioned at the first slot of `cluster`.
    pub fn new(cluster: u32) -> (r: DirectoryIterator)
        ensures
            r.cluster == cluster,
            r.entry_in_cluster == 0,
    {
        DirectoryIterator { cluster, entry_in_cluster: 0 }
    }

    /// Produces the next resolved item of the cluster, merging any
    /// preceding long-filename fragments into its name, or `None` at the end
    /// marker or the end of the cluster. When the cluster's blocks all lie
    /// on the device, the result is exactly what `spec_dir_next` denotes.
    #[verifier::rlimit(100)]
    #[verifier::spinoff_prover]
    #[verifier::loop_isolation(false)]
    pub fn next<B: BlockAccessor>(&mut self, fat32: &mut Fat32<B>) -> (r: Option<DirectoryItem>)
        requires
            old(self).cluster >= 2,
        ensures
            final(fat32).spec_same_volume(old(fat32)),
            final(self).cluster == old(self).cluster,
            final(self).entry_in_cluster >= old(self).entry_in_cluster,
            r is Some ==> final(self).entry_in_cluster > old(self).entry_in_cluster,
            r is Some ==> 32 * old(self).entry_in_cluster + 32 <= 512 * old(
                fat32,
            ).boot_sector.bpb.sectors_per_cluster && 32 * final(self).entry_in_cluster <= 512 * old(
                fat32,
            ).boot_sector.bpb.sectors_per_cluster,
            ({
                let disk = old(fat32).block_storage.spec_blocks();
                let content = old(fat32).spec_cluster_bytes(disk, old(self).cluster as int);
                old(fat32).spec_cluster_readable(disk, old(self).cluster as int) ==> match spec_dir_next(
                    content,
                    old(self).entry_in_cluster as int,
                    Seq::<char>::empty(),
                ) {
                    None => r is None,
                    Some(step) => (r matches Some(item) && spec_item_matches(item, step.0)
                        && final(self).entry_in_cluster == step.1),
                }
            }),
    {
        let spc: u8 = fat32.boot_sector.bpb.sectors_per_cluster;
        let bytes_per_cluster: u64 = (spc as u64) * 512;
        let ghost disk = fat32.block_storage.spec_blocks();
        let ghost content = fat32.spec_cluster_bytes(disk, old(self).cluster as int);
        let ghost start_slot = self.entry_in_cluster as int;
        let ghost readable = fat32.spec_cluster_readable(disk, old(self).cluster as int);

        proof {
            if readable {
                lemma_cluster_content_len(
                    disk,
                    fat32.spec_cluster_first_block(old(self).cluster as int),
                    spc as nat,
                );
            }
        }

        let mut item_name = String::new();

        loop
            invariant
                self.cluster == old(self).cluster,
                self.cluster >= 2,
                spc == fat32.boot_sector.bpb.sectors_per_cluster,
                bytes_per_cluster == 512 * spc,
                fat32.spec_same_volume(old(fat32)),
                disk == fat32.block_storage.spec_blocks(),
                content == fat32.spec_cluster_bytes(disk, old(self).cluster as int),
                readable == fat32.spec_cluster_readable(disk, old(self).cluster as int),
                readable ==> content.len() == bytes_per_cluster,
                readable ==> spec_dir_next(content, start_slot, Seq::<char>::empty())
                    == spec_dir_next(content, self.entry_in_cluster as int, item_name@),
                self.entry_in_cluster >= start_slot,
                self.entry_in_cluster > start_slot ==> 32 * start_slot + 32 <= bytes_per_cluster
                    && 32 * self.entry_in_cluster <= bytes_per_cluster,
            decreases
                    (if 32 * (self.entry_in_cluster as int) + 32 > bytes_per_cluster {
                        0int
                    } else {
                        bytes_per_cluster - 32 * self.entry_in_cluster
                    }),
        {
            let cluster_offset_u64: u64 = (self.entry_in_cluster as u64)
                * (BYTES_PER_DIRECTORY_ENTRY as u64);
            if cluster_offset_u64 + 32 > bytes_per_cluster {
                // Past the cluster's byte extent: the scan ends here.
                proof {
                    if readable {
                        reveal(spec_dir_next);
                        assert(spec_dir_next(content, self.entry_in_cluster as int, item_name@)
                            is None);
                    }
                }
                return None;
            }
            let cluster_offset: usize = cluster_offset_u64 as usize;
            let ghost slot = self.entry_in_cluster as int;
            let ghost acc = item_name@;
            self.entry_in_cluster = self.entry_in_cluster + 1;

            let entry_bytes = read_dir_slot(fat32, self.cluster, cluster_offset);
            let ghost e = content.subrange(32 * slot, 32 * slot + 32);
            proof {
                if readable {
                    assert(entry_bytes@ == e);
                }
            }

            match Entry::new(entry_bytes.as_slice()) {
                Entry::Lfn(lfn) => {
                    let fragment = lfn.name();
                    item_name = fragment.concat(item_name.as_str());
                    proof {
                        if readable {
                            reveal(spec_dir_next);
                            assert(e[0] != 0x00 && e[0] != 0xE5 && e[0x0B] == 0x0F);
                            assert(item_name@ == spec_lfn_name(spec_lfn_file_name(e)) + acc);
                            assert(spec_dir_next(content, slot, acc) == spec_dir_next(
                                content,
                                slot + 1,
                                item_name@,
                            ));
                        }
                    }
                },
                Entry::DirectoryEntry(de) => {
                    if item_name.as_str().unicode_len() == 0 {
                        item_name = de.name();
                    }
                    proof {
                        if readable {
                            reveal(spec_dir_next);
                            assert(e[0] != 0x00 && e[0] != 0xE5 && e[0x0B] != 0x0F);
                            assert(de == spec_directory_entry(e));
                            let step = spec_dir_next(content, slot, acc).unwrap();
                            assert(step.1 == slot + 1);
                            assert(item_name@ == step.0.name);
                        }
                    }
                    if de.flags.contains(SUBDIRECTORY) {
                        return Some(
                            DirectoryItem::Directory(
                                Directory { name: item_name, cluster: de.cluster_num },
                            ),
                        );
                    } else {
                        return Some(
                            DirectoryItem::File(
                                File { name: item_name, cluster: de.cluster_num, size: de.size },
                            ),
                        );
                    }
                },
                Entry::Empty => {
                    item_name = String::new();
                    proof {
                        if readable {
                            reveal(spec_dir_next);
                            assert(e[0] != 0x00 && e[0] == 0xE5);
                            assert(spec_dir_next(content, slot, acc) == spec_dir_next(
                                content,
                                slot + 1,
                                item_name@,
                            ));
                        }
                    }
                },
                Entry::Last => {
                    proof {
                        if readable {
                            reveal(spec_dir_next);
                            assert(e[0] == 0x00);
                            assert(spec_dir_next(content, slot, acc) is None);
                        }
                    }
                    return None;
                },
            }
        }
    }
}

} // verus!
