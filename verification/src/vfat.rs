//! The VFAT file system: its boot sector, its directory entries, and its chains of clusters.

use vstd::prelude::*;
use vstd::utf8::{decode_utf8, valid_utf8};
use crate::boot_info::str_from_utf8;
use vstd::string::{StrSliceExecFns, StringExecFns};
use crate::fs::{DirectoryEntry, FileSystem};
use crate::io::BlockReader;

verus! {

/// The size of a sector, in bytes.
pub const SECTOR_SIZE: usize = 512;
/// The number of directory entries in a sector.
pub const ENTRIES_PER_SECTOR: usize = 16;
/// Cluster numbers from this one up end a chain.
pub const MAX_CLUSTER_INDEX: u32 = 0xFFF8;
/// The cluster number that marks a bad cluster.
pub const BAD_CLUSTER_INDEX: u32 = 0xFFF7;

/// The little-endian value of two bytes.
pub open spec fn le16(b0: u8, b1: u8) -> int {
    b0 as int + 256 * (b1 as int)
}

/// The little-endian value of four bytes.
pub open spec fn le32(b0: u8, b1: u8, b2: u8, b3: u8) -> int {
    b0 as int + 256 * (b1 as int) + 65536 * (b2 as int) + 16777216 * (b3 as int)
}

pub fn read_le16(b0: u8, b1: u8) -> (r: usize)
    ensures
        r == le16(b0, b1),
{
    (b0 as usize) + 256 * (b1 as usize)
}

pub fn read_le32(b0: u8, b1: u8, b2: u8, b3: u8) -> (r: u32)
    ensures
        r == le32(b0, b1, b2, b3),
{
    (b0 as u32) + 256 * (b1 as u32) + 65536 * (b2 as u32) + 16777216 * (b3 as u32)
}

/// The boot sector of a VFAT partition, as its 512 bytes.
pub struct VfatBootSector {
    raw: [u8; 512],
}

impl View for VfatBootSector {
    type V = Seq<u8>;

    closed spec fn view(&self) -> Seq<u8> {
        self.raw@
    }
}

/// The field of two little-endian bytes at `at` in `b`.
pub open spec fn field16(b: Seq<u8>, at: int) -> int {
    le16(b[at], b[at + 1])
}

/// The field of four little-endian bytes at `at` in `b`.
pub open spec fn field32(b: Seq<u8>, at: int) -> int {
    le32(b[at], b[at + 1], b[at + 2], b[at + 3])
}

pub open spec fn spec_bytes_per_sector(b: Seq<u8>) -> int {
    field16(b, 11)
}

pub open spec fn spec_sectors_per_cluster(b: Seq<u8>) -> int {
    b[13] as int
}

pub open spec fn spec_reserved_sector_count(b: Seq<u8>) -> int {
    field16(b, 14)
}

pub open spec fn spec_fat_count(b: Seq<u8>) -> int {
    b[16] as int
}

pub open spec fn spec_root_entry_count(b: Seq<u8>) -> int {
    field16(b, 17)
}

pub open spec fn spec_sector_count_16(b: Seq<u8>) -> int {
    field16(b, 19)
}

pub open spec fn spec_sectors_per_fat_16(b: Seq<u8>) -> int {
    field16(b, 22)
}

pub open spec fn spec_sector_count_32(b: Seq<u8>) -> int {
    field32(b, 32)
}

/// The number of sectors: the 16-bit count, or the 32-bit one when the 16-bit one is zero.
pub open spec fn spec_sector_count(b: Seq<u8>) -> int {
    if spec_sector_count_16(b) == 0 {
        spec_sector_count_32(b)
    } else {
        spec_sector_count_16(b)
    }
}

/// The first sector of the root directory: after the reserved sectors and the FATs.
pub open spec fn spec_root_sector_offset(b: Seq<u8>) -> int {
    spec_reserved_sector_count(b) + spec_sectors_per_fat_16(b) * spec_fat_count(b)
}

/// The number of sectors the root directory's 32-byte entries take, rounded up.
pub open spec fn spec_root_sector_count(b: Seq<u8>) -> int {
    (spec_root_entry_count(b) * 32 + spec_bytes_per_sector(b) - 1) / spec_bytes_per_sector(b)
}

/// The first sector of the data region: right after the root directory.
pub open spec fn spec_data_sector_offset(b: Seq<u8>) -> int {
    spec_root_sector_offset(b) + spec_root_sector_count(b)
}

impl VfatBootSector {
    /// The boot sector held in `sector`.
    pub fn new(sector: [u8; 512]) -> (r: Self)
        ensures
            r@ == sector@,
    {
        VfatBootSector { raw: sector }
    }

    /// The text of the bytes `start..end`, which must be valid UTF-8.
    fn text(&self, start: usize, end: usize) -> (r: &str)
        requires
            start <= end <= 512,
            valid_utf8(self@.subrange(start as int, end as int)),
        ensures
            r@ == decode_utf8(self@.subrange(start as int, end as int)),
    {
        let bytes = &self.raw.as_slice()[start..end];
        match str_from_utf8(bytes) {
            Some(s) => s,
            None => {
                assert(false);
                ""
            },
        }
    }

    /// The name of the system that formatted the volume.
    pub fn oem_name(&self) -> (r: &str)
        requires
            valid_utf8(self@.subrange(3, 11)),
        ensures
            r@ == decode_utf8(self@.subrange(3, 11)),
    {
        self.text(3, 11)
    }

    pub fn volume_label(&self) -> (r: &str)
        requires
            valid_utf8(self@.subrange(43, 54)),
        ensures
            r@ == decode_utf8(self@.subrange(43, 54)),
    {
        self.text(43, 54)
    }

    pub fn fs_type_label(&self) -> (r: &str)
        requires
            valid_utf8(self@.subrange(54, 62)),
        ensures
            r@ == decode_utf8(self@.subrange(54, 62)),
    {
        self.text(54, 62)
    }

    /// Whether the volume is FAT32, which the 16-bit sector count being zero tells.
    pub fn is_fat32(&self) -> (r: bool)
        ensures
            r == (spec_sector_count_16(self@) == 0),
    {
        self.sector_count_16() == 0
    }

    pub fn bytes_per_sector(&self) -> (r: usize)
        ensures
            r == spec_bytes_per_sector(self@),
    {
        read_le16(self.raw[11], self.raw[12])
    }

    pub fn sectors_per_cluster(&self) -> (r: usize)
        ensures
            r == spec_sectors_per_cluster(self@),
    {
        self.raw[13] as usize
    }

    /// The number of directory entries a cluster holds.
    pub fn entries_per_cluster(&self) -> (r: usize)
        ensures
            r == spec_bytes_per_sector(self@) * spec_sectors_per_cluster(self@) / 32,
    {
        let bps = self.bytes_per_sector();
        let spc = self.sectors_per_cluster();
        proof {
            assert(bps * spc <= 65535 * 255) by (nonlinear_arith)
                requires
                    bps <= 65535,
                    spc <= 255;
        }
        (bps * spc) / 32
    }

    pub fn sectors_per_track(&self) -> (r: usize)
        ensures
            r == field16(self@, 24),
    {
        read_le16(self.raw[24], self.raw[25])
    }

    pub fn sectors_per_fat(&self) -> (r: usize)
        ensures
            r == spec_sectors_per_fat_16(self@),
    {
        self.sectors_per_fat_16()
    }

    pub fn sector_count(&self) -> (r: usize)
        ensures
            r == spec_sector_count(self@),
    {
        if self.is_fat32() {
            self.sector_count_32()
        } else {
            self.sector_count_16()
        }
    }

    pub fn sector_count_16(&self) -> (r: usize)
        ensures
            r == spec_sector_count_16(self@),
    {
        read_le16(self.raw[19], self.raw[20])
    }

    pub fn sector_count_32(&self) -> (r: usize)
        ensures
            r == spec_sector_count_32(self@),
    {
        read_le32(self.raw[32], self.raw[33], self.raw[34], self.raw[35]) as usize
    }

    pub fn data_sector_offset(&self) -> (r: usize)
        requires
            spec_bytes_per_sector(self@) > 0,
        ensures
            r == spec_data_sector_offset(self@),
            r <= 65535 + 65535 * 255 + 65535 * 32,
    {
        self.root_sector_offset() + self.root_sector_count()
    }

    /// The number of sectors in the data region.
    pub fn data_sector_count(&self) -> (r: usize)
        requires
            spec_bytes_per_sector(self@) > 0,
            spec_sector_count(self@) >= spec_data_sector_offset(self@),
        ensures
            r == spec_sector_count(self@) - spec_data_sector_offset(self@),
    {
        self.sector_count() - self.data_sector_offset()
    }

    pub fn hidden_sector_count(&self) -> (r: usize)
        ensures
            r == field32(self@, 28),
    {
        read_le32(self.raw[28], self.raw[29], self.raw[30], self.raw[31]) as usize
    }

    pub fn reserved_sector_count(&self) -> (r: usize)
        ensures
            r == spec_reserved_sector_count(self@),
    {
        read_le16(self.raw[14], self.raw[15])
    }

    pub fn root_entry_count(&self) -> (r: usize)
        ensures
            r == spec_root_entry_count(self@),
    {
        read_le16(self.raw[17], self.raw[18])
    }

    pub fn root_sector_offset(&self) -> (r: usize)
        ensures
            r == spec_root_sector_offset(self@),
            r <= 65535 + 65535 * 255,
    {
        let spf = self.sectors_per_fat_16();
        let fats = self.fat_count_16();
        proof {
            assert(spf * fats <= 65535 * 255) by (nonlinear_arith)
                requires
                    spf <= 65535,
                    fats <= 255;
        }
        self.reserved_sector_count() + (spf * fats)
    }

    pub fn root_sector_count(&self) -> (r: usize)
        requires
            spec_bytes_per_sector(self@) > 0,
        ensures
            r == spec_root_sector_count(self@),
            r <= 65535 * 32,
    {
        let bps = self.bytes_per_sector();
        let n = self.root_entry_count();
        proof {
            let t: int = n * 32 + bps - 1;
            assert(t / (bps as int) <= 65535 * 32) by (nonlinear_arith)
                requires
                    bps >= 1,
                    n <= 65535,
                    bps <= 65535,
                    t == n * 32 + bps - 1;
        }
        (n * 32 + bps - 1) / bps
    }

    /// The number of clusters in the data region.
    pub fn cluster_count(&self) -> (r: usize)
        requires
            spec_bytes_per_sector(self@) > 0,
            spec_sectors_per_cluster(self@) > 0,
            spec_sector_count(self@) >= spec_data_sector_offset(self@),
        ensures
            r == (spec_sector_count(self@) - spec_data_sector_offset(self@)) / spec_sectors_per_cluster(self@),
    {
        self.data_sector_count() / self.sectors_per_cluster()
    }

    pub fn fat_count_16(&self) -> (r: usize)
        ensures
            r == spec_fat_count(self@),
    {
        self.raw[16] as usize
    }

    pub fn sectors_per_fat_16(&self) -> (r: usize)
        ensures
            r == spec_sectors_per_fat_16(self@),
    {
        read_le16(self.raw[22], self.raw[23])
    }
}


/// What byte 11 of a directory entry says the entry is.
#[derive(Clone, Copy, Debug, PartialEq, Eq, Structural)]
pub enum Attribute {
    ReadOnly,
    Hidden,
    System,
    VolumeLabel,
    LongFileName,
    Directory,
    Archive,
    Device,
}

/// What the first bytes of a directory entry say about its slot.
#[derive(Clone, Copy, Debug, PartialEq, Eq, Structural)]
pub enum EntryKind {
    Null,
    Unused,
    LongFileName,
    Data,
}

impl Default for EntryKind {
    fn default() -> (r: Self)
        ensures
            r == EntryKind::Null,
    {
        EntryKind::Null
    }
}

/// The attribute that the byte `b` names, if any.
pub open spec fn attribute_of(b: u8) -> Option<Attribute> {
    if b == 0x01 {
        Some(Attribute::ReadOnly)
    } else if b == 0x02 {
        Some(Attribute::Hidden)
    } else if b == 0x04 {
        Some(Attribute::System)
    } else if b == 0x08 {
        Some(Attribute::VolumeLabel)
    } else if b == 0x0F {
        Some(Attribute::LongFileName)
    } else if b == 0x10 {
        Some(Attribute::Directory)
    } else if b == 0x20 {
        Some(Attribute::Archive)
    } else if b == 0x40 {
        Some(Attribute::Device)
    } else {
        None
    }
}

/// The kind of slot an entry with first byte `b0` and byte 10 `b10` is.
pub open spec fn kind_of(b0: u8, b10: u8) -> EntryKind {
    if b0 == 0x00 {
        EntryKind::Null
    } else if b0 == 0xE5 {
        EntryKind::Unused
    } else if b10 == 0x0F {
        EntryKind::LongFileName
    } else {
        EntryKind::Data
    }
}

/// The byte positions of the 13 name characters of a long-file-name entry.
pub open spec fn lfn_char_position(j: int) -> int {
    if j < 5 {
        1 + 2 * j
    } else if j < 11 {
        14 + 2 * (j - 5)
    } else {
        28 + 2 * (j - 11)
    }
}

/// The `j`-th name unit of a long-file-name entry: its two bytes or-ed together.
pub open spec fn lfn_unit(raw: Seq<u8>, j: int) -> u16 {
    ((raw[lfn_char_position(j)] as u16) | (raw[lfn_char_position(j) + 1] as u16)) as u16
}

/// The name units of a long-file-name entry, up to and including the first zero unit.
pub open spec fn lfn_units(raw: Seq<u8>) -> Seq<u16> {
    let all = Seq::new(13, |j: int| lfn_unit(raw, j));
    if exists|j: int| 0 <= j < 13 && all[j] == 0 {
        let k = choose|j: int| 0 <= j < 13 && all[j] == 0 && forall|i: int| 0 <= i < j ==> all[i] != 0;
        all.subrange(0, k + 1)
    } else {
        all
    }
}

/// The characters that UTF-16 units decode to: a unit outside the surrogates is its own
/// character, a high surrogate followed by a low one is the character they pair into, and any
/// other surrogate is U+FFFD.
pub open spec fn decode_utf16_lossy(units: Seq<u16>) -> Seq<char>
    decreases units.len(),
{
    if units.len() == 0 {
        Seq::empty()
    } else if units[0] < 0xD800 || units[0] > 0xDFFF {
        seq![units[0] as char] + decode_utf16_lossy(units.drop_first())
    } else if units[0] <= 0xDBFF && units.len() >= 2 && 0xDC00 <= units[1] <= 0xDFFF {
        seq![(0x10000 + (units[0] - 0xD800) * 0x400 + (units[1] - 0xDC00)) as char]
            + decode_utf16_lossy(units.subrange(2, units.len() as int))
    } else {
        seq!['\u{FFFD}'] + decode_utf16_lossy(units.drop_first())
    }
}

/// The characters `String::from_utf8_lossy` decodes from bytes.
pub uninterp spec fn decode_utf8_lossy(bytes: Seq<u8>) -> Seq<char>;

/// `s` without its NUL characters.
pub open spec fn without_nuls(s: Seq<char>) -> Seq<char> {
    s.filter(|c: char| c != '\0')
}

/// `String::from_utf16_lossy`: the units decoded, each unpaired surrogate replaced by U+FFFD.
#[verifier::external_body]
fn string_from_utf16_lossy(units: &[u16]) -> (r: String)
    ensures
        r@ == decode_utf16_lossy(units@),
{
    String::from_utf16_lossy(units)
}

/// `String::from_utf8_lossy`: the bytes decoded, each invalid sequence replaced by U+FFFD;
/// valid UTF-8 is decoded as it is.
#[verifier::external_body]
fn string_from_utf8_lossy(bytes: &[u8]) -> (r: String)
    ensures
        r@ == decode_utf8_lossy(bytes@),
        valid_utf8(bytes@) ==> r@ == decode_utf8(bytes@),
{
    String::from_utf8_lossy(bytes).into_owned()
}

/// The string without its NUL characters, as `str::replace("\0", "")` gives it.
fn remove_nuls(s: &str) -> (r: String)
    ensures
        r@ == without_nuls(s@),
{
    let n = s.unicode_len();
    let mut out = String::new();
    let mut i: usize = 0;
    while i < n
        invariant
            n == s@.len(),
            i <= n,
            out@ == without_nuls(s@.subrange(0, i as int)),
        decreases n - i,
    {
        let c = s.get_char(i);
        let ghost before = out@;
        if c != '\0' {
            out.append(s.substring_char(i, i + 1));
        }
        proof {
            let p = s@.subrange(0, i + 1);
            assert(p.drop_last() =~= s@.subrange(0, i as int));
            assert(p.last() == c);
            reveal(Seq::filter);
            assert(without_nuls(p) == (if c != '\0' {
                without_nuls(p.drop_last()).push(c)
            } else {
                without_nuls(p.drop_last())
            }));
            if c != '\0' {
                assert(s@.subrange(i as int, i + 1) =~= seq![c]);
                assert(out@ =~= before.push(c));
            }
        }
        i = i + 1;
    }
    proof {
        assert(s@.subrange(0, n as int) =~= s@);
    }
    out
}

/// A 32-byte entry of a VFAT directory.
pub struct VfatDirectoryEntry([u8; 32]);

impl View for VfatDirectoryEntry {
    type V = Seq<u8>;

    closed spec fn view(&self) -> Seq<u8> {
        self.0@
    }
}

impl VfatDirectoryEntry {
    /// The entry held in `raw`.
    pub fn new(raw: [u8; 32]) -> (r: Self)
        ensures
            r@ == raw@,
    {
        VfatDirectoryEntry(raw)
    }

    pub fn raw(&self) -> (r: &[u8; 32])
        ensures
            r@ == self@,
    {
        &self.0
    }

    pub fn attr(&self) -> (r: Option<Attribute>)
        ensures
            r == attribute_of(self@[11]),
    {
        match self.0[11] {
            0x01 => Some(Attribute::ReadOnly),
            0x02 => Some(Attribute::Hidden),
            0x04 => Some(Attribute::System),
            0x08 => Some(Attribute::VolumeLabel),
            0x0F => Some(Attribute::LongFileName),
            0x10 => Some(Attribute::Directory),
            0x20 => Some(Attribute::Archive),
            0x40 => Some(Attribute::Device),
            _ => None,
        }
    }

    pub fn kind(&self) -> (r: EntryKind)
        ensures
            r == kind_of(self@[0], self@[10]),
    {
        let b0 = self.0[0];
        let b10 = self.0[10];
        if b0 == 0x00 {
            EntryKind::Null
        } else if b0 == 0xE5 {
            EntryKind::Unused
        } else if b10 == 0x0F {
            EntryKind::LongFileName
        } else {
            EntryKind::Data
        }
    }

    /// The first cluster of the entry's file: the high half at bytes 20..22, the low half at
    /// bytes 26..28.
    pub fn cluster_index(&self) -> (r: usize)
        ensures
            r == field16(self@, 20) * 65536 + field16(self@, 26),
    {
        let hi = read_le16(self.0[20], self.0[21]);
        let lo = read_le16(self.0[26], self.0[27]);
        (hi as u32 * 65536 + lo as u32) as usize
    }

    /// The size of the entry's file, in bytes.
    pub fn size(&self) -> (r: usize)
        ensures
            r == field32(self@, 28),
    {
        read_le32(self.0[28], self.0[29], self.0[30], self.0[31]) as usize
    }

    /// The part of a long file name this entry holds, when it is a long-file-name entry.
    pub fn long_file_name(&self) -> (r: Option<String>)
        ensures
            attribute_of(self@[11]) != Some(Attribute::LongFileName) ==> r is None,
            attribute_of(self@[11]) == Some(Attribute::LongFileName) ==> (r matches Some(s) && s@
                == without_nuls(decode_utf16_lossy(lfn_units(self@)))),
    {
        if self.attr() != Some(Attribute::LongFileName) {
            return None;
        }
        let ghost all = Seq::new(13, |j: int| lfn_unit(self@, j));
        let mut units: Vec<u16> = Vec::new();
        let mut j: usize = 0;
        let mut done = false;
        while j < 13
            invariant
                j <= 13,
                all == Seq::new(13, |j: int| lfn_unit(self@, j)),
                self@.len() == 32,
                done ==> (units@.len() >= 1 && units@.last() == 0),
                !done ==> units@ == all.subrange(0, j as int) && forall|i: int| 0 <= i < j ==> all[i] != 0,
                done ==> exists|k: int| 0 <= k < j && all[k] == 0 && (forall|i: int| 0 <= i < k ==> all[i] != 0)
                    && units@ == all.subrange(0, k + 1),
            decreases 13 - j,
        {
            if !done {
                let p: usize = if j < 5 {
                    1 + 2 * j
                } else if j < 11 {
                    14 + 2 * (j - 5)
                } else {
                    28 + 2 * (j - 11)
                };
                let unit = (self.0[p] as u16) | (self.0[p + 1] as u16);
                proof {
                    assert(unit == all[j as int]);
                }
                units.push(unit);
                if unit == 0 {
                    done = true;
                    proof {
                        assert(units@ == all.subrange(0, j + 1));
                    }
                }
            }
            j = j + 1;
        }
        proof {
            if exists|k: int| 0 <= k < 13 && all[k] == 0 {
                let k = choose|k: int| 0 <= k < 13 && all[k] == 0 && forall|i: int| 0 <= i < k ==> all[i] != 0;
                if !done {
                    assert(all[k] != 0);
                }
                let k2 = choose|k2: int| 0 <= k2 < 13 && all[k2] == 0 && (forall|i: int| 0 <= i < k2 ==> all[i] != 0)
                    && units@ == all.subrange(0, k2 + 1);
                if k < k2 {
                    assert(all[k] != 0);
                }
                if k2 < k {
                    assert(all[k2] != 0);
                }
                assert(units@ == lfn_units(self@));
            } else {
                if done {
                    let k2 = choose|k2: int| 0 <= k2 < 13 && all[k2] == 0 && (forall|i: int| 0 <= i < k2 ==> all[i] != 0)
                        && units@ == all.subrange(0, k2 + 1);
                    assert(all[k2] == 0);
                }
                assert(units@ =~= all);
            }
        }
        let decoded = string_from_utf16_lossy(units.as_slice());
        Some(remove_nuls(decoded.as_str()))
    }

    /// The 11-character short name, for archive, directory and volume label entries.
    pub fn short_file_name(&self) -> (r: Option<String>)
        ensures
            r is Some <==> (attribute_of(self@[11]) == Some(Attribute::Archive) || attribute_of(self@[11])
                == Some(Attribute::Directory) || attribute_of(self@[11]) == Some(Attribute::VolumeLabel)),
            r matches Some(s) ==> s@ == decode_utf8_lossy(self@.subrange(0, 11)),
    {
        match self.attr() {
            Some(attr) => match attr {
                Attribute::Archive | Attribute::Directory | Attribute::VolumeLabel => {},
                _ => return None,
            },
            None => return None,
        }
        Some(string_from_utf8_lossy(&self.0.as_slice()[0..11]))
    }

    /// The sequence number of a long-file-name entry.
    pub fn lfn_index(&self) -> (r: Option<usize>)
        ensures
            attribute_of(self@[11]) != Some(Attribute::LongFileName) ==> r is None,
            attribute_of(self@[11]) == Some(Attribute::LongFileName) ==> r == Some(self@[0] as usize),
    {
        if self.attr() != Some(Attribute::LongFileName) {
            return None;
        }
        Some(self.0[0] as usize)
    }
}


/// The first sector, relative to the partition, of the data cluster `cluster`.
pub open spec fn spec_cluster_sector(b: Seq<u8>, cluster: int) -> int {
    spec_data_sector_offset(b) + (cluster - 2) * spec_sectors_per_cluster(b)
}

impl VfatBootSector {
    /// The first sector, relative to the partition, of the data cluster `cluster`; the first
    /// data cluster is number 2.
    pub fn cluster_sector_offset(&self, cluster: usize) -> (r: usize)
        requires
            spec_bytes_per_sector(self@) > 0,
            2 <= cluster < MAX_CLUSTER_INDEX,
        ensures
            r == spec_cluster_sector(self@, cluster as int),
            r <= 65535 + 65535 * 255 + 65535 * 32 + 0xFFF8 * 255,
    {
        let spc = self.sectors_per_cluster();
        let n: usize = cluster - 2;
        proof {
            assert(n * spc <= 0xFFF8 * 255) by (nonlinear_arith)
                requires
                    n <= 0xFFF8,
                    spc <= 255,
            ;
        }
        self.data_sector_offset() + n * spc
    }

    /// Where the FAT entry of `cluster` lies: its sector, relative to the partition, and its
    /// byte within that sector. Entries take two bytes each, as in FAT16.
    pub fn fat_entry_position(&self, cluster: usize) -> (r: (usize, usize))
        requires
            cluster < MAX_CLUSTER_INDEX,
        ensures
            r.0 == spec_reserved_sector_count(self@) + (cluster * 2) / 512,
            r.1 == (cluster * 2) % 512,
            r.0 <= 65535 + 512,
    {
        let fat_offset = cluster * 2;
        (self.reserved_sector_count() + fat_offset / SECTOR_SIZE, fat_offset % SECTOR_SIZE)
    }
}

/// The cluster that follows in a chain: the FAT entry at `entry_offset` of a sector of the FAT.
pub fn next_cluster_in_fat_sector(sector: &[u8], entry_offset: usize) -> (r: usize)
    requires
        entry_offset + 1 < sector@.len(),
    ensures
        r == le16(sector@[entry_offset as int], sector@[entry_offset + 1]),
{
    read_le16(sector[entry_offset], sector[entry_offset + 1])
}

/// `n` zero bytes.
pub open spec fn zeros(n: nat) -> Seq<u8> {
    Seq::new(n, |i: int| 0u8)
}

/// A buffer of `n` zero bytes.
fn zeroed(n: usize) -> (v: Vec<u8>)
    ensures
        v@ == zeros(n as nat),
{
    let mut v: Vec<u8> = Vec::new();
    let mut i: usize = 0;
    while i < n
        invariant
            i <= n,
            v@ == zeros(i as nat),
        decreases n - i,
    {
        v.push(0);
        i = i + 1;
    }
    v
}

/// The number of sectors that `file_size` bytes take, rounded up.
pub open spec fn sectors_for(file_size: int) -> int {
    (file_size + 511) / 512
}

/// The cluster that follows `cluster` in its chain, by the FAT of the partition that starts at
/// sector `lba_start` of `drive`: the two-byte little-endian entry `cluster * 2` bytes into the
/// FAT, which starts after the reserved sectors.
pub open spec fn fat_next<D: BlockReader>(drive: D, boot: Seq<u8>, lba_start: int, cluster: int) -> int {
    let sector = drive.contents(lba_start + spec_reserved_sector_count(boot) + (cluster * 2) / 512, 512);
    le16(sector[(cluster * 2) % 512], sector[(cluster * 2) % 512 + 1])
}

/// The `n`th cluster of the chain that starts at `first`: `first` itself, then each next one
/// by the FAT.
pub open spec fn chain_cluster<D: BlockReader>(
    drive: D,
    boot: Seq<u8>,
    lba_start: int,
    first: int,
    n: nat,
) -> int
    decreases n,
{
    if n == 0 {
        first
    } else {
        fat_next(drive, boot, lba_start, chain_cluster(drive, boot, lba_start, first, (n - 1) as nat))
    }
}

/// Whether the chain that starts at `first` goes on up to its `n`th cluster: none of the
/// clusters up to it marks the end of the chain.
pub open spec fn chain_reaches<D: BlockReader>(
    drive: D,
    boot: Seq<u8>,
    lba_start: int,
    first: int,
    n: nat,
) -> bool {
    forall|i: nat| i <= n ==> #[trigger] chain_cluster(drive, boot, lba_start, first, i) < MAX_CLUSTER_INDEX
}

/// Byte `k` of the file whose chain starts at `first`: with clusters of `c` bytes, the byte at
/// offset `k % c` of the chain's cluster number `k / c`, which lies in sector
/// `spec_cluster_sector(boot, cluster) + (k % c) / 512` of the partition; zero when the chain
/// ends before that cluster.
pub open spec fn file_byte<D: BlockReader>(drive: D, boot: Seq<u8>, lba_start: int, first: int, k: int) -> u8 {
    let c = spec_sectors_per_cluster(boot) * 512;
    let n = (k / c) as nat;
    let off = k % c;
    if chain_reaches(drive, boot, lba_start, first, n) {
        drive.contents(
            lba_start + spec_cluster_sector(boot, chain_cluster(drive, boot, lba_start, first, n)) + off / 512,
            512,
        )[off % 512]
    } else {
        0
    }
}

/// Reads the file of `file_size` bytes whose chain of clusters starts at `first_cluster`, from
/// the VFAT partition that starts at sector `lba_start` of `drive`.
///
/// Each cluster of the chain gives the next `sectors_per_cluster * 512` bytes of the file (the
/// last one fewer), its sectors in order; the chain goes on through the FAT until an
/// end-of-chain entry, and the bytes after it are zero. A chain that ends at once gives
/// `file_size` zero bytes.
pub fn read_file_bytes<D: BlockReader>(
    drive: &mut D,
    lba_start: u32,
    boot_sector: &VfatBootSector,
    first_cluster: usize,
    file_size: usize,
) -> (r: Result<Vec<u8>, &'static str>)
    requires
        spec_bytes_per_sector(boot_sector@) > 0,
        spec_sectors_per_cluster(boot_sector@) > 0,
    ensures
        r matches Ok(bytes) ==> bytes@.len() == file_size,
        r matches Ok(bytes) ==> forall|k: int|
            0 <= k < file_size ==> #[trigger] bytes@[k] == file_byte(
                *old(drive),
                boot_sector@,
                lba_start as int,
                first_cluster as int,
                k,
            ),
        first_cluster >= MAX_CLUSTER_INDEX ==> (r matches Ok(bytes) && bytes@ == zeros(
            file_size as nat,
        )),
        first_cluster < 2 ==> r is Err,
{
    let mut bytes = zeroed(file_size);
    if first_cluster >= MAX_CLUSTER_INDEX as usize {
        proof {
            assert forall|k: int| 0 <= k < file_size implies #[trigger] bytes@[k] == file_byte(
                *old(drive),
                boot_sector@,
                lba_start as int,
                first_cluster as int,
                k,
            ) by {
                assert(chain_cluster(*old(drive), boot_sector@, lba_start as int, first_cluster as int, 0)
                    == first_cluster);
            }
        }
        return Ok(bytes);
    }
    let spc = boot_sector.sectors_per_cluster();
    let cluster_size: usize = spc * SECTOR_SIZE;
    let file_sectors: usize = file_size / SECTOR_SIZE + if file_size % SECTOR_SIZE != 0 {
        1
    } else {
        0
    };
    let max_sector: usize = if spc < file_sectors {
        spc
    } else {
        file_sectors
    };
    proof {
        vstd::arithmetic::div_mod::lemma_fundamental_div_mod(file_size as int, 512);
        assert(file_size <= file_sectors * 512);
        assert(max_sector < spc ==> file_size <= max_sector * 512);
    }
    let ghost d0 = *old(drive);
    let ghost boot = boot_sector@;
    let ghost n: nat = 0;
    let mut byte_offset: usize = 0;
    let mut current_cluster = first_cluster;
    while current_cluster < MAX_CLUSTER_INDEX as usize
        invariant_except_break
            byte_offset < file_size || (byte_offset == 0 && file_size == 0),
            byte_offset == n * cluster_size,
        invariant
            bytes@.len() == file_size,
            byte_offset <= file_size,
            spec_bytes_per_sector(boot_sector@) > 0,
            boot == boot_sector@,
            spc == spec_sectors_per_cluster(boot_sector@),
            0 < spc <= 255,
            cluster_size == spc * 512,
            max_sector <= spc,
            max_sector < spc ==> file_size <= max_sector * 512,
            first_cluster < MAX_CLUSTER_INDEX,
            first_cluster < 2 ==> current_cluster == first_cluster,
            d0 == *old(drive),
            forall|o: int, l: nat| #[trigger] drive.contents(o, l) == d0.contents(o, l),
            current_cluster as int == chain_cluster(d0, boot, lba_start as int, first_cluster as int, n),
            forall|i: nat| i < n ==> #[trigger] chain_cluster(d0, boot, lba_start as int, first_cluster as int, i)
                < MAX_CLUSTER_INDEX,
            forall|m: int| 0 <= m < byte_offset ==> #[trigger] bytes@[m] == file_byte(
                d0,
                boot,
                lba_start as int,
                first_cluster as int,
                m,
            ),
            forall|m: int| byte_offset <= m < file_size ==> #[trigger] bytes@[m] == 0u8,
        ensures
            bytes@.len() == file_size,
            first_cluster >= 2,
            forall|m: int| 0 <= m < byte_offset ==> #[trigger] bytes@[m] == file_byte(
                d0,
                boot,
                lba_start as int,
                first_cluster as int,
                m,
            ),
            forall|m: int| byte_offset <= m < file_size ==> #[trigger] bytes@[m] == 0u8,
            byte_offset >= file_size || (current_cluster >= MAX_CLUSTER_INDEX && byte_offset == n
                * cluster_size && current_cluster as int == chain_cluster(
                d0,
                boot,
                lba_start as int,
                first_cluster as int,
                n,
            )),
            cluster_size == spc * 512,
            0 < spc,
            d0 == *old(drive),
        decreases file_size - byte_offset,
    {
        if current_cluster < 2 {
            return Err("invalid cluster index");
        }
        let cluster_offset = boot_sector.cluster_sector_offset(current_cluster);
        let mut cluster_bytes = zeroed(cluster_size);
        let mut sector_offset: usize = 0;
        while sector_offset < max_sector
            invariant
                cluster_bytes@.len() == cluster_size,
                sector_offset <= max_sector,
                max_sector <= spc,
                spc <= 255,
                cluster_size == spc * 512,
                cluster_offset <= 65535 + 65535 * 255 + 65535 * 32 + 0xFFF8 * 255,
                first_cluster < MAX_CLUSTER_INDEX,
                forall|o: int, l: nat| #[trigger] drive.contents(o, l) == d0.contents(o, l),
                forall|j: int| 0 <= j < sector_offset * 512 ==> #[trigger] cluster_bytes@[j] == d0.contents(
                    lba_start + cluster_offset + j / 512,
                    512,
                )[j % 512],
            decreases max_sector - sector_offset,
        {
            let lba = match (lba_start as usize).checked_add(cluster_offset + sector_offset) {
                Some(lba) => lba,
                None => return Err("sector index out of range"),
            };
            let mut sector = zeroed(SECTOR_SIZE);
            match drive.read_blocks(lba, sector.as_mut_slice()) {
                Ok(_) => {},
                Err(_) => return Err("failed to read cluster sector"),
            }
            let ghost read = d0.contents(lba as int, 512);
            assert(sector@ == read);
            let ghost filled = cluster_bytes@;
            let start: usize = sector_offset * SECTOR_SIZE;
            let mut i: usize = 0;
            while i < SECTOR_SIZE
                invariant
                    i <= SECTOR_SIZE,
                    sector@.len() == SECTOR_SIZE,
                    sector@ == read,
                    cluster_bytes@.len() == cluster_size,
                    filled.len() == cluster_size,
                    start + SECTOR_SIZE <= cluster_size,
                    forall|j: int| 0 <= j < start ==> #[trigger] cluster_bytes@[j] == filled[j],
                    forall|j: int| 0 <= j < i ==> #[trigger] cluster_bytes@[start + j] == read[j],
                decreases SECTOR_SIZE - i,
            {
                cluster_bytes.set(start + i, sector[i]);
                i = i + 1;
            }
            proof {
                assert forall|j: int| 0 <= j < (sector_offset + 1) * 512 implies #[trigger] cluster_bytes@[j]
                    == d0.contents(lba_start + cluster_offset + j / 512, 512)[j % 512] by {
                    if j >= start {
                        vstd::arithmetic::div_mod::lemma_fundamental_div_mod_converse(
                            j,
                            512,
                            sector_offset as int,
                            j - start,
                        );
                        assert(cluster_bytes@[start + (j - start)] == read[j - start]);
                    } else {
                        assert(cluster_bytes@[j] == filled[j]);
                    }
                }
            }
            sector_offset = sector_offset + 1;
        }
        let remaining: usize = file_size - byte_offset;
        let read_size: usize = if cluster_size < remaining {
            cluster_size
        } else {
            remaining
        };
        assert(read_size <= max_sector * 512);
        let ghost before = bytes@;
        let mut i: usize = 0;
        while i < read_size
            invariant
                i <= read_size,
                read_size <= cluster_size,
                byte_offset + read_size <= file_size,
                bytes@.len() == file_size,
                before.len() == file_size,
                cluster_bytes@.len() == cluster_size,
                forall|m: int| 0 <= m < byte_offset ==> #[trigger] bytes@[m] == before[m],
                forall|m: int| byte_offset + i <= m < file_size ==> #[trigger] bytes@[m] == before[m],
                forall|j: int| 0 <= j < i ==> #[trigger] bytes@[byte_offset + j] == cluster_bytes@[j],
            decreases read_size - i,
        {
            bytes.set(byte_offset + i, cluster_bytes[i]);
            i = i + 1;
        }
        proof {
            assert(chain_reaches(d0, boot, lba_start as int, first_cluster as int, n)) by {
                assert forall|i: nat| i <= n implies #[trigger] chain_cluster(
                    d0,
                    boot,
                    lba_start as int,
                    first_cluster as int,
                    i,
                ) < MAX_CLUSTER_INDEX by {
                    if i == n {
                    }
                }
            }
            assert forall|m: int| byte_offset <= m < byte_offset + read_size implies #[trigger] bytes@[m]
                == file_byte(d0, boot, lba_start as int, first_cluster as int, m) by {
                let j = m - byte_offset;
                assert(bytes@[byte_offset + j] == cluster_bytes@[j]);
                vstd::arithmetic::div_mod::lemma_fundamental_div_mod_converse(
                    m,
                    cluster_size as int,
                    n as int,
                    j,
                );
            }
        }
        byte_offset = byte_offset + read_size;
        if byte_offset >= file_size {
            break;
        }
        proof {
            assert((n + 1) * cluster_size == n * cluster_size + cluster_size) by (nonlinear_arith);
        }
        let (fat_sector, entry_offset) = boot_sector.fat_entry_position(current_cluster);
        let lba = match (lba_start as usize).checked_add(fat_sector) {
            Some(lba) => lba,
            None => return Err("sector index out of range"),
        };
        let mut sector = zeroed(SECTOR_SIZE);
        match drive.read_blocks(lba, sector.as_mut_slice()) {
            Ok(_) => {},
            Err(_) => return Err("failed to read sector for FAT entry"),
        }
        current_cluster = next_cluster_in_fat_sector(sector.as_slice(), entry_offset);
        proof {
            assert(current_cluster as int == chain_cluster(
                d0,
                boot,
                lba_start as int,
                first_cluster as int,
                (n + 1) as nat,
            ));
            n = n + 1;
        }
        if current_cluster == BAD_CLUSTER_INDEX as usize {
            return Err("encountered bad cluster");
        }
    }
    proof {
        assert forall|m: int| 0 <= m < file_size implies #[trigger] bytes@[m] == file_byte(
            d0,
            boot,
            lba_start as int,
            first_cluster as int,
            m,
        ) by {
            if m >= byte_offset {
                let c = cluster_size as int;
                vstd::arithmetic::div_mod::lemma_fundamental_div_mod(m, c);
                vstd::arithmetic::div_mod::lemma_mod_bound(m, c);
                let q = m / c;
                assert(q >= n) by (nonlinear_arith)
                    requires
                        m == c * q + m % c,
                        m % c < c,
                        m >= n * c,
                        c > 0,
                ;
                assert(chain_cluster(d0, boot, lba_start as int, first_cluster as int, n) >= MAX_CLUSTER_INDEX);
            }
        }
    }
    Ok(bytes)
}


/// Whether `s` starts with `prefix`.
pub open spec fn has_prefix(s: Seq<char>, prefix: Seq<char>) -> bool {
    prefix.len() <= s.len() && s.subrange(0, prefix.len() as int) == prefix
}

/// `str::starts_with` for a `&str` pattern.
pub fn str_starts_with(s: &str, prefix: &str) -> (r: bool)
    ensures
        r == has_prefix(s@, prefix@),
{
    let n = s.unicode_len();
    let m = prefix.unicode_len();
    if m > n {
        return false;
    }
    let mut i: usize = 0;
    while i < m
        invariant
            m <= n,
            n == s@.len(),
            m == prefix@.len(),
            i <= m,
            forall|j: int| 0 <= j < i ==> s@[j] == prefix@[j],
        decreases m - i,
    {
        if s.get_char(i) != prefix.get_char(i) {
            assert(s@.subrange(0, m as int)[i as int] != prefix@[i as int]);
            return false;
        }
        i = i + 1;
    }
    assert(s@.subrange(0, m as int) =~= prefix@);
    true
}

/// The paths of a file system, each with the directory entry it names, held in a
/// `hashbrown::HashMap`.
#[verifier::external_body]
pub struct PathCache {
    map: hashbrown::HashMap<String, DirectoryEntry>,
}

/// What a [`PathCache`] holds: each path with the view of its entry.
pub uninterp spec fn cached_entries(cache: PathCache) -> Map<Seq<char>, (usize, Seq<char>, usize)>;

impl PathCache {
    /// `hashbrown::HashMap::new`: a map that holds nothing.
    #[verifier::external_body]
    pub fn new() -> (r: Self)
        ensures
            cached_entries(r).dom().is_empty(),
    {
        PathCache { map: hashbrown::HashMap::new() }
    }

    /// `hashbrown::HashMap::insert`: `path` now maps to `entry`, in place of what it mapped to.
    #[verifier::external_body]
    pub fn insert(&mut self, path: String, entry: DirectoryEntry)
        ensures
            cached_entries(*final(self)) == cached_entries(*old(self)).insert(path@, entry@),
    {
        self.map.insert(path, entry);
    }

    /// `hashbrown::HashMap::get`, the entry cloned: the entry of `path`, if it has one.
    #[verifier::external_body]
    pub fn get(&self, path: &str) -> (r: Option<DirectoryEntry>)
        ensures
            r is Some <==> cached_entries(*self).dom().contains(path@),
            r matches Some(e) ==> e@ == cached_entries(*self)[path@],
    {
        self.map.get(path).cloned()
    }

    /// `hashbrown::HashMap::keys`, cloned into a `Vec`: every path once, in the map's order.
    #[verifier::external_body]
    pub fn paths(&self) -> (r: Vec<String>)
        ensures
            forall|k: Seq<char>|
                cached_entries(*self).dom().contains(k) <==> exists|i: int|
                    0 <= i < r@.len() && #[trigger] r@[i]@ == k,
            forall|i: int, j: int| 0 <= i < j < r@.len() ==> r@[i]@ != r@[j]@,
    {
        self.map.keys().cloned().collect()
    }
}

/// The part of a long file name that a long-file-name entry holds.
pub open spec fn lfn_part(e: Seq<u8>) -> Seq<char> {
    without_nuls(decode_utf16_lossy(lfn_units(e)))
}

/// The 11-character short name of an entry.
pub open spec fn short_name(e: Seq<u8>) -> Seq<char> {
    decode_utf8_lossy(e.subrange(0, 11))
}

/// The parts of a name joined in order.
pub open spec fn concat_names(parts: Seq<Seq<char>>) -> Seq<char>
    decreases parts.len(),
{
    if parts.len() == 0 {
        Seq::empty()
    } else {
        concat_names(parts.drop_last()) + parts.last()
    }
}

/// Whether `e` ends a directory: a null slot without an attribute.
pub open spec fn ends_directory(e: Seq<u8>) -> bool {
    kind_of(e[0], e[10]) == EntryKind::Null && attribute_of(e[11]) is None
}

/// Whether `e` holds a part of a long file name, with a sequence number of at least 1.
pub open spec fn is_lfn_part(e: Seq<u8>) -> bool {
    attribute_of(e[11]) == Some(Attribute::LongFileName) && e[0] >= 1
}

/// Whether `e` names a file or a directory.
pub open spec fn names_file(e: Seq<u8>) -> bool {
    attribute_of(e[11]) == Some(Attribute::Archive) || attribute_of(e[11]) == Some(
        Attribute::Directory,
    )
}

/// The name of the file that `e` names: the long-name parts gathered before it, or else its
/// short name.
pub open spec fn file_name(parts: Seq<Seq<char>>, e: Seq<u8>) -> Seq<char> {
    if parts.len() > 0 {
        concat_names(parts)
    } else {
        short_name(e)
    }
}

/// The view of the directory entry that the file entry `e` gives, named `name`.
pub open spec fn entry_view(e: Seq<u8>, name: Seq<char>) -> (usize, Seq<char>, usize) {
    ((field16(e, 20) * 65536 + field16(e, 26)) as usize, name, field32(e, 28) as usize)
}

/// What taking in the directory entry `e` does, with the long-name parts `parts` gathered and
/// the files `found`: whether it ends the directory, then the parts and the files after it.
pub open spec fn record_step(
    parts: Seq<Seq<char>>,
    found: Map<Seq<char>, (usize, Seq<char>, usize)>,
    e: Seq<u8>,
) -> (bool, Seq<Seq<char>>, Map<Seq<char>, (usize, Seq<char>, usize)>) {
    if ends_directory(e) {
        (true, parts, found)
    } else if is_lfn_part(e) {
        (false, seq![lfn_part(e)] + parts, found)
    } else if names_file(e) {
        (
            false,
            Seq::empty(),
            found.insert(seq!['/'] + file_name(parts, e), entry_view(e, file_name(parts, e))),
        )
    } else {
        (false, parts, found)
    }
}

/// Taking in `entries` in turn, from nothing gathered and nothing found, up to the first that
/// ends the directory: whether one did, then the parts gathered and the files found.
pub open spec fn scan_entries(entries: Seq<Seq<u8>>) -> (
    bool,
    Seq<Seq<char>>,
    Map<Seq<char>, (usize, Seq<char>, usize)>,
)
    decreases entries.len(),
{
    if entries.len() == 0 {
        (false, Seq::empty(), Map::empty())
    } else {
        let (stop, parts, found) = scan_entries(entries.drop_last());
        if stop {
            (true, parts, found)
        } else {
            record_step(parts, found, entries.last())
        }
    }
}

/// Once an entry ends the directory, the entries after it change nothing.
proof fn lemma_scan_stops(entries: Seq<Seq<u8>>, m: int)
    requires
        0 <= m <= entries.len(),
        scan_entries(entries.take(m)).0,
    ensures
        scan_entries(entries) == scan_entries(entries.take(m)),
    decreases entries.len() - m,
{
    if m < entries.len() {
        assert(entries.take(m + 1).drop_last() =~= entries.take(m));
        lemma_scan_stops(entries, m + 1);
    } else {
        assert(entries.take(m) =~= entries);
    }
}

/// Joining parts is joining in order: the parts of `s1 + s2` join to the join of `s1` followed
/// by the join of `s2`; one part joins to itself, and two parts `p`, `q` to `p + q`.
pub proof fn law_concat_names(s1: Seq<Seq<char>>, s2: Seq<Seq<char>>, p: Seq<char>, q: Seq<char>)
    ensures
        concat_names(s1 + s2) == concat_names(s1) + concat_names(s2),
        concat_names(seq![p]) == p,
        concat_names(seq![p, q]) == p + q,
    decreases s2.len(),
{
    if s2.len() == 0 {
        assert(s1 + s2 =~= s1);
        assert(concat_names(s1) + concat_names(s2) =~= concat_names(s1));
    } else {
        law_concat_names(s1, s2.drop_last(), p, q);
        assert((s1 + s2).drop_last() =~= s1 + s2.drop_last());
        assert((s1 + s2).last() == s2.last());
        assert(concat_names(s1) + concat_names(s2.drop_last()) + s2.last() =~= concat_names(s1) + (
        concat_names(s2.drop_last()) + s2.last()));
    }
    assert(seq![p].drop_last() =~= Seq::<Seq<char>>::empty());
    assert(concat_names(seq![p].drop_last()) == Seq::<char>::empty());
    assert(Seq::<char>::empty() + p =~= p);
    assert(concat_names(seq![p]) == p);
    assert(seq![p, q].drop_last() =~= seq![p]);
    assert(concat_names(seq![p, q]) == concat_names(seq![p]) + q);
}

/// The name that the long-name entries `lfns`, met in this order in a directory, spell: the
/// part of the last one met first, then those of the ones before it, back to the first met.
pub open spec fn long_name(lfns: Seq<Seq<u8>>) -> Seq<char>
    decreases lfns.len(),
{
    if lfns.len() == 0 {
        Seq::empty()
    } else {
        lfn_part(lfns.last()) + long_name(lfns.drop_last())
    }
}

/// The parts that the long-name entries `lfns` leave gathered, each in front of the earlier ones.
spec fn gathered_parts(lfns: Seq<Seq<u8>>) -> Seq<Seq<char>> {
    Seq::new(lfns.len(), |i: int| lfn_part(lfns[lfns.len() - 1 - i]))
}

/// Taking in long-name entries from the start of a directory gathers their parts, last met first,
/// and finds no file.
proof fn lemma_scan_gathers(lfns: Seq<Seq<u8>>)
    requires
        forall|i: int| 0 <= i < lfns.len() ==> is_lfn_part(#[trigger] lfns[i]),
    ensures
        scan_entries(lfns) == (false, gathered_parts(lfns), Map::<
            Seq<char>,
            (usize, Seq<char>, usize),
        >::empty()),
    decreases lfns.len(),
{
    if lfns.len() > 0 {
        let rest = lfns.drop_last();
        lemma_scan_gathers(rest);
        assert(is_lfn_part(lfns[lfns.len() - 1]));
        assert(seq![lfn_part(lfns.last())] + gathered_parts(rest) =~= gathered_parts(lfns));
    } else {
        assert(gathered_parts(lfns) =~= Seq::<Seq<char>>::empty());
    }
}

/// The gathered parts join to the long name.
proof fn lemma_gathered_join(lfns: Seq<Seq<u8>>)
    ensures
        concat_names(gathered_parts(lfns)) == long_name(lfns),
    decreases lfns.len(),
{
    if lfns.len() > 0 {
        let rest = lfns.drop_last();
        lemma_gathered_join(rest);
        assert(gathered_parts(lfns) =~= seq![lfn_part(lfns.last())] + gathered_parts(rest));
        law_concat_names(seq![lfn_part(lfns.last())], gathered_parts(rest), lfn_part(lfns.last()), lfn_part(lfns.last()));
    } else {
        assert(gathered_parts(lfns) =~= Seq::<Seq<char>>::empty());
    }
}

/// A directory that starts with the long-name entries `lfns` (at least one), followed by the
/// entry `file` of a file or directory, holds that file under "/" and the long name that the
/// entries spell, the part of the last one met first: the file's name is its parts joined in
/// the order of their sequence numbers, which a directory lists from the highest down. After
/// a first entry `x` and a second `y`, the name is the part of `y` followed by that of `x`.
pub proof fn law_long_name_scan(lfns: Seq<Seq<u8>>, file: Seq<u8>)
    requires
        lfns.len() > 0,
        forall|i: int| 0 <= i < lfns.len() ==> is_lfn_part(#[trigger] lfns[i]),
        names_file(file),
    ensures
        scan_entries(lfns.push(file)) == (false, Seq::<Seq<char>>::empty(), Map::<
            Seq<char>,
            (usize, Seq<char>, usize),
        >::empty().insert(seq!['/'] + long_name(lfns), entry_view(file, long_name(lfns)))),
        lfns.len() == 2 ==> long_name(lfns) == lfn_part(lfns[1]) + lfn_part(lfns[0]),
{
    lemma_scan_gathers(lfns);
    lemma_gathered_join(lfns);
    assert(lfns.push(file).drop_last() =~= lfns);
    if lfns.len() == 2 {
        let first = lfns.drop_last();
        assert(first.drop_last() =~= Seq::<Seq<u8>>::empty());
        assert(long_name(first.drop_last()) == Seq::<char>::empty());
        assert(lfn_part(lfns[0]) + Seq::<char>::empty() =~= lfn_part(lfns[0]));
        assert(long_name(first) == lfn_part(lfns[0]));
    }
}

/// The sector of the device from which the root directory of the partition that starts at
/// sector `lba_start`, whose boot sector is `boot`, reads its `i`th sector.
pub open spec fn root_sector_lba(boot: Seq<u8>, lba_start: u32, i: int) -> int {
    lba_start + spec_root_sector_offset(boot) + i
}

/// The `k`th entry of the root directory on `drive`: 32 bytes of its `k / 16`th sector.
pub open spec fn root_entry<D: BlockReader>(drive: D, boot: Seq<u8>, lba_start: u32, k: int) -> Seq<u8> {
    drive.contents(root_sector_lba(boot, lba_start, k / 16), 512).subrange((k % 16) * 32, (k % 16) * 32 + 32)
}

/// The entries of the root directory on `drive`, sector by sector.
pub open spec fn root_entries<D: BlockReader>(drive: D, boot: Seq<u8>, lba_start: u32) -> Seq<Seq<u8>> {
    Seq::new(
        (spec_root_sector_count(boot) * 16) as nat,
        |k: int| root_entry(drive, boot, lba_start, k),
    )
}

/// A walk through the entries of the root directory: the long-name parts gathered so far, in
/// order, and the files found, by path.
pub struct RootDirectoryScan {
    parts: Vec<String>,
    cache: PathCache,
}

impl RootDirectoryScan {
    /// The long-name parts gathered and not yet used.
    pub closed spec fn parts(&self) -> Seq<Seq<char>> {
        self.parts@.map_values(|s: String| s@)
    }

    /// The files found.
    pub closed spec fn found(&self) -> Map<Seq<char>, (usize, Seq<char>, usize)> {
        cached_entries(self.cache)
    }

    pub fn new() -> (r: Self)
        ensures
            r.parts() == Seq::<Seq<char>>::empty(),
            r.found() == Map::<Seq<char>, (usize, Seq<char>, usize)>::empty(),
    {
        let r = RootDirectoryScan { parts: Vec::new(), cache: PathCache::new() };
        assert(r.parts() =~= Seq::<Seq<char>>::empty());
        r
    }

    /// Takes in the next entry of the directory; returns whether it ends the directory. A part
    /// of a long name goes in front of those gathered; an archive or directory entry is recorded
    /// under "/" and its name, and the parts are cleared.
    pub fn record(&mut self, entry: &VfatDirectoryEntry) -> (stop: bool)
        ensures
            stop == ends_directory(entry@),
            stop ==> final(self).parts() == old(self).parts() && final(self).found() == old(
                self,
            ).found(),
            !stop && is_lfn_part(entry@) ==> final(self).parts() == seq![lfn_part(entry@)] + old(
                self,
            ).parts() && final(self).found() == old(self).found(),
            !stop && !is_lfn_part(entry@) && names_file(entry@) ==> final(self).parts()
                == Seq::<Seq<char>>::empty() && final(self).found() == old(self).found().insert(
                seq!['/'] + file_name(old(self).parts(), entry@),
                entry_view(entry@, file_name(old(self).parts(), entry@)),
            ),
            !stop && !is_lfn_part(entry@) && !names_file(entry@) ==> final(self).parts() == old(
                self,
            ).parts() && final(self).found() == old(self).found(),
    {
        let ghost old_parts = self.parts();
        if entry.kind() == EntryKind::Null && entry.attr().is_none() {
            return true;
        }
        match entry.lfn_index() {
            Some(i) => {
                if i >= 1 {
                    match entry.long_file_name() {
                        Some(name) => {
                            self.parts.insert(0, name);
                            assert(self.parts() =~= seq![lfn_part(entry@)] + old_parts);
                        },
                        None => {},
                    }
                    return false;
                }
            },
            None => {},
        }
        let attr = entry.attr();
        if attr == Some(Attribute::Archive) || attr == Some(Attribute::Directory) {
            let found_name = if self.parts.len() > 0 {
                let mut name = String::new();
                let mut i: usize = 0;
                while i < self.parts.len()
                    invariant
                        i <= self.parts@.len(),
                        self.parts() == old_parts,
                        self.found() == old(self).found(),
                        name@ == concat_names(old_parts.subrange(0, i as int)),
                    decreases self.parts@.len() - i,
                {
                    proof {
                        assert(old_parts.subrange(0, i + 1).drop_last() =~= old_parts.subrange(
                            0,
                            i as int,
                        ));
                    }
                    name.append(self.parts[i].as_str());
                    i = i + 1;
                }
                assert(old_parts.subrange(0, old_parts.len() as int) =~= old_parts);
                name
            } else {
                match entry.short_file_name() {
                    Some(name) => name,
                    None => {
                        assert(false);
                        String::new()
                    },
                }
            };
            self.parts.clear();
            assert(self.parts() =~= Seq::<Seq<char>>::empty());
            let index = entry.cluster_index();
            let size = entry.size();
            let mut path = String::from_str("/");
            proof {
                reveal_strlit("/");
            }
            path.append(found_name.as_str());
            let ghost name_view = found_name@;
            assert(name_view == file_name(old_parts, entry@));
            assert(path@ == seq!['/'] + name_view);
            self.cache.insert(path, DirectoryEntry { index, name: found_name, size });
            assert(self.found() == old(self).found().insert(
                seq!['/'] + name_view,
                entry_view(entry@, name_view),
            ));
        }
        false
    }
}

/// A VFAT file system on a partition of a block device, with its root directory's files
/// gathered once.
pub struct VfatFileSystem<D> {
    drive: D,
    lba_start: u32,
    boot_sector: VfatBootSector,
    cache: PathCache,
}

impl<D: BlockReader> VfatFileSystem<D> {
    /// The device.
    pub closed spec fn drive(&self) -> D {
        self.drive
    }

    /// The partition's first sector on its device.
    pub closed spec fn spec_lba_start(&self) -> u32 {
        self.lba_start
    }

    /// The bytes of the partition's boot sector.
    pub closed spec fn boot_sector_bytes(&self) -> Seq<u8> {
        self.boot_sector@
    }

    /// The files of the root directory, by path.
    pub closed spec fn files(&self) -> Map<Seq<char>, (usize, Seq<char>, usize)> {
        cached_entries(self.cache)
    }

    /// The file system on the partition of `drive` that starts at sector `lba_start`, whose
    /// boot sector is `boot_sector`: the root directory's sectors are read one by one and each
    /// entry taken in, until an entry ends the directory.
    pub fn new(drive: D, boot_sector: VfatBootSector, lba_start: u32) -> (r: Result<
        Self,
        &'static str,
    >)
        requires
            spec_bytes_per_sector(boot_sector@) > 0,
        ensures
            r matches Ok(fs) ==> fs.spec_lba_start() == lba_start && fs.boot_sector_bytes()
                == boot_sector@ && fs.files() == scan_entries(
                root_entries(drive, boot_sector@, lba_start),
            ).2 && forall|o: int, l: nat| #[trigger] fs.drive().contents(o, l) == drive.contents(o, l),
            spec_root_sector_count(boot_sector@) == 0 ==> (r matches Ok(fs) && fs.files()
                == Map::<Seq<char>, (usize, Seq<char>, usize)>::empty()),
            spec_root_sector_count(boot_sector@) > 0 && root_sector_lba(boot_sector@, lba_start, 0)
                > usize::MAX ==> r is Err,
    {
        let ghost drive0 = drive;
        let ghost entries = root_entries(drive, boot_sector@, lba_start);
        let mut drive = drive;
        let mut scan = RootDirectoryScan::new();
        let cluster_offset = boot_sector.root_sector_offset();
        let sector_count = boot_sector.root_sector_count();
        let mut sector_offset: usize = 0;
        let mut done = false;
        proof {
            assert(entries.take(0) =~= Seq::<Seq<u8>>::empty());
            assert(scan.parts() =~= Seq::<Seq<char>>::empty());
        }
        while sector_offset < sector_count && !done
            invariant
                sector_offset <= sector_count,
                sector_count <= 65535 * 32,
                cluster_offset <= 65535 + 65535 * 255,
                sector_count == spec_root_sector_count(boot_sector@),
                cluster_offset == spec_root_sector_offset(boot_sector@),
                entries == root_entries(drive0, boot_sector@, lba_start),
                entries.len() == sector_count * 16,
                forall|o: int, l: nat| #[trigger] drive.contents(o, l) == drive0.contents(o, l),
                (done, scan.parts(), scan.found()) == scan_entries(entries.take(sector_offset * 16)),
                done ==> sector_offset > 0,
                sector_offset > 0 ==> root_sector_lba(boot_sector@, lba_start, 0) <= usize::MAX,
            decreases sector_count - sector_offset,
        {
            let lba = match (lba_start as usize).checked_add(cluster_offset + sector_offset) {
                Some(lba) => lba,
                None => return Err("sector index out of range"),
            };
            let mut sector = zeroed(SECTOR_SIZE);
            match drive.read_blocks(lba, sector.as_mut_slice()) {
                Ok(_) => {},
                Err(_) => return Err("failed to read root directory sector"),
            }
            proof {
                assert(sector@ == drive0.contents(root_sector_lba(boot_sector@, lba_start, sector_offset as int), 512));
            }
            let mut k: usize = 0;
            while k < ENTRIES_PER_SECTOR && !done
                invariant
                    k <= ENTRIES_PER_SECTOR,
                    sector@.len() == SECTOR_SIZE,
                    sector_offset < sector_count,
                    entries == root_entries(drive0, boot_sector@, lba_start),
                    entries.len() == sector_count * 16,
                    sector@ == drive0.contents(root_sector_lba(boot_sector@, lba_start, sector_offset as int), 512),
                    (done, scan.parts(), scan.found()) == scan_entries(entries.take(sector_offset * 16 + k)),
                ensures
                    (done, scan.parts(), scan.found()) == scan_entries(entries.take(sector_offset * 16 + k)),
                    done || k == ENTRIES_PER_SECTOR,
                    k <= ENTRIES_PER_SECTOR,
                decreases ENTRIES_PER_SECTOR - k,
            {
                let mut raw = [0u8; 32];
                let mut i: usize = 0;
                while i < 32
                    invariant
                        i <= 32,
                        k < ENTRIES_PER_SECTOR,
                        sector@.len() == SECTOR_SIZE,
                        raw@.len() == 32,
                        forall|j: int| 0 <= j < i ==> raw@[j] == sector@[k * 32 + j],
                    decreases 32 - i,
                {
                    raw[i] = sector[k * 32 + i];
                    i = i + 1;
                }
                let entry = VfatDirectoryEntry::new(raw);
                let ghost m = sector_offset * 16 + k;
                proof {
                    assert(m / 16 == sector_offset && m % 16 == k) by (nonlinear_arith)
                        requires
                            m == sector_offset * 16 + k,
                            k < 16,
                    ;
                    assert(m < entries.len()) by (nonlinear_arith)
                        requires
                            m == sector_offset * 16 + k,
                            k < 16,
                            sector_offset < sector_count,
                            entries.len() == sector_count * 16,
                    ;
                    assert(entries[m] == root_entry(drive0, boot_sector@, lba_start, m));
                    assert(raw@ =~= entries[m]);
                    assert(entries.take(m + 1).drop_last() =~= entries.take(m));
                }
                done = scan.record(&entry);
                k = k + 1;
            }
            proof {
                let next = (sector_offset + 1) * 16;
                assert(next <= entries.len()) by (nonlinear_arith)
                    requires
                        next == (sector_offset + 1) * 16,
                        sector_offset < sector_count,
                        entries.len() == sector_count * 16,
                ;
                if !done {
                    assert(sector_offset * 16 + k == (sector_offset + 1) * 16);
                } else {
                    let part = entries.take(next);
                    assert(part.take(sector_offset * 16 + k) =~= entries.take(sector_offset * 16 + k));
                    lemma_scan_stops(part, sector_offset * 16 + k);
                }
            }
            sector_offset = sector_offset + 1;
        }
        proof {
            if done {
                lemma_scan_stops(entries, sector_offset * 16);
            } else {
                assert(entries.take(sector_offset * 16) =~= entries);
            }
        }
        Ok(VfatFileSystem { drive, lba_start, boot_sector, cache: scan.cache })
    }
}

impl<D: BlockReader> FileSystem for VfatFileSystem<D> {
    /// Every path of the root directory that starts with `dir_path`, each once, in some order;
    /// listing never fails.
    open spec fn listing(&self, dir_path: Seq<char>, paths: Option<Seq<Seq<char>>>) -> bool {
        &&& paths is Some
        &&& forall|i: int|
            0 <= i < paths->0.len() ==> self.files().dom().contains(#[trigger] paths->0[i]) && has_prefix(
                paths->0[i],
                dir_path,
            )
        &&& forall|k: Seq<char>|
            #[trigger] self.files().dom().contains(k) && has_prefix(k, dir_path) ==> exists|i: int|
                0 <= i < paths->0.len() && paths->0[i] == k
    }

    /// As many bytes as the file at `path` holds, read from the device; all zeros when its
    /// cluster chain ends at once, when it cannot fail. A read fails when there is no such
    /// file, when the boot sector gives an empty sector or cluster, when the first cluster is
    /// not a cluster of data, or when the device fails.
    open spec fn reading(&self, path: Seq<char>, bytes: Option<Seq<u8>>) -> bool {
        let ok = self.files().dom().contains(path) && spec_bytes_per_sector(self.boot_sector_bytes())
            > 0 && spec_sectors_per_cluster(self.boot_sector_bytes()) > 0;
        match bytes {
            Some(b) => {
                &&& ok
                &&& self.files()[path].0 >= 2
                &&& b.len() == self.files()[path].2
                &&& self.files()[path].0 >= MAX_CLUSTER_INDEX ==> b == zeros(self.files()[path].2 as nat)
            },
            None => !(ok && self.files()[path].0 >= MAX_CLUSTER_INDEX),
        }
    }

    /// The paths under `dir_path`: those that start with it.
    fn list(&self, dir_path: &str) -> (r: Result<Vec<String>, &'static str>)
        ensures
            r is Ok,
            r matches Ok(paths) ==> forall|i: int|
                0 <= i < paths@.len() ==> self.files().dom().contains(#[trigger] paths@[i]@)
                    && has_prefix(paths@[i]@, dir_path@),
            r matches Ok(paths) ==> forall|k: Seq<char>|
                #[trigger] self.files().dom().contains(k) && has_prefix(k, dir_path@) ==> exists|
                    i: int,
                | #![trigger paths@[i]] 0 <= i < paths@.len() && paths@[i]@ == k,
    {
        let all = self.cache.paths();
        let mut paths: Vec<String> = Vec::new();
        let mut i: usize = 0;
        while i < all.len()
            invariant
                i <= all@.len(),
                forall|k: Seq<char>|
                    self.files().dom().contains(k) <==> exists|j: int|
                        0 <= j < all@.len() && #[trigger] all@[j]@ == k,
                forall|j: int|
                    0 <= j < paths@.len() ==> self.files().dom().contains(#[trigger] paths@[j]@)
                        && has_prefix(paths@[j]@, dir_path@),
                forall|jj: int|
                    0 <= jj < i && has_prefix(#[trigger] all@[jj]@, dir_path@) ==> exists|j: int|
                        0 <= j < paths@.len() && paths@[j]@ == all@[jj]@,
            decreases all@.len() - i,
        {
            let path = &all[i];
            assert(self.files().dom().contains(all@[i as int]@));
            if str_starts_with(path.as_str(), dir_path) {
                let ghost before = paths@;
                paths.push(path.clone());
                assert forall|jj: int|
                    0 <= jj < i + 1 && has_prefix(#[trigger] all@[jj]@, dir_path@) implies exists|
                        j: int,
                    | 0 <= j < paths@.len() && paths@[j]@ == all@[jj]@ by {
                    if jj < i {
                        let j = choose|j: int| 0 <= j < before.len() && before[j]@ == all@[jj]@;
                        assert(paths@[j] == before[j]);
                    } else {
                        assert(paths@[before.len() as int]@ == all@[jj]@);
                    }
                }
            }
            i = i + 1;
        }
        assert forall|k: Seq<char>|
            #[trigger] self.files().dom().contains(k) && has_prefix(k, dir_path@) implies exists|
                i: int,
            | #![trigger paths@[i]] 0 <= i < paths@.len() && paths@[i]@ == k by {
            let jj = choose|jj: int| 0 <= jj < all@.len() && #[trigger] all@[jj]@ == k;
            assert(has_prefix(all@[jj]@, dir_path@));
            let j = choose|j: int| 0 <= j < paths@.len() && paths@[j]@ == all@[jj]@;
            assert(paths@[j]@ == k);
        }
        proof {
            let views = paths@.map_values(|p: String| p@);
            assert forall|i: int| 0 <= i < views.len() implies self.files().dom().contains(
                #[trigger] views[i],
            ) && has_prefix(views[i], dir_path@) by {
                assert(views[i] == paths@[i]@);
            }
            assert forall|k: Seq<char>|
                #[trigger] self.files().dom().contains(k) && has_prefix(k, dir_path@) implies exists|
                    i: int,
                | 0 <= i < views.len() && views[i] == k by {
                let i = choose|i: int| 0 <= i < paths@.len() && paths@[i]@ == k;
                assert(views[i] == k);
            }
        }
        let ghost pv = paths@;
        let r: Result<Vec<String>, &'static str> = Ok(paths);
        assert(r matches Ok(p) ==> p@ == pv);
        r
    }

    /// The bytes of the file at `path`, read from the device: an error when there is no such
    /// file, or when the boot sector gives an empty sector or cluster; the file's size in
    /// zeros when its cluster chain ends at once; an error when its first cluster is not a
    /// cluster of data.
    fn read(&mut self, path: &str) -> (r: Result<Vec<u8>, &'static str>)
        ensures
            final(self).files() == old(self).files(),
            final(self).boot_sector_bytes() == old(self).boot_sector_bytes(),
            final(self).spec_lba_start() == old(self).spec_lba_start(),
            !old(self).files().dom().contains(path@) ==> r is Err,
            r matches Ok(bytes) ==> bytes@.len() == old(self).files()[path@].2,
            old(self).files().dom().contains(path@) && (spec_bytes_per_sector(
                old(self).boot_sector_bytes(),
            ) == 0 || spec_sectors_per_cluster(old(self).boot_sector_bytes()) == 0) ==> r is Err,
            old(self).files().dom().contains(path@) && spec_bytes_per_sector(old(self).boot_sector_bytes())
                > 0 && spec_sectors_per_cluster(old(self).boot_sector_bytes()) > 0 && old(self).files()[path@].0
                >= MAX_CLUSTER_INDEX ==> (r matches Ok(bytes) && bytes@ == zeros(
                old(self).files()[path@].2 as nat,
            )),
            old(self).files().dom().contains(path@) && old(self).files()[path@].0 < 2 ==> r is Err,
    {
        let entry = match self.cache.get(path) {
            Some(entry) => entry,
            None => return Err("no file at that path"),
        };
        if self.boot_sector.bytes_per_sector() == 0 || self.boot_sector.sectors_per_cluster() == 0 {
            return Err("boot sector gives an empty sector or cluster");
        }
        read_file_bytes(&mut self.drive, self.lba_start, &self.boot_sector, entry.index, entry.size)
    }
}


/// The boot sector of a VFAT partition of `lba_sector_count` sectors, from its 512 bytes: an
/// error when it counts another number of sectors, or gives no sector size.
pub fn check_boot_sector(raw: [u8; 512], lba_sector_count: u32) -> (r: Result<VfatBootSector, &'static str>)
    ensures
        r is Ok <==> spec_sector_count(raw@) == lba_sector_count && spec_bytes_per_sector(raw@) > 0,
        r matches Ok(boot_sector) ==> boot_sector@ == raw@,
{
    let boot_sector = VfatBootSector::new(raw);
    if boot_sector.sector_count() != lba_sector_count as usize {
        return Err("boot sector does not have the same number of sectors as its partition");
    }
    if boot_sector.bytes_per_sector() == 0 {
        return Err("boot sector gives no sector size");
    }
    Ok(boot_sector)
}

/// Mounts the VFAT partition of `drive` that starts at sector `lba_start` and spans
/// `lba_sector_count` sectors: reads its boot sector, sector `lba_start`, which must count as
/// many sectors as the partition has, and gathers the root directory.
pub fn init<D: BlockReader>(drive: D, lba_start: u32, lba_sector_count: u32) -> (r: Result<
    VfatFileSystem<D>,
    &'static str,
>)
    ensures
        r matches Ok(fs) ==> fs.spec_lba_start() == lba_start && fs.boot_sector_bytes()
            == drive.contents(lba_start as int, 512) && spec_sector_count(fs.boot_sector_bytes())
            == lba_sector_count && spec_bytes_per_sector(fs.boot_sector_bytes()) > 0 && fs.files()
            == scan_entries(root_entries(drive, fs.boot_sector_bytes(), lba_start)).2,
{
    let ghost drive0 = drive;
    let mut drive = drive;
    let mut buf = zeroed(SECTOR_SIZE);
    match drive.read_blocks(lba_start as usize, buf.as_mut_slice()) {
        Ok(_) => {},
        Err(_) => return Err("failed to read VFAT boot sector"),
    }
    let mut raw = [0u8; 512];
    let mut i: usize = 0;
    while i < SECTOR_SIZE
        invariant
            i <= SECTOR_SIZE,
            buf@.len() == SECTOR_SIZE,
            raw@.len() == SECTOR_SIZE,
            forall|j: int| 0 <= j < i ==> raw@[j] == buf@[j],
        decreases SECTOR_SIZE - i,
    {
        raw[i] = buf[i];
        i = i + 1;
    }
    proof {
        assert(raw@ =~= drive0.contents(lba_start as int, 512));
    }
    let boot_sector = match check_boot_sector(raw, lba_sector_count) {
        Ok(boot_sector) => boot_sector,
        Err(e) => return Err(e),
    };
    let r = VfatFileSystem::new(drive, boot_sector, lba_start);
    proof {
        assert(root_entries(drive, boot_sector@, lba_start) =~= root_entries(drive0, boot_sector@, lba_start));
    }
    r
}

} // verus!
