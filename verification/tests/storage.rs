use rhubarb::ata::{parse_partition_table, Partition, PartitionTableError, FSTYPE_VFAT};
use rhubarb::fs::FileSystem;
use rhubarb::io::{BlockReader, BlockSize, ReadError};
use rhubarb::vfat::{
    check_boot_sector, init, read_file_bytes, Attribute, EntryKind, RootDirectoryScan, VfatBootSector,
    VfatDirectoryEntry, VfatFileSystem,
};

/// A drive held in memory, 512 bytes a sector.
struct MemoryDrive {
    bytes: Vec<u8>,
}

impl BlockSize for MemoryDrive {
    fn block_size(&self) -> usize {
        512
    }
}

impl BlockReader for MemoryDrive {
    fn read_blocks(&mut self, offset: usize, buffer: &mut [u8]) -> Result<usize, ReadError> {
        let start = offset * 512;
        if start + buffer.len() > self.bytes.len() {
            return Err(ReadError::OffsetPastEnd { offset, max_offset: self.bytes.len() / 512 });
        }
        buffer.copy_from_slice(&self.bytes[start..start + buffer.len()]);
        Ok(buffer.len() / 512)
    }
}

fn put16(b: &mut [u8], at: usize, v: u16) {
    b[at..at + 2].copy_from_slice(&v.to_le_bytes());
}

fn put32(b: &mut [u8], at: usize, v: u32) {
    b[at..at + 4].copy_from_slice(&v.to_le_bytes());
}

/// A FAT16 volume of 64 sectors: boot sector, one FAT sector, one root directory sector,
/// then one sector per cluster. "hello.txt" (600 bytes) takes clusters 2 and 3.
fn volume() -> Vec<u8> {
    let mut v = vec![0u8; 64 * 512];
    put16(&mut v, 11, 512);
    v[13] = 1;
    put16(&mut v, 14, 1);
    v[16] = 1;
    put16(&mut v, 17, 16);
    put16(&mut v, 19, 64);
    put16(&mut v, 22, 1);
    v[3..11].copy_from_slice(b"RHUBARB ");
    v[43..54].copy_from_slice(b"VOLUME     ");
    v[54..62].copy_from_slice(b"FAT16   ");
    // FAT: cluster 2 -> 3 -> end of chain.
    put16(&mut v, 512 + 4, 3);
    put16(&mut v, 512 + 6, 0xFFFF);
    // Root directory: a long name entry, then the file.
    let root = 2 * 512;
    let name: Vec<u16> = "hello.txt".encode_utf16().collect();
    let lfn = &mut v[root..root + 32];
    lfn[0] = 0x41;
    lfn[11] = 0x0F;
    let positions = [1, 3, 5, 7, 9, 14, 16, 18, 20, 22, 24, 28, 30];
    for (j, pos) in positions.iter().enumerate() {
        let unit = if j < name.len() { name[j] } else if j == name.len() { 0 } else { 0xFFFF };
        put16(lfn, *pos, unit);
    }
    let file = &mut v[root + 32..root + 64];
    file[0..11].copy_from_slice(b"HELLO   TXT");
    file[11] = 0x20;
    put16(file, 26, 2);
    put32(file, 28, 600);
    for b in &mut v[3 * 512..4 * 512] {
        *b = b'a';
    }
    for b in &mut v[4 * 512..4 * 512 + 88] {
        *b = b'b';
    }
    v
}

fn boot_sector_of(v: &[u8]) -> VfatBootSector {
    let mut raw = [0u8; 512];
    raw.copy_from_slice(&v[..512]);
    VfatBootSector::new(raw)
}

#[test]
fn boot_sector_fields() {
    let v = volume();
    let b = boot_sector_of(&v);
    assert_eq!(b.bytes_per_sector(), 512);
    assert_eq!(b.sectors_per_cluster(), 1);
    assert_eq!(b.reserved_sector_count(), 1);
    assert_eq!(b.root_entry_count(), 16);
    assert_eq!(b.sector_count(), 64);
    assert!(!b.is_fat32());
    assert_eq!(b.root_sector_offset(), 2);
    assert_eq!(b.root_sector_count(), 1);
    assert_eq!(b.data_sector_offset(), 3);
    assert_eq!(b.data_sector_count(), 61);
    assert_eq!(b.cluster_count(), 61);
    assert_eq!(b.entries_per_cluster(), 16);
    assert_eq!(b.oem_name(), "RHUBARB ");
    assert_eq!(b.volume_label(), "VOLUME     ");
    assert_eq!(b.fs_type_label(), "FAT16   ");
    assert_eq!(b.cluster_sector_offset(2), 3);
    assert_eq!(b.cluster_sector_offset(5), 6);
    assert_eq!(b.fat_entry_position(3), (1, 6));
    assert_eq!(b.fat_entry_position(300), (2, 88));
}

#[test]
fn directory_entries_decode() {
    let v = volume();
    let mut raw = [0u8; 32];
    raw.copy_from_slice(&v[1024..1056]);
    let lfn = VfatDirectoryEntry::new(raw);
    assert_eq!(lfn.attr(), Some(Attribute::LongFileName));
    assert_eq!(lfn.kind(), EntryKind::Data);
    assert_eq!(lfn.lfn_index(), Some(0x41));
    assert_eq!(lfn.long_file_name().as_deref(), Some("hello.txt"));
    assert_eq!(lfn.short_file_name(), None);
    raw.copy_from_slice(&v[1056..1088]);
    let file = VfatDirectoryEntry::new(raw);
    assert_eq!(file.attr(), Some(Attribute::Archive));
    assert_eq!(file.cluster_index(), 2);
    assert_eq!(file.size(), 600);
    assert_eq!(file.short_file_name().as_deref(), Some("HELLO   TXT"));
    assert_eq!(file.long_file_name(), None);
    let empty = VfatDirectoryEntry::new([0u8; 32]);
    assert_eq!(empty.kind(), EntryKind::Null);
    assert_eq!(empty.attr(), None);
    let mut deleted = [0u8; 32];
    deleted[0] = 0xE5;
    assert_eq!(VfatDirectoryEntry::new(deleted).kind(), EntryKind::Unused);
}

#[test]
fn file_bytes_follow_the_cluster_chain() {
    let v = volume();
    let b = boot_sector_of(&v);
    let mut drive = MemoryDrive { bytes: v.clone() };
    let bytes = read_file_bytes(&mut drive, 0, &b, 2, 600).unwrap();
    assert_eq!(bytes.len(), 600);
    assert!(bytes[..512].iter().all(|x| *x == b'a'));
    assert!(bytes[512..].iter().all(|x| *x == b'b'));
    // A chain that ends at once gives zeros.
    assert_eq!(read_file_bytes(&mut drive, 0, &b, 0xFFF8, 5).unwrap(), vec![0u8; 5]);
    // Cluster numbers below 2 name no data.
    assert!(read_file_bytes(&mut drive, 0, &b, 1, 5).is_err());
}

#[test]
fn bad_cluster_is_refused() {
    let mut v = volume();
    put16(&mut v, 512 + 4, 0xFFF7);
    let b = boot_sector_of(&v);
    let mut drive = MemoryDrive { bytes: v };
    assert_eq!(read_file_bytes(&mut drive, 0, &b, 2, 600), Err("encountered bad cluster"));
}

#[test]
fn file_system_lists_and_reads_root_files() {
    let v = volume();
    let drive = MemoryDrive { bytes: v.clone() };
    let mut fs = VfatFileSystem::new(drive, boot_sector_of(&v), 0).unwrap();
    assert_eq!(fs.list("/").unwrap(), vec!["/hello.txt".to_string()]);
    assert_eq!(fs.list("/nothing").unwrap(), Vec::<String>::new());
    assert_eq!(fs.read("/hello.txt").unwrap().len(), 600);
    assert!(fs.read("/missing").is_err());
}

#[test]
fn mounting_checks_the_sector_count() {
    let v = volume();
    assert!(init(MemoryDrive { bytes: v.clone() }, 0, 64).is_ok());
    assert!(init(MemoryDrive { bytes: v }, 0, 63).is_err());
}

#[test]
fn root_scan_uses_short_names_without_long_ones() {
    let mut scan = RootDirectoryScan::new();
    let mut raw = [0u8; 32];
    raw[0..11].copy_from_slice(b"README  MD ");
    raw[11] = 0x20;
    assert!(!scan.record(&VfatDirectoryEntry::new(raw)));
    assert!(scan.record(&VfatDirectoryEntry::new([0u8; 32])));
}

fn mbr(entry: [u8; 16]) -> Vec<u8> {
    let mut m = vec![0u8; 512];
    m[446..462].copy_from_slice(&entry);
    m[510] = 0x55;
    m[511] = 0xAA;
    m
}

fn entry(attrs: u8, fs_type: u8, start: u32, count: u32) -> [u8; 16] {
    let mut e = [0u8; 16];
    e[0] = attrs;
    e[4] = fs_type;
    e[8..12].copy_from_slice(&start.to_le_bytes());
    e[12..16].copy_from_slice(&count.to_le_bytes());
    e
}

#[test]
fn partition_table_cases() {
    let parts = parse_partition_table(&mbr(entry(0x80, FSTYPE_VFAT, 63, 937)), 1000).unwrap();
    assert_eq!(parts, vec![Partition::Boot { fs_type: 6, lba_start: 63, lba_sector_count: 937 }]);
    assert_eq!(parse_partition_table(&mbr([0u8; 16]), 1000).unwrap(), vec![]);
    assert_eq!(
        parse_partition_table(&mbr(entry(0x00, 6, 63, 937)), 1000),
        Err(PartitionTableError::InactivePartition)
    );
    assert_eq!(
        parse_partition_table(&mbr(entry(0x80, 6, 63, 900)), 1000),
        Err(PartitionTableError::PartialDrive)
    );
    let mut unsigned = mbr(entry(0x80, 6, 63, 937));
    unsigned[511] = 0;
    assert_eq!(parse_partition_table(&unsigned, 1000), Err(PartitionTableError::NotBootSector));
    assert_eq!(PartitionTableError::NotBootSector.message(), "MBR was not a valid boot sector");
}

#[test]
fn the_boot_sector_must_fit_its_partition() {
    let v = volume();
    let mut raw = [0u8; 512];
    raw.copy_from_slice(&v[..512]);
    assert!(check_boot_sector(raw, 64).is_ok());
    assert_eq!(
        check_boot_sector(raw, 65).err(),
        Some("boot sector does not have the same number of sectors as its partition")
    );
    raw[11] = 0;
    raw[12] = 0;
    assert_eq!(check_boot_sector(raw, 64).err(), Some("boot sector gives no sector size"));
}

#[test]
fn long_name_units_become_characters() {
    let mut raw = [0u8; 32];
    raw[0] = 0x41;
    raw[11] = 0x0F;
    // "a", then U+00E9, then the end of the name.
    raw[1] = 0x61;
    raw[3] = 0xE9;
    let entry = VfatDirectoryEntry::new(raw);
    assert_eq!(entry.long_file_name().as_deref(), Some("a\u{E9}"));
}
