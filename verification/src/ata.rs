//! The partition table in the master boot record (MBR) of an ATA drive.

use vstd::prelude::*;
use crate::io::BlockReader;
use crate::vfat::{le32, read_le32};

verus! {

/// The size of a sector, in bytes.
pub const SECTOR_SIZE: usize = 512;
/// The file system type that marks a VFAT partition.
pub const FSTYPE_VFAT: u8 = 0x06;
/// The drive attributes of an active (bootable) partition.
pub const ACTIVE_PARTITION: u8 = 0x80;
/// Where the four 16-byte entries of the partition table start.
pub const PARTITION_TABLE_OFFSET: usize = 446;

/// A partition listed in the partition table.
#[derive(Clone, Copy, Debug, PartialEq, Eq, Structural)]
pub enum Partition {
    Boot { fs_type: u8, lba_start: u32, lba_sector_count: u32 },
}

/// Why a partition table was refused.
#[derive(Clone, Copy, Debug, PartialEq, Eq, Structural)]
pub enum PartitionTableError {
    /// The sector does not end with the boot signature.
    NotBootSector,
    /// A used entry is not marked active.
    InactivePartition,
    /// A used entry's partition does not end at the end of the drive.
    PartialDrive,
}

impl PartitionTableError {
    pub fn message(&self) -> (r: &'static str)
        ensures
            *self == PartitionTableError::NotBootSector ==> r@ == "MBR was not a valid boot sector"@,
            *self == PartitionTableError::InactivePartition ==> r@
                == "MBR partition table contained inactive partition"@,
            *self == PartitionTableError::PartialDrive ==> r@
                == "MBR partition table entry should cover the whole drive"@,
    {
        match self {
            PartitionTableError::NotBootSector => "MBR was not a valid boot sector",
            PartitionTableError::InactivePartition => "MBR partition table contained inactive partition",
            PartitionTableError::PartialDrive => "MBR partition table entry should cover the whole drive",
        }
    }
}

/// The first byte of the `k`-th entry of the partition table.
pub open spec fn entry_base(k: int) -> int {
    446 + 16 * k
}

/// Byte `j` of the `k`-th entry.
pub open spec fn entry_byte(mbr: Seq<u8>, k: int, j: int) -> u8 {
    mbr[entry_base(k) + j]
}

/// Whether the `k`-th entry is in use: some byte of it is not zero.
pub open spec fn entry_used(mbr: Seq<u8>, k: int) -> bool {
    exists|j: int| 0 <= j < 16 && #[trigger] entry_byte(mbr, k, j) != 0
}

/// The first sector of the `k`-th entry's partition.
pub open spec fn entry_lba_start(mbr: Seq<u8>, k: int) -> int {
    let b = entry_base(k);
    le32(mbr[b + 8], mbr[b + 9], mbr[b + 10], mbr[b + 11])
}

/// The number of sectors of the `k`-th entry's partition.
pub open spec fn entry_sector_count(mbr: Seq<u8>, k: int) -> int {
    let b = entry_base(k);
    le32(mbr[b + 12], mbr[b + 13], mbr[b + 14], mbr[b + 15])
}

/// The partition that the `k`-th entry describes.
pub open spec fn entry_partition(mbr: Seq<u8>, k: int) -> Partition {
    Partition::Boot {
        fs_type: mbr[entry_base(k) + 4],
        lba_start: entry_lba_start(mbr, k) as u32,
        lba_sector_count: entry_sector_count(mbr, k) as u32,
    }
}

/// The first `k` entries read in order: the partitions of those in use, or the error of the
/// first used one that is inactive or does not end at the end of a drive of `sector_count`
/// sectors.
pub open spec fn scan_entries(mbr: Seq<u8>, sector_count: u32, k: int) -> Result<
    Seq<Partition>,
    PartitionTableError,
>
    decreases k,
{
    if k <= 0 {
        Ok(Seq::empty())
    } else {
        match scan_entries(mbr, sector_count, k - 1) {
            Err(e) => Err(e),
            Ok(ps) => if !entry_used(mbr, k - 1) {
                Ok(ps)
            } else if mbr[entry_base(k - 1)] != ACTIVE_PARTITION {
                Err(PartitionTableError::InactivePartition)
            } else if entry_lba_start(mbr, k - 1) + entry_sector_count(mbr, k - 1)
                != sector_count {
                Err(PartitionTableError::PartialDrive)
            } else {
                Ok(ps.push(entry_partition(mbr, k - 1)))
            },
        }
    }
}

/// Once an entry gives an error, the entries after it do not change it.
proof fn lemma_scan_error_persists(mbr: Seq<u8>, sector_count: u32, k: int, m: int)
    requires
        0 <= k <= m,
        scan_entries(mbr, sector_count, k) is Err,
    ensures
        scan_entries(mbr, sector_count, m) == scan_entries(mbr, sector_count, k),
    decreases m - k,
{
    if m > k {
        lemma_scan_error_persists(mbr, sector_count, k, m - 1);
    }
}

/// What the MBR `mbr` of a drive of `sector_count` sectors lists: its four entries, when it
/// ends with the boot signature 0x55, 0xAA.
pub open spec fn partition_table(mbr: Seq<u8>, sector_count: u32) -> Result<
    Seq<Partition>,
    PartitionTableError,
> {
    if mbr[510] == 0x55 && mbr[511] == 0xAA {
        scan_entries(mbr, sector_count, 4)
    } else {
        Err(PartitionTableError::NotBootSector)
    }
}

/// Reads the partition table of the MBR `mbr` of a drive of `drive_sector_count` sectors.
pub fn parse_partition_table(mbr: &[u8], drive_sector_count: usize) -> (r: Result<
    Vec<Partition>,
    PartitionTableError,
>)
    requires
        mbr@.len() == SECTOR_SIZE,
    ensures
        r matches Ok(v) ==> partition_table(mbr@, drive_sector_count as u32) == Ok::<
            Seq<Partition>,
            PartitionTableError,
        >(v@),
        r matches Err(e) ==> partition_table(mbr@, drive_sector_count as u32) == Err::<
            Seq<Partition>,
            PartitionTableError,
        >(e),
{
    if !(mbr[510] == 0x55 && mbr[511] == 0xAA) {
        return Err(PartitionTableError::NotBootSector);
    }
    let sector_count = drive_sector_count as u32;
    let mut partitions: Vec<Partition> = Vec::with_capacity(1);
    let mut k: usize = 0;
    while k < 4
        invariant
            k <= 4,
            mbr@.len() == SECTOR_SIZE,
            mbr@[510] == 0x55 && mbr@[511] == 0xAA,
            sector_count == drive_sector_count as u32,
            scan_entries(mbr@, sector_count, k as int) == Ok::<Seq<Partition>, PartitionTableError>(
                partitions@,
            ),
        decreases 4 - k,
    {
        let base: usize = PARTITION_TABLE_OFFSET + 16 * k;
        let mut used = false;
        let mut j: usize = 0;
        while j < 16
            invariant
                j <= 16,
                k < 4,
                base == entry_base(k as int),
                mbr@.len() == SECTOR_SIZE,
                used <==> exists|i: int| 0 <= i < j && #[trigger] entry_byte(mbr@, k as int, i) != 0,
            decreases 16 - j,
        {
            if mbr[base + j] != 0 {
                used = true;
                assert(entry_byte(mbr@, k as int, j as int) != 0);
            }
            j = j + 1;
        }
        if used {
            if mbr[base] != ACTIVE_PARTITION {
                proof {
                    lemma_scan_error_persists(mbr@, sector_count, k + 1, 4);
                }
                return Err(PartitionTableError::InactivePartition);
            }
            let lba_start = read_le32(mbr[base + 8], mbr[base + 9], mbr[base + 10], mbr[base + 11]);
            let lba_sector_count = read_le32(
                mbr[base + 12],
                mbr[base + 13],
                mbr[base + 14],
                mbr[base + 15],
            );
            if lba_start as u64 + lba_sector_count as u64 != sector_count as u64 {
                proof {
                    lemma_scan_error_persists(mbr@, sector_count, k + 1, 4);
                }
                return Err(PartitionTableError::PartialDrive);
            }
            partitions.push(
                Partition::Boot { fs_type: mbr[base + 4], lba_start, lba_sector_count },
            );
        }
        k = k + 1;
    }
    Ok(partitions)
}

/// Reads the MBR, sector 0 of `drive`, and the partition table in it; the drive has
/// `drive_sector_count` sectors.
pub fn get_drive_partitions<D: BlockReader>(drive: &mut D, drive_sector_count: usize) -> (r:
    Result<Vec<Partition>, &'static str>)
    ensures
        r matches Ok(v) ==> partition_table(
            old(drive).contents(0, SECTOR_SIZE as nat),
            drive_sector_count as u32,
        ) == Ok::<Seq<Partition>, PartitionTableError>(v@),
        forall|o: int, l: nat| #[trigger] final(drive).contents(o, l) == old(drive).contents(o, l),
{
    let mut buf: Vec<u8> = Vec::new();
    let mut i: usize = 0;
    while i < SECTOR_SIZE
        invariant
            i <= SECTOR_SIZE,
            buf@.len() == i,
        decreases SECTOR_SIZE - i,
    {
        buf.push(0);
        i = i + 1;
    }
    match drive.read_blocks(0, buf.as_mut_slice()) {
        Ok(_) => {},
        Err(_) => return Err("failed to read MBR sector"),
    }
    match parse_partition_table(buf.as_slice(), drive_sector_count) {
        Ok(partitions) => Ok(partitions),
        Err(e) => Err(e.message()),
    }
}

} // verus!
