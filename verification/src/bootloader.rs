//! What the boot loader works out on its way to the kernel: where the kernel's loadable
//! segments lie and which bytes each of them holds, the names under which root objects are
//! handed over, and what each region of the firmware's memory map is.

use vstd::prelude::*;

use crate::boot_info::{MemoryRegion, MemoryRegionKind};
use crate::loader::pow256;

verus! {

/// The program header type of a loadable segment.
pub const PT_LOAD: u32 = 1;

/// UEFI memory types that the kernel may reuse once the firmware's boot services are gone.
pub const UEFI_LOADER_CODE: u32 = 1;
pub const UEFI_LOADER_DATA: u32 = 2;
pub const UEFI_BOOT_SERVICES_CODE: u32 = 3;
pub const UEFI_BOOT_SERVICES_DATA: u32 = 4;
pub const UEFI_CONVENTIONAL: u32 = 7;

/// A program header of an ELF file: a segment, where its bytes lie in the file, and where it
/// goes in memory and how much room it takes there.
#[derive(Clone, Copy, Debug, PartialEq, Eq, Structural)]
pub struct ProgramHeader {
    pub kind: u32,
    pub offset: u64,
    pub virtual_addr: u64,
    pub file_size: u64,
    pub mem_size: u64,
}

/// The lowest start and the highest end of the loadable segments among `headers`;
/// `(usize::MAX, 0)` when there is none.
pub open spec fn load_range(headers: Seq<ProgramHeader>) -> (int, int)
    decreases headers.len(),
{
    if headers.len() == 0 {
        (usize::MAX as int, 0)
    } else {
        let (start, end) = load_range(headers.drop_last());
        let h = headers.last();
        if h.kind == PT_LOAD {
            let s = h.virtual_addr as usize as int;
            let e = (h.virtual_addr + h.mem_size) as u64 as usize as int;
            (if s < start {
                s
            } else {
                start
            }, if e > end {
                e
            } else {
                end
            })
        } else {
            (start, end)
        }
    }
}

/// The range of addresses the kernel's loadable segments take.
pub fn kernel_range(headers: &[ProgramHeader]) -> (r: (usize, usize))
    requires
        forall|i: int|
            0 <= i < headers@.len() && (#[trigger] headers@[i]).kind == PT_LOAD ==> headers@[i].virtual_addr
                + headers@[i].mem_size <= u64::MAX,
    ensures
        r.0 as int == load_range(headers@).0,
        r.1 as int == load_range(headers@).1,
{
    let mut start_addr = usize::MAX;
    let mut end_addr: usize = 0;
    let mut i: usize = 0;
    while i < headers.len()
        invariant
            i <= headers@.len(),
            forall|j: int|
                0 <= j < headers@.len() && (#[trigger] headers@[j]).kind == PT_LOAD ==> headers@[j].virtual_addr
                    + headers@[j].mem_size <= u64::MAX,
            (start_addr as int, end_addr as int) == load_range(headers@.take(i as int)),
        decreases headers@.len() - i,
    {
        let h = headers[i];
        proof {
            assert(headers@.take(i + 1).drop_last() =~= headers@.take(i as int));
        }
        if h.kind == PT_LOAD {
            let start = h.virtual_addr as usize;
            let end = (h.virtual_addr + h.mem_size) as usize;
            if start < start_addr {
                start_addr = start;
            }
            if end > end_addr {
                end_addr = end;
            }
        }
        i = i + 1;
    }
    proof {
        assert(headers@.take(i as int) =~= headers@);
    }
    (start_addr, end_addr)
}

/// The number of pages from `start` to `end`, the last one partly used.
pub fn kernel_page_count(start: usize, end: usize) -> (r: usize)
    requires
        start <= end,
    ensures
        r as int == (end - start + 4095) / 4096,
{
    let len = end - start;
    if len % 4096 == 0 {
        len / 4096
    } else {
        len / 4096 + 1
    }
}

/// The bytes a loadable segment holds in memory: its bytes in the file, then zeros up to its
/// size in memory.
pub fn loaded_segment(file: &[u8], header: &ProgramHeader) -> (r: Vec<u8>)
    requires
        header.offset + header.file_size <= file@.len(),
        header.file_size <= header.mem_size <= usize::MAX,
    ensures
        r@ == file@.subrange(header.offset as int, header.offset + header.file_size) + Seq::new(
            (header.mem_size - header.file_size) as nat,
            |_i: int| 0u8,
        ),
{
    let file_len = file.len();
    assert(header.offset <= file_len);
    let offset = header.offset as usize;
    let size_in_file = header.file_size as usize;
    let size_in_memory = header.mem_size as usize;
    let mut bytes: Vec<u8> = Vec::new();
    let mut i: usize = 0;
    while i < size_in_memory
        invariant
            offset == header.offset,
            size_in_file == header.file_size,
            file_len == file@.len(),
            size_in_memory == header.mem_size,
            offset + size_in_file <= file@.len(),
            size_in_file <= size_in_memory,
            i <= size_in_memory,
            bytes@.len() == i,
            forall|j: int|
                0 <= j < i ==> #[trigger] bytes@[j] == if j < size_in_file {
                    file@[offset + j]
                } else {
                    0u8
                },
        decreases size_in_memory - i,
    {
        if i < size_in_file {
            bytes.push(file[offset + i]);
        } else {
            bytes.push(0);
        }
        i = i + 1;
    }
    proof {
        assert(bytes@ =~= file@.subrange(header.offset as int, header.offset + header.file_size)
            + Seq::new((header.mem_size - header.file_size) as nat, |_i: int| 0u8));
    }
    bytes
}

/// What the kernel may do with memory of a UEFI memory type: reuse it, or leave it to the
/// firmware.
pub open spec fn region_kind(memory_type: u32) -> MemoryRegionKind {
    if memory_type == UEFI_CONVENTIONAL || memory_type == UEFI_LOADER_CODE || memory_type
        == UEFI_LOADER_DATA || memory_type == UEFI_BOOT_SERVICES_CODE || memory_type
        == UEFI_BOOT_SERVICES_DATA {
        MemoryRegionKind::Free
    } else {
        MemoryRegionKind::Uefi(memory_type)
    }
}

/// The region of `page_count` pages at `phys_start` that the firmware gave `memory_type`.
pub fn memory_region(phys_start: u64, page_count: u64, memory_type: u32) -> (r: MemoryRegion)
    requires
        phys_start <= usize::MAX,
        page_count * 4096 <= usize::MAX,
    ensures
        r.base == phys_start,
        r.size == page_count * 4096,
        r.kind == region_kind(memory_type),
{
    let kind = if memory_type == UEFI_CONVENTIONAL || memory_type == UEFI_LOADER_CODE
        || memory_type == UEFI_LOADER_DATA || memory_type == UEFI_BOOT_SERVICES_CODE
        || memory_type == UEFI_BOOT_SERVICES_DATA {
        MemoryRegionKind::Free
    } else {
        MemoryRegionKind::Uefi(memory_type)
    };
    MemoryRegion { base: phys_start as usize, size: page_count as usize * 4096, kind }
}

/// Whether a file name ends in `.o`.
pub open spec fn is_object_file(name: Seq<u8>) -> bool {
    name.len() >= 2 && name[name.len() - 2] == 46u8 && name[name.len() - 1] == 111u8
}

/// The name under which an object file is handed to the kernel: the file's name without
/// `.o`, padded with zeros; none for a file that is no object.
pub fn root_object_name(file_name: &[u8]) -> (r: Option<[u8; 32]>)
    requires
        is_object_file(file_name@) ==> file_name@.len() - 2 <= 32,
    ensures
        r is None <==> !is_object_file(file_name@),
        r matches Some(name) ==> name@ == file_name@.take(file_name@.len() - 2) + Seq::new(
            (32 - (file_name@.len() - 2)) as nat,
            |_i: int| 0u8,
        ),
{
    let len = file_name.len();
    if len < 2 || file_name[len - 2] != 46 || file_name[len - 1] != 111 {
        return None;
    }
    let name_end = len - 2;
    let mut name = [0u8; 32];
    let mut i: usize = 0;
    while i < name_end
        invariant
            name_end == file_name@.len() - 2,
            name_end <= 32,
            i <= name_end,
            forall|j: int| 0 <= j < i ==> #[trigger] name@[j] == file_name@[j],
            forall|j: int| i <= j < 32 ==> #[trigger] name@[j] == 0u8,
        decreases name_end - i,
    {
        name.set(i, file_name[i]);
        i = i + 1;
    }
    proof {
        assert(name@ =~= file_name@.take(file_name@.len() - 2) + Seq::new(
            (32 - (file_name@.len() - 2)) as nat,
            |_i: int| 0u8,
        ));
    }
    Some(name)
}

/// The little-endian number in the `width` bytes of `bytes` from `offset`.
pub open spec fn le_value(bytes: Seq<u8>, offset: int, width: nat) -> int
    decreases width,
{
    if width == 0 {
        0
    } else {
        bytes[offset] + 256 * le_value(bytes, offset + 1, (width - 1) as nat)
    }
}

proof fn lemma_le_value_bound(bytes: Seq<u8>, offset: int, width: nat)
    ensures
        0 <= le_value(bytes, offset, width) < pow256(width as int),
    decreases width,
{
    if width > 0 {
        lemma_le_value_bound(bytes, offset + 1, (width - 1) as nat);
        assert(pow256(width as int) == 256 * pow256(width - 1));
    }
}

/// Reads the little-endian number in the `width` bytes of `bytes` from `offset`.
fn read_le(bytes: &[u8], offset: usize, width: usize) -> (r: u64)
    requires
        width <= 8,
        offset + width <= bytes@.len(),
    ensures
        r == le_value(bytes@, offset as int, width as nat),
{
    let n = bytes.len();
    let mut acc: u64 = 0;
    let mut k: usize = width;
    proof {
        lemma_pow256_values();
    }
    while k > 0
        invariant
            width <= 8,
            offset + width <= bytes@.len(),
            n == bytes@.len(),
            k <= width,
            acc == le_value(bytes@, offset + k, (width - k) as nat),
            pow256(8) == 0x1_0000_0000_0000_0000,
        decreases k,
    {
        proof {
            lemma_le_value_bound(bytes@, offset + k, (width - k) as nat);
            lemma_pow256_monotone((width - k) as int, 7);
        }
        k = k - 1;
        let b = bytes[offset + k];
        proof {
            assert(acc < pow256(7));
            assert(pow256(8) == 256 * pow256(7));
        }
        acc = b as u64 + 256 * acc;
    }
    acc
}

proof fn lemma_pow256_values()
    ensures
        pow256(2) == 0x1_0000,
        pow256(4) == 0x1_0000_0000,
        pow256(7) == 0x100_0000_0000_0000,
        pow256(8) == 0x1_0000_0000_0000_0000,
{
    reveal_with_fuel(pow256, 9);
}

proof fn lemma_pow256_monotone(a: int, b: int)
    requires
        0 <= a <= b,
    ensures
        pow256(a) <= pow256(b),
    decreases b - a,
{
    if a < b {
        lemma_pow256_monotone(a, b - 1);
        assert(pow256(b) == 256 * pow256(b - 1));
        lemma_pow256_positive(b - 1);
    }
}

proof fn lemma_pow256_positive(a: int)
    ensures
        pow256(a) >= 1,
    decreases a,
{
    if a > 0 {
        lemma_pow256_positive(a - 1);
    }
}

/// Why the kernel's file is no ELF file the boot loader can load.
#[derive(Clone, Copy, Debug, PartialEq, Eq, Structural)]
pub enum ElfError {
    /// The file is shorter than its header, or its program headers lie past its end.
    Truncated,
    /// The file does not start with the ELF magic number.
    NotElf,
    /// The file is not a 64-bit little-endian one.
    Unsupported,
    /// A program header is shorter than a 64-bit one.
    ShortProgramHeader,
}

/// Whether `bytes` start with an ELF header of a 64-bit little-endian file.
pub open spec fn elf_header_ok(bytes: Seq<u8>) -> bool {
    bytes.len() >= 64 && bytes[0] == 0x7F && bytes[1] == 0x45 && bytes[2] == 0x4C && bytes[3]
        == 0x46 && bytes[4] == 2 && bytes[5] == 1
}

/// The program header `i` of a file whose headers are `size` bytes each from `offset`.
pub open spec fn program_header_at(bytes: Seq<u8>, offset: int, size: int, i: int) -> ProgramHeader {
    let at = offset + i * size;
    ProgramHeader {
        kind: le_value(bytes, at, 4) as u32,
        offset: le_value(bytes, at + 8, 8) as u64,
        virtual_addr: le_value(bytes, at + 16, 8) as u64,
        file_size: le_value(bytes, at + 32, 8) as u64,
        mem_size: le_value(bytes, at + 40, 8) as u64,
    }
}

/// The entry point and the program headers of a 64-bit little-endian ELF file.
pub fn parse_elf(bytes: &[u8]) -> (r: Result<(u64, Vec<ProgramHeader>), ElfError>)
    ensures
        bytes@.len() < 64 ==> r == Err::<(u64, Vec<ProgramHeader>), ElfError>(ElfError::Truncated),
        bytes@.len() >= 64 && !(bytes@[0] == 0x7F && bytes@[1] == 0x45 && bytes@[2] == 0x4C
            && bytes@[3] == 0x46) ==> r == Err::<(u64, Vec<ProgramHeader>), ElfError>(ElfError::NotElf),
        bytes@.len() >= 64 && bytes@[0] == 0x7F && bytes@[1] == 0x45 && bytes@[2] == 0x4C && bytes@[3]
            == 0x46 && !(bytes@[4] == 2 && bytes@[5] == 1) ==> r == Err::<
            (u64, Vec<ProgramHeader>),
            ElfError,
        >(ElfError::Unsupported),
        elf_header_ok(bytes@) ==> {
            let phoff = le_value(bytes@, 32, 8);
            let phentsize = le_value(bytes@, 54, 2);
            let phnum = le_value(bytes@, 56, 2);
            if phnum > 0 && phentsize < 56 {
                r == Err::<(u64, Vec<ProgramHeader>), ElfError>(ElfError::ShortProgramHeader)
            } else if phoff + phnum * phentsize > bytes@.len() {
                r == Err::<(u64, Vec<ProgramHeader>), ElfError>(ElfError::Truncated)
            } else {
                r matches Ok((entry, headers)) && entry == le_value(bytes@, 24, 8)
                    && headers@.len() == phnum && forall|i: int|
                    0 <= i < phnum ==> #[trigger] headers@[i] == program_header_at(
                        bytes@,
                        phoff,
                        phentsize,
                        i,
                    )
            }
        },
{
    let len = bytes.len();
    if len < 64 {
        return Err(ElfError::Truncated);
    }
    if bytes[0] != 0x7F || bytes[1] != 0x45 || bytes[2] != 0x4C || bytes[3] != 0x46 {
        return Err(ElfError::NotElf);
    }
    if bytes[4] != 2 || bytes[5] != 1 {
        return Err(ElfError::Unsupported);
    }
    let entry = read_le(bytes, 24, 8);
    let phoff = read_le(bytes, 32, 8);
    let phentsize = read_le(bytes, 54, 2);
    let phnum = read_le(bytes, 56, 2);
    proof {
        lemma_le_value_bound(bytes@, 54, 2);
        lemma_le_value_bound(bytes@, 56, 2);
        lemma_pow256_values();
    }
    if phnum > 0 && phentsize < 56 {
        return Err(ElfError::ShortProgramHeader);
    }
    proof {
        assert(phnum * phentsize <= 65535 * 65535) by (nonlinear_arith)
            requires
                phnum < 65536,
                phentsize < 65536,
        ;
    }
    if phoff > len as u64 || phnum * phentsize > len as u64 - phoff {
        return Err(ElfError::Truncated);
    }
    let mut headers: Vec<ProgramHeader> = Vec::new();
    let mut i: u64 = 0;
    while i < phnum
        invariant
            len == bytes@.len(),
            i <= phnum,
            phnum > 0 ==> phentsize >= 56,
            phoff + phnum * phentsize <= len,
            phnum < 65536,
            phentsize < 65536,
            phoff == le_value(bytes@, 32, 8),
            phentsize == le_value(bytes@, 54, 2),
            headers@.len() == i,
            forall|k: int|
                0 <= k < i ==> #[trigger] headers@[k] == program_header_at(bytes@, phoff as int, phentsize as int, k),
        decreases phnum - i,
    {
        proof {
            assert(i * phentsize + phentsize <= phnum * phentsize) by (nonlinear_arith)
                requires
                    i < phnum,
            ;
        }
        let at = (phoff + i * phentsize) as usize;
        let kind = read_le(bytes, at, 4);
        let offset = read_le(bytes, at + 8, 8);
        let virtual_addr = read_le(bytes, at + 16, 8);
        let file_size = read_le(bytes, at + 32, 8);
        let mem_size = read_le(bytes, at + 40, 8);
        proof {
            lemma_le_value_bound(bytes@, at as int, 4);
            lemma_pow256_values();
        }
        headers.push(ProgramHeader { kind: kind as u32, offset, virtual_addr, file_size, mem_size });
        i = i + 1;
    }
    Ok((entry, headers))
}

} // verus!
