use rhubarb::boot_info::MemoryRegionKind;
use rhubarb::bootloader::{
    kernel_page_count, kernel_range, loaded_segment, memory_region, parse_elf, root_object_name,
    ElfError, ProgramHeader, PT_LOAD,
};

fn header(kind: u32, offset: u64, virtual_addr: u64, file_size: u64, mem_size: u64) -> ProgramHeader {
    ProgramHeader { kind, offset, virtual_addr, file_size, mem_size }
}

#[test]
fn kernel_range_spans_the_loadable_segments() {
    let headers = [
        header(6, 0x40, 0x1000, 0x100, 0x100),
        header(PT_LOAD, 0x1000, 0xFFFF_8000_0010_0000, 0x2000, 0x2000),
        header(PT_LOAD, 0x3000, 0xFFFF_8000_0000_0000, 0x800, 0x1800),
        header(4, 0x0, 0x10, 0x10, 0x10),
    ];
    assert_eq!(kernel_range(&headers), (0xFFFF_8000_0000_0000, 0xFFFF_8000_0010_2000));
    assert_eq!(kernel_range(&[header(6, 0, 0x1000, 0, 0)]), (usize::MAX, 0));
}

#[test]
fn kernel_pages_round_up() {
    assert_eq!(kernel_page_count(0x1000, 0x1000), 0);
    assert_eq!(kernel_page_count(0x1000, 0x2000), 1);
    assert_eq!(kernel_page_count(0x1000, 0x2001), 2);
}

#[test]
fn a_segment_is_its_file_bytes_then_zeros() {
    let file = [9u8, 8, 7, 6, 5, 4, 3];
    assert_eq!(loaded_segment(&file, &header(PT_LOAD, 2, 0x1000, 3, 5)), vec![7, 6, 5, 0, 0]);
    assert_eq!(loaded_segment(&file, &header(PT_LOAD, 0, 0x1000, 0, 2)), vec![0, 0]);
    assert_eq!(loaded_segment(&file, &header(PT_LOAD, 5, 0x1000, 2, 2)), vec![4, 3]);
}

#[test]
fn memory_regions_from_uefi_types() {
    let region = memory_region(0x10_0000, 3, 7);
    assert_eq!(region.base, 0x10_0000);
    assert_eq!(region.size, 3 * 4096);
    assert_eq!(region.kind, MemoryRegionKind::Free);
    for free in [1u32, 2, 3, 4, 7] {
        assert_eq!(memory_region(0, 1, free).kind, MemoryRegionKind::Free);
    }
    assert_eq!(memory_region(0, 1, 9).kind, MemoryRegionKind::Uefi(9));
    assert_eq!(memory_region(0, 1, 0).kind, MemoryRegionKind::Uefi(0));
}

#[test]
fn root_object_names() {
    let name = root_object_name(b"shell.o").unwrap();
    assert_eq!(&name[..5], b"shell");
    assert!(name[5..].iter().all(|b| *b == 0));
    assert_eq!(root_object_name(b"kernel"), None);
    assert_eq!(root_object_name(b"o"), None);
    assert_eq!(root_object_name(b".o").unwrap(), [0u8; 32]);
    let long = [b'a'; 34];
    let mut long_file = long.to_vec();
    long_file[32] = b'.';
    long_file[33] = b'o';
    assert_eq!(root_object_name(&long_file).unwrap(), [b'a'; 32]);
}

fn put(bytes: &mut Vec<u8>, at: usize, value: u64, width: usize) {
    for k in 0..width {
        bytes[at + k] = (value >> (8 * k)) as u8;
    }
}

fn elf_file(phnum: u64, phentsize: u64) -> Vec<u8> {
    let mut bytes = vec![0u8; 64 + 2 * 56];
    bytes[..6].copy_from_slice(&[0x7F, b'E', b'L', b'F', 2, 1]);
    put(&mut bytes, 24, 0xFFFF_8000_0010_0040, 8);
    put(&mut bytes, 32, 64, 8);
    put(&mut bytes, 54, phentsize, 2);
    put(&mut bytes, 56, phnum, 2);
    for (i, (kind, offset, vaddr, filesz, memsz)) in
        [(1u64, 0x1000u64, 0xFFFF_8000_0010_0000u64, 0x2000u64, 0x3000u64), (6, 0x40, 0x40, 0x70, 0x70)]
            .into_iter()
            .enumerate()
    {
        let at = 64 + i * 56;
        put(&mut bytes, at, kind, 4);
        put(&mut bytes, at + 8, offset, 8);
        put(&mut bytes, at + 16, vaddr, 8);
        put(&mut bytes, at + 32, filesz, 8);
        put(&mut bytes, at + 40, memsz, 8);
    }
    bytes
}

#[test]
fn parses_the_program_headers_of_an_elf_file() {
    let (entry, headers) = parse_elf(&elf_file(2, 56)).unwrap();
    assert_eq!(entry, 0xFFFF_8000_0010_0040);
    assert_eq!(
        headers,
        vec![
            header(PT_LOAD, 0x1000, 0xFFFF_8000_0010_0000, 0x2000, 0x3000),
            header(6, 0x40, 0x40, 0x70, 0x70)
        ]
    );
    assert_eq!(kernel_range(&headers), (0xFFFF_8000_0010_0000, 0xFFFF_8000_0010_3000));
}

#[test]
fn rejects_what_is_no_loadable_elf_file() {
    assert_eq!(parse_elf(&[0x7F, b'E', b'L', b'F']), Err(ElfError::Truncated));
    let mut not_elf = elf_file(2, 56);
    not_elf[1] = b'X';
    assert_eq!(parse_elf(&not_elf), Err(ElfError::NotElf));
    let mut big_endian = elf_file(2, 56);
    big_endian[5] = 2;
    assert_eq!(parse_elf(&big_endian), Err(ElfError::Unsupported));
    assert_eq!(parse_elf(&elf_file(2, 32)), Err(ElfError::ShortProgramHeader));
    assert_eq!(parse_elf(&elf_file(3, 56)), Err(ElfError::Truncated));
    assert_eq!(parse_elf(&elf_file(0, 0)).unwrap().1, vec![]);
}
