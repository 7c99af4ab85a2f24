use rhubarb::boot_info::{MemoryMap, MemoryRegion, MemoryRegionKind};
use rhubarb::frame_allocator::FrameAllocator;
use rhubarb::memory::AddressSpace;
use rhubarb::memory_tracker::MemoryTracker;
use rhubarb::memory_types::{Frame, Page};
use rhubarb::paging::{Level4PageTable, PageTable, PageTableFlags};
use rhubarb::loader::{
    allocate_section_mappings, apply_relocations, global_section_indices, load_object_sections,
    next_multiple_of, relocation_source, section_mapping_lengths, write_relocation, MappingKind,
    MappingSlot, MappingSlots, Rela, RelocationSource, SectionHeader, SectionKind, Symbol,
    R_X86_64_32, R_X86_64_64, R_X86_64_PC32, SHF_ALLOC, SHF_EXECINSTR, SHF_WRITE, SHT_NOBITS,
    SHT_PROGBITS, STB_GLOBAL, STT_FUNC,
};

fn section(name: &str, flags: u64, section_type: u32, offset: usize, size: usize, align: usize) -> SectionHeader {
    SectionHeader { name: name.to_string(), flags, section_type, offset, size, align }
}

fn kernel_space() -> (AddressSpace, FrameAllocator, MemoryTracker) {
    let mut allocator = FrameAllocator::new();
    allocator.init(&MemoryMap::new(vec![MemoryRegion { base: 0x100000, size: 0x100000, kind: MemoryRegionKind::Free }]));
    let space = AddressSpace {
        name: "kernel".to_string(),
        frame: Frame::new(0x80),
        page_table: Level4PageTable::new(PageTable::new()),
    };
    (space, allocator, MemoryTracker::new())
}

fn sections() -> Vec<SectionHeader> {
    vec![
        section("", 0, 0, 0, 0, 0),
        section(".text", SHF_ALLOC | SHF_EXECINSTR, SHT_PROGBITS, 0x40, 0, 4),
        section(".text.main", SHF_ALLOC | SHF_EXECINSTR, SHT_PROGBITS, 0x40, 0x30, 16),
        section(".text._ZN4core3fmt5write17h0123456789abcdefE", SHF_ALLOC | SHF_EXECINSTR, SHT_PROGBITS, 0x70, 0x10, 16),
        section(".rodata.msg", SHF_ALLOC, SHT_PROGBITS, 0x80, 5, 4),
        section(".data.counter", SHF_ALLOC | SHF_WRITE, SHT_PROGBITS, 0x88, 8, 8),
        section(".bss.buffer", SHF_ALLOC | SHF_WRITE, SHT_NOBITS, 0x90, 100, 8),
        section(".comment", 0, SHT_PROGBITS, 0x90, 10, 0),
    ]
}

#[test]
fn section_kind_names() {
    assert_eq!(SectionKind::Text.name(), ".text");
    assert_eq!(SectionKind::TlsBss.name(), ".tbss");
    assert_eq!(SectionKind::EhFrame.name(), ".eh_frame");
    assert_eq!(SectionKind::GccExceptTable.name(), ".gcc_except_table");
}

#[test]
fn rounding_up() {
    assert_eq!(next_multiple_of(5, 4), Some(8));
    assert_eq!(next_multiple_of(8, 4), Some(8));
    assert_eq!(next_multiple_of(0, 16), Some(0));
    assert_eq!(next_multiple_of(usize::MAX, 2), None);
}

#[test]
fn mapping_lengths() {
    // Code ends at 0x70 + 0x10; read-only holds 8 bytes; writable 8 + 104.
    assert_eq!(section_mapping_lengths(&sections()), Ok((0x80, 8, 112)));
    let lone = vec![section(".data.x", SHF_ALLOC | SHF_WRITE, SHT_PROGBITS, 0, 0, 1)];
    assert!(section_mapping_lengths(&lone).is_err());
    let mut next = 0xFFFF_FF00_0000_0000u64;
    let (mut kernel, mut allocator, mut tracker) = kernel_space();
    let m = allocate_section_mappings("demo", &sections(), &mut next, &mut kernel, &mut allocator, &mut tracker).unwrap();
    let x = m.executable.unwrap();
    assert_eq!(x.name, "demo.x");
    assert_eq!(x.size, 0x80);
    assert_eq!(m.read_only.unwrap().name, "demo.r");
    assert_eq!(m.read_write.unwrap().size, 112);
    assert_eq!(next, 0xFFFF_FF00_0000_0000 + 3 * 4096);
}

#[test]
fn section_mappings_follow_each_other() {
    let mut next = 0xFFFF_FF00_0000_0000u64;
    let (mut kernel, mut allocator, mut tracker) = kernel_space();
    let m = allocate_section_mappings("demo", &sections(), &mut next, &mut kernel, &mut allocator, &mut tracker).unwrap();
    let x = m.executable.unwrap();
    let r = m.read_only.unwrap();
    let w = m.read_write.unwrap();
    assert_eq!(x.addr().to_raw(), 0xFFFF_FF00_0000_0000);
    assert_eq!(r.addr().to_raw(), 0xFFFF_FF00_0000_0000 + 4096);
    assert_eq!(w.addr().to_raw(), 0xFFFF_FF00_0000_0000 + 2 * 4096);
    assert_eq!(x.pages.len(), 1);
    let expected = PageTableFlags::present()
        .union(PageTableFlags::writable())
        .union(PageTableFlags::user_accessible());
    assert_eq!(x.flags, expected);
    assert_eq!(w.flags, expected);
    // Each mapping's page is mapped in the kernel's address space, to frames of their own.
    let fx = kernel.translate_page(Page::new(0xFFFF_FF00_0000_0000 / 4096)).unwrap();
    let fr = kernel.translate_page(Page::new(0xFFFF_FF00_0000_0000 / 4096 + 1)).unwrap();
    let fw = kernel.translate_page(Page::new(0xFFFF_FF00_0000_0000 / 4096 + 2)).unwrap();
    assert_ne!(fx, fr);
    assert_ne!(fr, fw);
    assert_eq!(kernel.translate_page(Page::new(0xFFFF_FF00_0000_0000 / 4096 + 3)), None);
    let report = tracker.dump_info();
    assert!(report.contains("demo.x") && report.contains("demo.r") && report.contains("demo.w"));
}

#[test]
fn section_mappings_fail_without_frames() {
    let mut next = 0xFFFF_FF00_0000_0000u64;
    let (mut kernel, _, mut tracker) = kernel_space();
    let mut empty = FrameAllocator::new();
    let r = allocate_section_mappings("demo", &sections(), &mut next, &mut kernel, &mut empty, &mut tracker);
    assert_eq!(r.err(), Some(rhubarb::loader::OUT_OF_FRAMES));
}

#[test]
fn sections_are_laid_out() {
    let symbols = vec![Symbol { name: "main".to_string(), binding: STB_GLOBAL, symbol_type: STT_FUNC, shndx: 2, value: 0 }];
    assert_eq!(global_section_indices(&symbols), vec![2]);
    let slots = MappingSlots {
        executable: Some(MappingSlot { addr: 0x1000, size: 0x80 }),
        read_only: Some(MappingSlot { addr: 0x2000, size: 8 }),
        read_write: Some(MappingSlot { addr: 0x3000, size: 112 }),
    };
    let layout = load_object_sections(&sections(), &symbols, slots, 0x100).unwrap();
    assert_eq!(layout.text_size, 0x80);
    let placed = &layout.sections;
    assert_eq!(placed.len(), 5);
    assert_eq!(placed[0].name, "main");
    assert!(placed[0].global);
    assert_eq!(placed[0].addr.to_raw(), 0x1040);
    assert_eq!(placed[0].kind, SectionKind::Text);
    assert_eq!(placed[1].name, "core::fmt::write::h0123456789abcdef");
    assert!(!placed[1].global);
    assert_eq!(placed[2].name, "msg");
    assert_eq!(placed[2].kind, SectionKind::Rodata);
    assert_eq!(placed[2].mapping, MappingKind::ReadOnly);
    assert_eq!(placed[2].source, Some(0x80));
    assert_eq!(placed[3].name, "counter");
    assert_eq!(placed[3].addr.to_raw(), 0x3000);
    assert_eq!(placed[4].name, "buffer");
    assert_eq!(placed[4].kind, SectionKind::Bss);
    assert_eq!(placed[4].mapping_offset, 8);
    assert_eq!(placed[4].source, None);
    // Code longer than the object is refused.
    assert!(load_object_sections(&sections(), &symbols, slots, 0x40).is_err());
    // An unknown allocated section is refused.
    let mut odd = sections();
    odd.push(section(".weird", SHF_ALLOC, SHT_PROGBITS, 0, 1, 1));
    assert!(load_object_sections(&odd, &symbols, slots, 0x100).is_err());
}

#[test]
fn relocations_are_written() {
    let mut target = vec![0u8; 16];
    assert_eq!(write_relocation(R_X86_64_64, 4, &mut target, 2, 0x5000, 0x1122_3344_5566_7700), Ok(()));
    assert_eq!(&target[2..10], &0x1122_3344_5566_7704u64.to_le_bytes());
    assert_eq!(write_relocation(R_X86_64_PC32, 0, &mut target, 10, 0x5000, 0x5100), Ok(()));
    assert_eq!(&target[10..14], &0x100u32.to_le_bytes());
    assert_eq!(write_relocation(R_X86_64_32, 0, &mut target, 14, 0, 1), Err("relocation target out of range"));
    assert_eq!(write_relocation(99, 0, &mut target, 0, 0, 1), Err("unsupported relocation type"));
    let mut bytes = vec![0u8; 8];
    let relas = [Rela { offset: 0, symbol_index: 0, relocation_type: R_X86_64_32, addend: 1 }];
    assert_eq!(apply_relocations(&mut bytes, 0x9000, 4, &relas, &[0x10]), Ok(()));
    assert_eq!(&bytes[4..8], &0x11u32.to_le_bytes());
}

#[test]
fn relocation_sources() {
    let symbols = vec![
        Symbol { name: "local".to_string(), binding: 0, symbol_type: STT_FUNC, shndx: 2, value: 4 },
        Symbol { name: ".data.rel.ro._ZN4core3fmt5write17h0123456789abcdefE".to_string(), binding: STB_GLOBAL, symbol_type: 0, shndx: 0, value: 8 },
    ];
    let slots = MappingSlots { executable: Some(MappingSlot { addr: 0x1000, size: 0x80 }), read_only: None, read_write: None };
    let layout = load_object_sections(&sections(), &symbols, slots, 0x100).unwrap();
    let rela = |i| Rela { offset: 0, symbol_index: i, relocation_type: R_X86_64_64, addend: 0 };
    match relocation_source(&rela(0), &symbols, &layout.sections).unwrap() {
        RelocationSource::Local(addr) => assert_eq!(addr.to_raw(), 0x1044),
        other => panic!("{other:?}"),
    }
    match relocation_source(&rela(1), &symbols, &layout.sections).unwrap() {
        RelocationSource::External { name, value } => {
            assert_eq!(name, "core::fmt::write::h0123456789abcdef");
            assert_eq!(value, 8);
        }
        other => panic!("{other:?}"),
    }
    assert!(relocation_source(&rela(7), &symbols, &layout.sections).is_err());
}

#[test]
fn crate_names_of_a_plain_path() {
    assert_eq!(rhubarb::loader::crate_names_in_symbol("core::fmt::write"), vec!["core"]);
}

#[test]
fn crate_names_of_a_trait_impl() {
    assert_eq!(
        rhubarb::loader::crate_names_in_symbol("<alloc::vec::Vec<T> as core::clone::Clone>::clone"),
        vec!["alloc", "core"]
    );
}

#[test]
fn crate_names_before_a_bracket() {
    assert_eq!(rhubarb::loader::crate_names_in_symbol("foo[abc]::bar"), vec!["foo"]);
}

#[test]
fn crate_names_keep_repeats_at_different_places() {
    assert_eq!(rhubarb::loader::crate_names_in_symbol("<core::a as core::b>::c"), vec!["core", "core"]);
}

#[test]
fn crate_names_of_a_bare_name() {
    assert!(rhubarb::loader::crate_names_in_symbol("main").is_empty());
}

#[test]
fn section_mappings_refuse_a_mapped_page() {
    let mut next = 0xFFFF_FF00_0000_0000u64;
    let (mut kernel, mut allocator, mut tracker) = kernel_space();
    let taken = Page::new(0xFFFF_FF00_0000_0000 / 4096 + 1);
    let flags = PageTableFlags::present().union(PageTableFlags::writable());
    kernel.page_table.map_to(taken, Frame::new(0x150), flags, &mut allocator).unwrap();
    let r = allocate_section_mappings("demo", &sections(), &mut next, &mut kernel, &mut allocator, &mut tracker);
    assert_eq!(r.err(), Some(rhubarb::loader::PAGE_MAPPED_ALREADY));
    // The page found mapped keeps its frame.
    assert_eq!(kernel.translate_page(taken), Some(Frame::new(0x150)));
}
