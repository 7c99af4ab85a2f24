use rhubarb::boot_info::{MemoryMap, MemoryRegion, MemoryRegionKind};
use rhubarb::frame_allocator::FrameAllocator;
use rhubarb::memory::{enough_physical_memory, heap_pages, map_heap, AddressSpace, FrameAllocatorProxy, KernelMapping, HEAP_BASE, KERNEL_MAPPING_BASE};
use rhubarb::memory_tracker::MemoryTracker;
use rhubarb::memory_types::{Frame, FrameAllocator as AllocateFrame, Page, VirtualAddress};
use rhubarb::paging::{Level4PageTable, MappingError, PageTable, PageTableFlags, TranslationError};

fn allocator_with_free(base: usize, size: usize) -> FrameAllocator {
    let mut allocator = FrameAllocator::new();
    allocator.init(&MemoryMap::new(vec![MemoryRegion { base, size, kind: MemoryRegionKind::Free }]));
    allocator
}

fn flags() -> PageTableFlags {
    PageTableFlags::present().union(PageTableFlags::writable())
}

#[test]
fn map_then_translate() {
    let mut table = Level4PageTable::new(PageTable::new());
    let mut allocator = allocator_with_free(0x100000, 0x100000);
    let page = Page::new(0x1234);
    assert_eq!(table.translate_page(page), Err(TranslationError::NotMapped));
    let flush = table.map_to(page, Frame::new(7), flags(), &mut allocator).unwrap();
    assert_eq!(flush.page(), page);
    assert_eq!(table.translate_page(page), Ok(Frame::new(7)));
    let t = table.translate_addr(VirtualAddress::new(0x1234 * 4096 + 0x10)).unwrap();
    assert_eq!(t.frame, Frame::new(7));
    assert_eq!(t.offset, 0x10);
    assert_eq!(t.flags, flags());
    // The tables on the way took three frames.
    assert_eq!(allocator.free_frames(), 256 - 3);
    // A page next to it shares the tables.
    table.map_to(Page::new(0x1235), Frame::new(8), flags(), &mut allocator).unwrap();
    assert_eq!(allocator.free_frames(), 256 - 3);
    assert_eq!(table.translate_page(Page::new(0x1235)), Ok(Frame::new(8)));
    assert_eq!(table.translate_page(page), Ok(Frame::new(7)));
    assert_eq!(table.translate_page(Page::new(0x1236)), Err(TranslationError::NotMapped));
}

#[test]
fn mapping_a_mapped_page_is_refused() {
    let mut table = Level4PageTable::new(PageTable::new());
    let mut allocator = allocator_with_free(0x100000, 0x100000);
    let page = Page::new(42);
    table.map_to(page, Frame::new(9), flags(), &mut allocator).unwrap();
    assert_eq!(
        table.map_to(page, Frame::new(10).clone(), flags(), &mut allocator).err(),
        Some(MappingError::PageAlreadyMapped { to: Frame::new(10) })
    );
    assert_eq!(table.translate_page(page), Ok(Frame::new(9)));
}

#[test]
fn mapping_without_frames_fails() {
    let mut table = Level4PageTable::new(PageTable::new());
    let mut allocator = FrameAllocator::new();
    assert_eq!(
        table.map_to(Page::new(1), Frame::new(2), flags(), &mut allocator).err(),
        Some(MappingError::FrameAllocationFailed)
    );
}

#[test]
fn huge_pages_stop_a_mapping() {
    let mut root = PageTable::new();
    let mut huge = rhubarb::paging::PageTableEntry::new();
    huge.set_flags(PageTableFlags::present().union(PageTableFlags::huge_page()));
    root.set_entry(0, huge);
    let mut table = Level4PageTable::new(root);
    let mut allocator = allocator_with_free(0x100000, 0x100000);
    assert_eq!(
        table.map_to(Page::new(3), Frame::new(2), flags(), &mut allocator).err(),
        Some(MappingError::MappedToHugePage)
    );
    assert_eq!(table.translate_page(Page::new(3)), Err(TranslationError::HugePage));
}

#[test]
fn heap_is_mapped_page_by_page() {
    let mut table = Level4PageTable::new(PageTable::new());
    let mut allocator = allocator_with_free(0, 0x4000000);
    let pages = heap_pages();
    assert_eq!(pages.start.number(), HEAP_BASE / 4096);
    assert_eq!(pages.len(), 8192);
    let flushes = map_heap(&mut table, &mut allocator).unwrap();
    assert_eq!(flushes.len(), 8192);
    assert_eq!(flushes[0].page(), pages.start);
    let last = Page::new(HEAP_BASE / 4096 + 8191);
    assert!(table.translate_page(last).is_ok());
    let first = table.translate_addr(VirtualAddress::new(HEAP_BASE)).unwrap();
    let second = table.translate_addr(VirtualAddress::new(HEAP_BASE + 4096)).unwrap();
    assert_eq!(first.flags, flags());
    assert_ne!(first.frame, second.frame);
    assert_ne!(table.translate_page(last), Ok(first.frame));
    assert!(enough_physical_memory(16385));
    assert!(!enough_physical_memory(16384));
}

#[test]
fn kernel_mappings_follow_each_other() {
    let mut next = KERNEL_MAPPING_BASE;
    let mut kernel = AddressSpace {
        name: "kernel".to_string(),
        frame: Frame::new(0x80),
        page_table: Level4PageTable::new(PageTable::new()),
    };
    let mut allocator = allocator_with_free(0x100000, 0x100000);
    let mut tracker = MemoryTracker::new();
    let a = KernelMapping::new("a.x".to_string(), 5000, flags(), &mut next, &mut kernel, &mut allocator, &mut tracker)
        .unwrap();
    assert_eq!(a.addr().to_raw(), KERNEL_MAPPING_BASE);
    assert_eq!(a.size(), 5000);
    assert_eq!(a.pages.len(), 2);
    let b = KernelMapping::new("a.r".to_string(), 1, flags(), &mut next, &mut kernel, &mut allocator, &mut tracker)
        .unwrap();
    assert_eq!(b.addr().to_raw(), KERNEL_MAPPING_BASE + 2 * 4096);
    assert_eq!(next, KERNEL_MAPPING_BASE + 3 * 4096);
    // Every page of both mappings is mapped, each to a frame of its own.
    let f0 = kernel.translate_page(Page::new(KERNEL_MAPPING_BASE / 4096)).unwrap();
    let f1 = kernel.translate_page(Page::new(KERNEL_MAPPING_BASE / 4096 + 1)).unwrap();
    let f2 = kernel.translate_page(Page::new(KERNEL_MAPPING_BASE / 4096 + 2)).unwrap();
    assert_ne!(f0, f1);
    assert_ne!(f1, f2);
    assert_ne!(f0, f2);
}

#[test]
fn proxy_gives_frames_back() {
    let mut global = allocator_with_free(0x100000, 0x3000);
    let mut proxy = FrameAllocatorProxy::new();
    let a = proxy.allocate_frame(&mut global).unwrap();
    let b = proxy.allocate_frame(&mut global).unwrap();
    assert_ne!(a, b);
    assert_eq!(global.free_frames(), 1);
    proxy.release(&mut global);
    assert_eq!(global.free_frames(), 3);
    assert_eq!(global.allocate_frame(), Some(Frame::new(0x100)));
}

#[test]
fn set_flags_changes_the_mapped_pages_only() {
    use_set_flags();
}

fn use_set_flags() {
    let mut table = Level4PageTable::new(PageTable::new());
    let mut allocator = allocator_with_free(0x100000, 0x100000);
    table.map_to(Page::new(0x1234), Frame::new(7), flags(), &mut allocator).unwrap();
    table.map_to(Page::new(0x1236), Frame::new(9), flags(), &mut allocator).unwrap();
    let read_only = PageTableFlags::present().union(PageTableFlags::no_execute());
    let range = rhubarb::paging::PageRange::new(Page::new(0x1234), Page::new(0x1238));
    assert_eq!(table.set_flags(range, read_only, &mut allocator), Ok(()));
    let t = table.translate_addr(VirtualAddress::new(0x1234 * 4096)).unwrap();
    assert_eq!((t.frame, t.flags), (Frame::new(7), read_only));
    let t = table.translate_addr(VirtualAddress::new(0x1236 * 4096)).unwrap();
    assert_eq!((t.frame, t.flags), (Frame::new(9), read_only));
    assert_eq!(table.translate_page(Page::new(0x1235)), Err(TranslationError::NotMapped));
    assert_eq!(table.translate_page(Page::new(0x1237)), Err(TranslationError::NotMapped));
    // The tables on the way were there already.
    assert_eq!(allocator.free_frames(), 256 - 3);
}

#[test]
fn set_flags_makes_missing_tables() {
    let mut table = Level4PageTable::new(PageTable::new());
    let mut allocator = allocator_with_free(0x100000, 0x100000);
    let range = rhubarb::paging::PageRange::new(Page::new(0x40_0000), Page::new(0x40_0001));
    assert_eq!(table.set_flags(range, flags(), &mut allocator), Ok(()));
    assert_eq!(allocator.free_frames(), 256 - 3);
    assert_eq!(table.translate_page(Page::new(0x40_0000)), Err(TranslationError::NotMapped));
    let mut empty = FrameAllocator::new();
    let mut fresh = Level4PageTable::new(PageTable::new());
    assert_eq!(fresh.set_flags(range, flags(), &mut empty), Err(MappingError::FrameAllocationFailed));
}

#[test]
fn the_proxy_fails_only_when_no_frame_is_free() {
    let mut global = allocator_with_free(0x100000, 0x2000);
    let mut proxy = FrameAllocatorProxy::new();
    assert!(proxy.allocate_frame(&mut global).is_some());
    assert!(proxy.allocate_frame(&mut global).is_some());
    assert_eq!(proxy.allocate_frame(&mut global), None);
    assert_eq!(global.allocate_frame(), None);
}

#[test]
fn mapping_needs_frames_for_missing_tables() {
    let mut fresh = Level4PageTable::new(PageTable::new());
    let mut empty = FrameAllocator::new();
    assert_eq!(
        fresh.map_to(Page::new(0x1234), Frame::new(7), flags(), &mut empty).err(),
        Some(MappingError::FrameAllocationFailed)
    );
    assert_eq!(fresh.translate_page(Page::new(0x1234)), Err(TranslationError::NotMapped));
}

#[test]
fn the_heap_fails_only_when_frames_run_out() {
    let mut table = Level4PageTable::new(PageTable::new());
    let mut allocator = allocator_with_free(0x100000, 0x10000);
    assert_eq!(map_heap(&mut table, &mut allocator).err(), Some(MappingError::FrameAllocationFailed));
    assert_eq!(allocator.free_frames(), 0);
    assert_eq!(allocator.allocate_frame(), None);
}

#[test]
fn an_entry_set_to_a_frame_gives_it_back() {
    let mut entry = rhubarb::paging::PageTableEntry::new();
    entry.set_frame(Frame::new(5), flags());
    assert_eq!(entry.addr(), VirtualAddress::new(5 * 4096));
    assert_eq!(entry.flags(), flags());
    assert_eq!(entry.frame(), Ok(Frame::new(5)));
}

#[test]
fn setting_flags_makes_missing_tables_and_keeps_unmapped_pages_unmapped() {
    let mut table = Level4PageTable::new(PageTable::new());
    let mut allocator = allocator_with_free(0x100000, 0x100000);
    table.map_to(Page::new(0x2000), Frame::new(0x150), flags(), &mut allocator).unwrap();
    // The second page lies under another level 2 entry, whose table is missing.
    let far = Page::new(0x2000 + 512);
    let pages = rhubarb::paging::PageRange::new(Page::new(0x2000), Page::new(0x2000 + 513));
    let read_only = PageTableFlags::present();
    table.set_flags(pages, read_only, &mut allocator).unwrap();
    assert_eq!(table.translate_page(Page::new(0x2000)), Ok(Frame::new(0x150)));
    let t = table.translate_addr(VirtualAddress::new(0x2000 * 4096)).unwrap();
    assert_eq!(t.flags, read_only);
    assert_eq!(table.translate_page(far), Err(TranslationError::NotMapped));
    assert_eq!(table.translate_page(Page::new(0x2001)), Err(TranslationError::NotMapped));
}

#[test]
fn setting_flags_without_frames_for_missing_tables_fails() {
    let mut table = Level4PageTable::new(PageTable::new());
    let mut allocator = FrameAllocator::new();
    let pages = rhubarb::paging::PageRange::new(Page::new(7), Page::new(8));
    assert_eq!(
        table.set_flags(pages, flags(), &mut allocator).err(),
        Some(MappingError::FrameAllocationFailed)
    );
}

#[test]
fn a_mapped_page_is_refused_whatever_the_frame() {
    let mut table = Level4PageTable::new(PageTable::new());
    let mut allocator = allocator_with_free(0x100000, 0x100000);
    table.map_to(Page::new(42), Frame::new(9), flags(), &mut allocator).unwrap();
    let far = Frame::new(1 << 40);
    assert_eq!(
        table.map_to(Page::new(42), far, flags(), &mut allocator).err(),
        Some(MappingError::PageAlreadyMapped { to: Frame::new(1 << 40) })
    );
    assert_eq!(table.translate_page(Page::new(42)), Ok(Frame::new(9)));
}
