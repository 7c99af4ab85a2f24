use rhubarb::boot_info::{MemoryMap, MemoryRegion, MemoryRegionKind};
use rhubarb::frame_allocator::FrameAllocator;
use rhubarb::memory::{map_range, AddressSpace};
use rhubarb::memory_tracker::MemoryTracker;
use rhubarb::memory_types::{Frame, Page};
use rhubarb::paging::{Level4PageTable, MappingError, PageRange, PageTable, PageTableFlags};

fn allocator_with_free(base: usize, size: usize) -> FrameAllocator {
    let mut allocator = FrameAllocator::new();
    allocator.init(&MemoryMap::new(vec![MemoryRegion { base, size, kind: MemoryRegionKind::Free }]));
    allocator
}

fn user_flags() -> PageTableFlags {
    PageTableFlags::present().union(PageTableFlags::writable()).union(PageTableFlags::user_accessible())
}

fn space(name: &str) -> AddressSpace {
    AddressSpace {
        name: name.to_string(),
        frame: Frame::new(0x500),
        page_table: Level4PageTable::new(PageTable::new()),
    }
}

#[test]
fn address_space_maps_each_page_to_its_own_frame() {
    let mut space = space("user.1");
    let mut allocator = allocator_with_free(0x100000, 0x100000);
    let mut tracker = MemoryTracker::new();
    let pages = PageRange::new(Page::new(0x1000), Page::new(0x1003));
    let flushes = space
        .map_pages(&mut allocator, &mut tracker, "user_stack.1".to_string(), pages, user_flags())
        .unwrap();
    assert_eq!(flushes.len(), 3);
    assert_eq!(flushes[0].page(), Page::new(0x1000));
    assert_eq!(flushes[2].page(), Page::new(0x1002));
    let a = space.translate_page(Page::new(0x1000)).unwrap();
    let b = space.translate_page(Page::new(0x1001)).unwrap();
    let c = space.translate_page(Page::new(0x1002)).unwrap();
    assert_ne!(a, b);
    assert_ne!(b, c);
    assert_ne!(a, c);
    assert_eq!(space.translate_page(Page::new(0x1003)), None);
    // Three tables on the way and three pages.
    assert_eq!(allocator.free_frames(), 256 - 6);
    assert_eq!(space.name(), "user.1");
    assert!(tracker.dump_info().contains("user_stack.1"));
}

#[test]
fn later_mappings_keep_earlier_ones() {
    let mut space = space("kernel");
    let mut allocator = allocator_with_free(0x100000, 0x100000);
    let mut tracker = MemoryTracker::new();
    let first = PageRange::new(Page::new(0x2000), Page::new(0x2002));
    let second = PageRange::new(Page::new(0x2002), Page::new(0x2004));
    space.map_pages(&mut allocator, &mut tracker, "a.x".to_string(), first, user_flags()).unwrap();
    let before = space.translate_page(Page::new(0x2001)).unwrap();
    space.map_pages(&mut allocator, &mut tracker, "a.r".to_string(), second, user_flags()).unwrap();
    assert_eq!(space.translate_page(Page::new(0x2001)), Some(before));
    assert!(space.translate_page(Page::new(0x2003)).is_some());
    // The second range shares the tables of the first.
    assert_eq!(allocator.free_frames(), 256 - 3 - 4);
}

#[test]
fn mapping_over_a_mapped_page_fails_and_records_nothing() {
    let mut space = space("user.2");
    let mut allocator = allocator_with_free(0x100000, 0x100000);
    let mut tracker = MemoryTracker::new();
    space
        .page_table
        .map_to(Page::new(0x3001), Frame::new(0x120), user_flags(), &mut allocator)
        .unwrap();
    let report = tracker.dump_info();
    let pages = PageRange::new(Page::new(0x3000), Page::new(0x3002));
    let r = space.map_pages(&mut allocator, &mut tracker, "heap".to_string(), pages, user_flags());
    assert!(matches!(r, Err(MappingError::PageAlreadyMapped { .. })));
    assert_eq!(tracker.dump_info(), report);
    assert_eq!(space.translate_page(Page::new(0x3001)), Some(Frame::new(0x120)));
}

#[test]
fn mapping_a_range_without_frames_fails() {
    let mut table = Level4PageTable::new(PageTable::new());
    let mut allocator = FrameAllocator::new();
    let pages = PageRange::new(Page::new(5), Page::new(6));
    assert_eq!(map_range(&mut table, &mut allocator, pages, user_flags()).err(), Some(MappingError::FrameAllocationFailed));
    let empty = PageRange::new(Page::new(6), Page::new(6));
    assert_eq!(map_range(&mut table, &mut allocator, empty, user_flags()).unwrap().len(), 0);
}

#[test]
fn address_space_sets_flags_and_keeps_frames() {
    let mut space = space("user.3");
    let mut allocator = allocator_with_free(0x100000, 0x100000);
    let mut tracker = MemoryTracker::new();
    let pages = PageRange::new(Page::new(0x4000), Page::new(0x4002));
    space.map_pages(&mut allocator, &mut tracker, "data".to_string(), pages, user_flags()).unwrap();
    let frame = space.translate_page(Page::new(0x4001)).unwrap();
    let read_only = PageTableFlags::present().union(PageTableFlags::user_accessible());
    space.set_flags(&mut allocator, pages, read_only).unwrap();
    assert_eq!(space.translate_page(Page::new(0x4001)), Some(frame));
    let t = space
        .page_table
        .translate_addr(rhubarb::memory_types::VirtualAddress::new(0x4001 * 4096))
        .unwrap();
    assert_eq!(t.flags, read_only);
}

#[test]
fn user_stack_is_mapped_below_its_top() {
    let mut space = space("shell.7");
    let mut allocator = allocator_with_free(0x100000, 0x100000);
    let mut tracker = MemoryTracker::new();
    let top = rhubarb::memory_types::VirtualAddress::new(0x4000_0000);
    let pages = rhubarb::scheduler::map_user_stack(
        &mut space,
        &mut allocator,
        &mut tracker,
        "user_stack.7".to_string(),
        top,
        Some(8192),
    )
    .unwrap();
    assert_eq!(pages.start, Page::new(0x4000_0000 / 4096 - 2));
    assert_eq!(pages.end, Page::new(0x4000_0000 / 4096));
    assert!(space.translate_page(Page::new(0x4000_0000 / 4096 - 1)).is_some());
    assert!(space.translate_page(Page::new(0x4000_0000 / 4096 - 2)).is_some());
    assert_eq!(space.translate_page(Page::new(0x4000_0000 / 4096)), None);
    let t = space
        .page_table
        .translate_addr(rhubarb::memory_types::VirtualAddress::new(0x4000_0000 - 4096))
        .unwrap();
    assert_eq!(
        t.flags,
        user_flags().union(PageTableFlags::no_execute())
    );
    assert!(tracker.dump_info().contains("user_stack.7"));
}
