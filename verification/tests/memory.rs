use rhubarb::boot_info::{MemoryMap, MemoryRegion, MemoryRegionKind};
use rhubarb::frame_allocator::{FrameAllocator, FrameAllocatorError, MAX_FRAMES};
use rhubarb::heap::{split_hole, Heap, HoleInfo, Layout};
use rhubarb::memory_types::{Frame, VirtualAddress};

fn free_region(base: usize, size: usize) -> MemoryRegion {
    MemoryRegion { base, size, kind: MemoryRegionKind::Free }
}

#[test]
fn frame_allocator_counts_whole_free_frames() {
    let mut allocator = FrameAllocator::new();
    let map = MemoryMap::new(vec![
        free_region(0x1000, 0x3000),
        MemoryRegion { base: 0x10000, size: 0x4000, kind: MemoryRegionKind::Bootloader },
        free_region(0x20800, 0x2000),
    ]);
    allocator.init(&map);
    // Frames 1, 2, 3 from the first region; frame 0x21 only from the unaligned third.
    assert!(!allocator.is_allocated(1));
    assert!(!allocator.is_allocated(3));
    assert!(allocator.is_allocated(4));
    assert!(allocator.is_allocated(0x10));
    assert!(allocator.is_allocated(0x20));
    assert!(!allocator.is_allocated(0x21));
    assert!(allocator.is_allocated(0x22));
}

#[test]
fn frame_allocator_allocates_in_order_and_reuses() {
    let mut allocator = FrameAllocator::new();
    allocator.init(&MemoryMap::new(vec![free_region(0x1000, 0x3000)]));
    let a = allocator.allocate().unwrap();
    let b = allocator.allocate().unwrap();
    assert_eq!(a, Frame::new(1));
    assert_eq!(b, Frame::new(2));
    assert_eq!(allocator.deallocate(a), Ok(()));
    assert_eq!(allocator.allocate().unwrap(), Frame::new(1));
    assert_eq!(allocator.allocate().unwrap(), Frame::new(3));
    assert_eq!(allocator.allocate(), Err(FrameAllocatorError::OutOfMemory));
    assert_eq!(allocator.deallocate(Frame::new(MAX_FRAMES as u64)), Err(FrameAllocatorError::InvalidFrame));
    // Freeing a free frame changes nothing.
    assert_eq!(allocator.deallocate(Frame::new(9)), Ok(()));
}

#[test]
fn frame_allocator_reserve_range() {
    let mut allocator = FrameAllocator::new();
    allocator.init(&MemoryMap::new(vec![free_region(0, 0x10000)]));
    allocator.reserve_range(VirtualAddress::new(0x2000), 0x1001);
    assert!(!allocator.is_allocated(1));
    assert!(allocator.is_allocated(2));
    assert!(allocator.is_allocated(3));
    assert!(!allocator.is_allocated(4));
    assert_eq!(allocator.allocate().unwrap(), Frame::new(0));
    assert_eq!(allocator.allocate().unwrap(), Frame::new(1));
    assert_eq!(allocator.allocate().unwrap(), Frame::new(4));
}

#[test]
fn split_hole_cases() {
    let layout = Layout::from_size_align(32, 8).unwrap();
    // Exact fit.
    let a = split_hole(HoleInfo { addr: 0x1000, size: 32 }, layout).unwrap();
    assert_eq!(a.info, HoleInfo { addr: 0x1000, size: 32 });
    assert_eq!(a.front_padding, None);
    assert_eq!(a.back_padding, None);
    // Too small.
    assert_eq!(split_hole(HoleInfo { addr: 0x1000, size: 16 }, layout), None);
    // Remainder too small to be a hole.
    assert_eq!(split_hole(HoleInfo { addr: 0x1000, size: 40 }, layout), None);
    // Back padding.
    let a = split_hole(HoleInfo { addr: 0x1000, size: 64 }, layout).unwrap();
    assert_eq!(a.back_padding, Some(HoleInfo { addr: 0x1020, size: 32 }));
    // Front padding for a stricter alignment.
    let layout = Layout::from_size_align(32, 64).unwrap();
    let a = split_hole(HoleInfo { addr: 0x1008, size: 0x100 }, layout).unwrap();
    assert_eq!(a.front_padding, Some(HoleInfo { addr: 0x1008, size: 0x38 }));
    assert_eq!(a.info, HoleInfo { addr: 0x1040, size: 32 });
    assert_eq!(a.back_padding, Some(HoleInfo { addr: 0x1060, size: 0xA8 }));
}

#[test]
fn layout_rejects_bad_alignment() {
    assert!(Layout::from_size_align(8, 3).is_err());
    assert!(Layout::from_size_align(8, 0).is_err());
    assert!(Layout::from_size_align(isize::MAX as usize, 2).is_err());
    assert!(Layout::from_size_align(8, 4096).is_ok());
}

#[test]
fn heap_allocate_and_free_reuses_first_block() {
    let mut heap = Heap::empty();
    heap.init(0x10000, 0x1000);
    let one = Layout::from_size_align(3, 1).unwrap();
    let a = heap.allocate_first_fit(one).unwrap();
    assert_eq!(a, 0x10000);
    heap.deallocate(a, one);
    let b = heap.allocate_first_fit(one).unwrap();
    assert_eq!(b, 0x10000);
    let c = heap.allocate_first_fit(one).unwrap();
    assert!(c > 0x10000);
    let huge = Layout::from_size_align(0x2000, 8).unwrap();
    assert_eq!(heap.allocate_first_fit(huge), Err(()));
}
