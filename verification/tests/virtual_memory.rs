use rhubarb::memory_types::{
    AddressRange, Frame, Page, VirtualAddress, KERNEL_HEAP_L4_INDEX, KERNEL_MAPPING_L4_INDEX,
    PAGE_SIZE, USER_HEAP_L4_INDEX, USER_STACK_L4_INDEX, VIRTUAL_MEMORY_OFFSET,
    VIRTUAL_MEMORY_SHIFT,
};

fn base_of(l4_index: usize) -> u64 {
    VirtualAddress::from_table_indices(l4_index, 0, 0, 0).to_raw()
}

#[test]
fn virtual_memory_smoke() {
    let addr = VirtualAddress::new(PAGE_SIZE as u64);
    assert!(addr.is_page_aligned());
    assert_eq!(addr.to_raw(), PAGE_SIZE as u64);

    let addr = VirtualAddress::new(0x3777);
    assert!(!addr.is_page_aligned());
    assert_eq!(addr.page_align_down().to_raw(), 0x3000);
    assert_eq!(addr.page_align_up().to_raw(), 0x4000);
    assert_eq!(addr.range(), AddressRange::Physical);

    let page = Page::new(7);
    assert_eq!(page.number(), 7);
    assert_eq!(page.base_addr().to_raw(), 7 * PAGE_SIZE as u64);

    let page = Page::containing_addr(VirtualAddress::new(0x300111));
    assert_eq!(page.number(), 0x300);
}

#[test]
fn ranges() {
    let user_stack_base = base_of(USER_STACK_L4_INDEX);
    let user_heap_base = base_of(USER_HEAP_L4_INDEX);
    let kernel_heap_base = base_of(KERNEL_HEAP_L4_INDEX);
    let kernel_mapping_base = base_of(KERNEL_MAPPING_L4_INDEX);

    assert_eq!(VirtualAddress::new(user_stack_base).range(), AddressRange::UserStack);
    assert_eq!(VirtualAddress::new(user_heap_base).range(), AddressRange::UserHeap);
    assert_eq!(VirtualAddress::new(kernel_heap_base).range(), AddressRange::KernelHeap);
    assert_eq!(VirtualAddress::new(kernel_mapping_base).range(), AddressRange::KernelMapping);

    assert_eq!(VirtualAddress::new(user_stack_base - 1).range(), AddressRange::Invalid);
    assert_eq!(VirtualAddress::new(user_heap_base - 1).range(), AddressRange::UserStack);
    assert_eq!(VirtualAddress::new(kernel_heap_base - 1).range(), AddressRange::UserHeap);
    assert_eq!(VirtualAddress::new(kernel_mapping_base - 1).range(), AddressRange::KernelHeap);
}

#[test]
fn addr_truncates() {
    let addr = VirtualAddress::new(0);
    assert_eq!(addr.to_raw(), 0);
    let addr = VirtualAddress::new(1 << VIRTUAL_MEMORY_SHIFT);
    assert_eq!(addr.to_raw(), VIRTUAL_MEMORY_OFFSET);
    let addr = VirtualAddress::new(43);
    assert_eq!(addr.to_raw(), 43);
    let addr = VirtualAddress::new(5555 << VIRTUAL_MEMORY_SHIFT);
    assert_eq!(addr.to_raw(), VIRTUAL_MEMORY_OFFSET);
}

#[test]
fn physical_memory_smoke() {
    let frame = Frame::new(7);
    assert_eq!(frame.number(), 7);
    assert_eq!(frame.base_addr().to_raw(), 7 * PAGE_SIZE as u64);

    let frame = Frame::containing_addr(VirtualAddress::new(0x300111));
    assert_eq!(frame.number(), 0x300);
}

#[test]
fn table_indices_round_trip() {
    let addr = VirtualAddress::from_table_indices(3, 5, 7, 11);
    assert_eq!(addr.l4_index(), 3);
    assert_eq!(addr.l3_index(), 5);
    assert_eq!(addr.l2_index(), 7);
    assert_eq!(addr.l1_index(), 11);
    assert_eq!(addr.page_offset(), 0);
    let page = Page::from_table_indices(3, 5, 7, 11);
    assert_eq!(page.l4_index(), 3);
    assert_eq!(page.l1_index(), 11);
    assert_eq!(VirtualAddress::new(0x1234).page_offset(), 0x234);
}

#[test]
fn frame_from_base_addr() {
    assert_eq!(Frame::from_base_addr(VirtualAddress::new(0x5000)), Some(Frame::new(5)));
    assert_eq!(Frame::from_base_addr(VirtualAddress::new(0x5001)), None);
}

#[test]
fn upper_half_is_sign_extended() {
    let addr = VirtualAddress::new(0x0000_8000_0000_1000);
    assert_eq!(addr.to_raw(), 0xFFFF_8000_0000_1000);
    assert!(!addr.is_physical());
    assert!(VirtualAddress::new(0x7FFF_FFFF_FFFF).is_physical());
}
