use rhubarb::boot_info::{BootInfo, DisplayInfo, MemoryMap, PixelFormat, RootObjectMap};
use rhubarb::memory_tracker::{append_hex16, sorted_by_start, MemoryTracker};
use rhubarb::memory_types::Page;
use rhubarb::paging::PageRange;

fn pages(start: u64, end: u64) -> PageRange {
    PageRange::new(Page::new(start), Page::new(end))
}

#[test]
fn hex_is_sixteen_lowercase_digits() {
    let mut s = String::from("@");
    append_hex16(&mut s, 0xFFFF_8000_00AB_CDEF);
    assert_eq!(s, "@ffff800000abcdef");
    let mut z = String::new();
    append_hex16(&mut z, 0);
    assert_eq!(z, "0000000000000000");
}

#[test]
fn sorting_by_start_keeps_ties_in_order() {
    let ms = vec![
        ("c".to_string(), pages(5, 6)),
        ("a".to_string(), pages(1, 2)),
        ("d".to_string(), pages(5, 9)),
        ("b".to_string(), pages(3, 4)),
    ];
    let names: Vec<String> = sorted_by_start(&ms).into_iter().map(|(n, _)| n).collect();
    assert_eq!(names, vec!["a", "b", "c", "d"]);
}

#[test]
fn report_lists_areas_and_sorted_mappings() {
    let mut tracker = MemoryTracker::new();
    tracker.register_pci_bar("virtio".to_string(), pages(0x100, 0x102));
    tracker.register_pci_bar("gpu".to_string(), pages(0x50, 0x51));
    tracker.record_mapping("init".to_string(), 7, "heap".to_string(), pages(0x200, 0x201));
    tracker.record_mapping("init".to_string(), 7, "stack".to_string(), pages(0x100, 0x101));
    let expected = "\n--- MEMORY AREAS ---\n\
        \x20   0000000000000000 0000000000000000    kernel\n\
        \x20   0000000000000000 0000000000000000    framebuffer\n\
        \x20   0000000000050000 0000000000051000    gpu\n\
        \x20   0000000000100000 0000000000102000    virtio\n\
        \n--- ADDRESS SPACES ---\
        \n    0000000000007000                         init\
        \n        0000000000100000 0000000000101000        stack\
        \n        0000000000200000 0000000000201000        heap";
    assert_eq!(tracker.dump_info(), expected);

    tracker.forget_space("init".to_string(), 7);
    assert!(tracker.dump_info().ends_with("--- ADDRESS SPACES ---"));
}

#[test]
fn init_records_the_kernel_and_the_framebuffer() {
    let boot_info = BootInfo {
        rsdp_address: None,
        kernel_start: 0xFFFF_8000_0010_0000,
        kernel_end: 0xFFFF_8000_0010_2001,
        memory_map: MemoryMap::new(Vec::new()),
        root_object_map: RootObjectMap { objects: Vec::new() },
        display_info: DisplayInfo {
            width: 640,
            height: 480,
            stride: 640,
            format: PixelFormat::Bgr,
            framebuffer_addr: 0x8000_0000,
            framebuffer_size: 640 * 480 * 4,
        },
    };
    let mut tracker = MemoryTracker::new();
    tracker.init(&boot_info);
    let report = tracker.dump_info();
    assert!(report.contains("    ffff800000100000 ffff800000103000    kernel\n"));
    assert!(report.contains("    0000000080000000 000000008012c000    framebuffer\n"));
}
