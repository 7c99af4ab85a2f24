use rhubarb::loader::{MappingKind, PlacedSection, SectionKind};
use rhubarb::loader_registry::{Loader, SectionLookup};
use rhubarb::memory_types::VirtualAddress;

fn placed(name: &str, kind: SectionKind, global: bool, addr: u64, size: usize) -> PlacedSection {
    PlacedSection {
        index: 0,
        name: name.to_string(),
        kind,
        global,
        size,
        addr: VirtualAddress::new(addr),
        mapping: MappingKind::ReadOnly,
        mapping_offset: 0,
        source: None,
    }
}

fn loader() -> (Loader, usize) {
    let mut loader = Loader::new();
    loader.add_object("example".to_string());
    let added = loader.add_sections(vec![
        placed("example::main", SectionKind::Text, true, 0x1000, 0x40),
        placed(".rodata.local", SectionKind::Rodata, false, 0x2000, 0x10),
        placed("example::DATA", SectionKind::Data, true, 0x3000, 0x8),
        placed("example::main", SectionKind::Text, true, 0x1040, 0x20),
    ]);
    (loader, added)
}

#[test]
fn sections_are_added_by_name_and_range() {
    let (loader, added) = loader();
    assert_eq!(added, 2);
    assert_eq!(loader.get_object("example"), Some(0));
    assert_eq!(loader.get_object("core"), None);
    assert_eq!(loader.get_section("example::", "main"), Some(3));
    assert_eq!(loader.get_section("example::", "DATA"), Some(2));
    assert_eq!(loader.get_section(".rodata", ""), None);
    assert_eq!(loader.get_text_section("example", "main"), Some(3));
    assert_eq!(loader.get_text_section("example", "DATA"), None);
    assert_eq!(loader.section(2).name, "example::DATA");
}

#[test]
fn sections_are_found_by_address() {
    let (loader, _) = loader();
    assert_eq!(loader.get_section_for_addr(VirtualAddress::new(0x1000)), Some(0));
    assert_eq!(loader.get_section_for_addr(VirtualAddress::new(0x103F)), Some(0));
    assert_eq!(loader.get_section_for_addr(VirtualAddress::new(0x1040)), Some(3));
    assert_eq!(loader.get_section_for_addr(VirtualAddress::new(0x2008)), Some(1));
    assert_eq!(loader.get_section_for_addr(VirtualAddress::new(0x2010)), None);
    assert_eq!(loader.get_section_for_addr(VirtualAddress::new(0x0FFF)), None);
}

#[test]
fn a_section_of_the_same_range_takes_the_place_of_the_old() {
    let (mut loader, _) = loader();
    let added = loader.add_sections(vec![placed("other::f", SectionKind::Text, true, 0x1000, 0x40)]);
    assert_eq!(added, 1);
    assert_eq!(loader.get_section_for_addr(VirtualAddress::new(0x1000)), Some(4));
    assert_eq!(loader.get_section("other", "f"), Some(4));
}

#[test]
fn lookups_ask_for_unloaded_dependencies_in_order() {
    let (mut loader, _) = loader();
    assert!(matches!(loader.lookup_section("example::main"), SectionLookup::Found(3)));
    match loader.lookup_section("core::fmt::write") {
        SectionLookup::Load(name) => assert_eq!(name, "core"),
        other => panic!("unexpected {:?}", other),
    }
    loader.add_object("core".to_string());
    assert!(matches!(loader.lookup_section("core::fmt::write"), SectionLookup::Missing));
    match loader.lookup_section("<alloc::vec::Vec<T> as core::clone::Clone>::clone") {
        SectionLookup::Load(name) => assert_eq!(name, "alloc"),
        other => panic!("unexpected {:?}", other),
    }
    assert!(matches!(loader.lookup_section("main"), SectionLookup::Missing));
}

#[test]
fn the_object_report_lists_each_object_with_its_sections() {
    let mut loader = Loader::new();
    loader.add_object("example".to_string());
    let long_name = "example::a_name_that_is_longer_than_fifty_bytes_in_all_of_it";
    let mut first = placed("example::main", SectionKind::Text, true, 0x1000, 0x40);
    first.index = 3;
    let mut second = placed(long_name, SectionKind::Rodata, false, 0x2abc, 0x10);
    second.index = 12;
    loader.add_sections(vec![first, second]);
    loader.add_object("big".to_string());
    let many: Vec<PlacedSection> = (0..21u64)
        .map(|i| placed("big::f", SectionKind::Text, false, 0x10000 + i * 0x100, 0x10))
        .collect();
    loader.add_sections(many);
    let example = format!(
        "    example:\n       3 | 0x1000 |      .text | example::main\n      12 | 0x2abc |    .rodata | {}\n",
        &long_name[..50]
    );
    let big = "    big:\n        21 sections\n".to_string();
    let report = loader.dump_info();
    let one_way = format!("--- OBJECTS ---\n{example}{big}");
    let other_way = format!("--- OBJECTS ---\n{big}{example}");
    assert!(report == one_way || report == other_way, "{report}");
}
