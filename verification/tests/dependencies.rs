use rhubarb::loader_dependencies::{map_dependency_sections, DependencyNode, ObjectMapping};
use rhubarb::memory_types::Page;
use rhubarb::paging::{PageRange, PageTableFlags};

fn mapping(addr: u64) -> ObjectMapping {
    ObjectMapping {
        addr,
        pages: PageRange::new(Page::new(addr >> 12), Page::new((addr >> 12) + 1)),
        flags: PageTableFlags::present(),
    }
}

fn node(exec: Option<u64>, ro: Option<u64>, rw: Option<u64>, deps: Vec<usize>) -> DependencyNode {
    DependencyNode {
        executable: exec.map(mapping),
        read_only: ro.map(mapping),
        read_write: rw.map(mapping),
        dependencies: deps,
    }
}

fn addrs(ms: &[ObjectMapping]) -> Vec<u64> {
    ms.iter().map(|m| m.addr).collect()
}

#[test]
fn dependencies_are_mapped_once_in_the_order_met() {
    // 0: the object being loaded; 1 depends on 2 and 3; 2 depends on 3.
    let graph = vec![
        node(Some(0x1000), None, None, vec![1]),
        node(Some(0x2000), Some(0x3000), None, vec![2, 3]),
        node(Some(0x4000), None, Some(0x5000), vec![3]),
        node(None, Some(0x6000), None, vec![]),
    ];
    let mut mapped = Vec::new();
    let out = map_dependency_sections(&graph, 0, 1, &mut mapped);
    assert_eq!(addrs(&out), vec![0x2000, 0x3000, 0x4000, 0x5000, 0x6000]);
    assert_eq!(mapped, vec![0x2000, 0x3000, 0x4000, 0x5000, 0x6000]);
}

#[test]
fn mappings_already_made_are_skipped() {
    let graph = vec![
        node(Some(0x1000), None, None, vec![]),
        node(Some(0x2000), Some(0x3000), Some(0x7000), vec![2]),
        node(Some(0x4000), None, None, vec![]),
    ];
    let mut mapped = vec![0x3000, 0x4000];
    let out = map_dependency_sections(&graph, 0, 1, &mut mapped);
    assert_eq!(addrs(&out), vec![0x2000, 0x7000]);
    assert_eq!(mapped, vec![0x3000, 0x4000, 0x2000, 0x7000]);
}
