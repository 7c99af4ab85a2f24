use rhubarb::boot_info::{RootObjectInfo, RootObjectMap};
use rhubarb::bootloader::root_object_name;
use rhubarb::fs::FileSystem;
use rhubarb::init_fs::InitFileSystem;
use rhubarb::loader::{object_file_name, object_path, GlobalObjectProvider, ObjectProvider};

fn object(file_name: &str, size: usize) -> RootObjectInfo {
    RootObjectInfo { name: root_object_name(file_name.as_bytes()).unwrap(), addr: 0x1000, size }
}

fn init_fs() -> InitFileSystem {
    let map = RootObjectMap {
        objects: vec![object("shell.o", 2), object("example.o", 3), object("shell2.o", 1)],
    };
    InitFileSystem::new(&map, vec![vec![1, 2], vec![3, 4, 5], vec![6]])
}

#[test]
fn lists_objects_under_a_prefix() {
    let fs = init_fs();
    assert_eq!(fs.list("/").unwrap(), vec!["/shell.o", "/example.o", "/shell2.o"]);
    assert_eq!(fs.list("/sh").unwrap(), vec!["/shell.o", "/shell2.o"]);
    assert!(fs.list("/x").unwrap().is_empty());
    assert!(fs.list("sh").is_err());
}

#[test]
fn reads_an_object_by_path() {
    let mut fs = init_fs();
    assert_eq!(fs.read("/example.o").unwrap(), vec![3, 4, 5]);
    assert_eq!(fs.read("/shell2.o").unwrap(), vec![6]);
    assert_eq!(fs.read("/nope.o"), Err("failed to read init object"));
    assert!(fs.read("example.o").is_err());
    assert!(fs.read("/example").is_err());
}

#[test]
fn an_empty_file_system() {
    let mut fs = InitFileSystem::new(&RootObjectMap { objects: Vec::new() }, Vec::new());
    assert!(fs.list("anything").unwrap().is_empty());
    assert_eq!(fs.read("/shell.o"), Err("failed to read init object"));
}

#[test]
fn an_object_is_found_by_its_name() {
    let listing = vec!["/shell.o".to_string(), "/shell2.o".to_string()];
    assert_eq!(object_file_name("shell"), "/shell.o");
    assert_eq!(object_path("shell2", &listing), Ok("/shell2.o".to_string()));
    assert_eq!(object_path("/any/path.o", &listing), Ok("/any/path.o".to_string()));
    assert_eq!(object_path("shel", &listing), Err("no object found"));
}

#[test]
fn the_object_provider_reads_objects_by_name_or_path() {
    let mut provider = GlobalObjectProvider::new(init_fs());
    assert_eq!(provider.list_objects("sh").unwrap(), vec!["/shell.o", "/shell2.o"]);
    assert_eq!(provider.read_object("example").unwrap(), vec![3, 4, 5]);
    assert_eq!(provider.read_object("shell").unwrap(), vec![1, 2]);
    assert_eq!(provider.read_object("/shell2.o").unwrap(), vec![6]);
    assert_eq!(provider.read_object("exam"), Err("no object found"));
}
