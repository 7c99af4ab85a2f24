use rhubarb::runner::{crate_name_to_object_name, is_workspace_dir_name, rlib_matches};

#[test]
fn object_names_use_underscores() {
    assert_eq!(crate_name_to_object_name("uart-16550"), "uart_16550");
    assert_eq!(crate_name_to_object_name("boot-info"), "boot_info");
    assert_eq!(crate_name_to_object_name("shell"), "shell");
    assert_eq!(crate_name_to_object_name(""), "");
}

#[test]
fn rlibs_of_a_crate() {
    assert!(rlib_matches("libcore-0123abcd.rlib", "core"));
    assert!(!rlib_matches("libcore-0123abcd.rmeta", "core"));
    assert!(!rlib_matches("libcompiler_builtins-1.rlib", "core"));
    assert!(!rlib_matches("libcore.rlib", "core"));
}

#[test]
fn the_workspace_directory() {
    assert!(is_workspace_dir_name("rhubarb"));
    assert!(!is_workspace_dir_name("rhubarb2"));
    assert!(!is_workspace_dir_name("kernel"));
}
