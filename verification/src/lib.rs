use vstd::prelude::*;

pub mod ata;
pub mod bits;
pub mod boot_info;
pub mod bootloader;
pub mod frame_allocator;
pub mod framebuffer;
pub mod fs;
pub mod heap;
pub mod idt;
pub mod io;
pub mod init_fs;
pub mod input;
pub mod loader;
pub mod loader_dependencies;
pub mod loader_registry;
pub mod log;
pub mod math;
pub mod memory;
pub mod memory_tracker;
pub mod memory_types;
pub mod paging;
pub mod process;
pub mod runner;
pub mod scheduler;
pub mod serial;
pub mod shell;
pub mod vfat;
pub mod window_manager;
pub mod virtio;
pub mod virtio_input;

verus! {

} // verus!
