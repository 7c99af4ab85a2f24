# rhubarb

The logic of a small x86_64 hobby kernel and its UEFI boot loader, written in Verus: each
function states what it does in `requires` / `ensures`, and Verus proves it.

## Layout

- `src/` is the verified library.
  - Memory: `memory_types` (addresses, pages, frames, table indices), `paging` (the four-level
    page table: walk, `map_to`, `set_flags`, translation), `frame_allocator` (the bitmap frame
    allocator), `memory` (address spaces and the mapping of page ranges, kernel mappings, the
    heap's mapping at boot), `memory_tracker` (what each address space has mapped, and the
    memory report), `heap` (the first-fit heap).
  - Programs: `loader`, `loader_registry`, `loader_dependencies` (placing an object's sections,
    resolving and applying relocations), `bootloader` (reading the kernel's ELF image),
    `scheduler`, `process`, `runner`.
  - Devices and files: `ata`, `serial`, `virtio`, `virtio_input`, `input`, `io`, `fs`, `vfat`,
    `init_fs`, `framebuffer`, `window_manager`.
  - Small pieces: `bits`, `math`, `log`, `boot_info`, `idt`, `shell`.
- `tests/` runs the library on concrete values.
- `app/` is the unverified edge: the boot loader's UEFI file access and the kernel's device
  and screen plumbing, which hand plain values to the library.

Calls into outside crates (`hashbrown`, `crossbeam-queue`, `rustc-demangle`) and a few std
functions that vstd does not specify stand behind small trusted wrappers, each with a doc
comment that says what its contract claims.
