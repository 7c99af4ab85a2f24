[package]
name = "rhubarb"
version = "0.1.0"
edition = "2021"
publish = false

[dependencies]
rustc-demangle = "=0.1.28"
hashbrown = "=0.17.1"
rustc-hash = "=2.1.3"
crossbeam-queue = "=0.3.14"
x86_64 = { version = "=0.15.5", default-features = false, features = ["instructions"] }
linked_list_allocator = "=0.10.6"
uefi = { version = "=0.41.0", features = ["alloc"] }
anyhow = "=1.0.104"
