[package]
name = "rcore_os"
version = "0.1.0"
edition = "2021"
publish = false

[dependencies]
bitflags = "1"
buddy_system_allocator = "*"
clap = "2"
lazy_static = "1"
riscv = "*"
spin = "0.9"
virtio-drivers = "*"

[dev-dependencies]
rand = "0.8"
