[package]
name = "kernel"
version = "0.1.0"
edition = "2021"
publish = false

[dependencies]
buddy_system_allocator = "*"
fatfs = "*"
log = "*"
riscv = "0.10"
