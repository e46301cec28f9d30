[package]
name = "arceos_core"
version = "0.1.0"
edition = "2021"
publish = false

[dependencies]
bitmap-allocator = "0.1"
buddy_system_allocator = "0.9"
