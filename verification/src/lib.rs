//! Verified building blocks of a small kernel: a flattened device tree
//! reader, an early page allocator and the loader's image header.

pub mod dtb;
pub mod dtb_info;
pub mod early;
pub mod fdt_format;
pub mod fdt_tree;
pub mod header;
