# arceos_core

Verified pieces of a small kernel, checked with Verus:

- `src/fdt_format.rs`: the byte layout of a flattened device tree structure
  block and the readers that take one item off its front.
- `src/dtb.rs`: the tree header, property lookup by path and the subnode and
  property enumerations, each stated as a walk over the structure block, with
  laws relating them.
- `src/fdt_tree.rs`: the tree a structure block holds, and laws that on
  such a block the enumerations of a path give exactly the node's own
  properties and its children, and the lookup finds exactly its properties.
- `src/dtb_info.rs`: the memory and virtio MMIO regions a kernel reads from its
  tree.
- `src/early.rs`: the page half of the early allocator, over the bitmap of the
  `bitmap-allocator` crate.
- `src/header.rs`: the loader's reading of an application image.

`app/` holds what needs raw memory: the loader program, reading the tree from
a physical address, and the byte heap of the early allocator.
