# lib: a verified kernel memory manager

A Verus model of the memory management of a small x86_64 kernel, with every
function proved against its contract:

- `mm` — addresses, the bootloader memory map and the size of memory.
- `mm::bitmap` — the page bitmap: building it from the memory map, setting,
  clearing and testing bits, searching for runs of free pages.
- `mm::free_list` — the list of free pages kept in front of the bitmap.
- `mm::physical` — the physical page allocator, with the laws that tie
  allocation and freeing together.
- `mm::paging` — four-level page tables in a word-addressed model of
  physical memory: walking, mapping, backing ranges with new pages, device
  memory, and the kernel's boot tables. The tables are proved to stay a tree
  of pages that the allocator counts as used.
- `mm::slab` and `mm::slab::ffi` — the slab heap behind `kmalloc`, `kfree`,
  `krealloc` and Rust's global allocator, with the invariant that ties the
  heap's pages to the physical allocator and the laws that rest on it.
- `framebuffer` — the test pattern drawn at boot.

`app/` holds what stays outside the proofs: the C entry points, the serial
console, the spin lock and the kernel state behind it. It writes the page
tables that the library builds in its model of physical memory to real
memory, through the direct map, before the processor walks them, and when
`krealloc` moves a block it copies the bytes in real memory with the same
source, destination and length as the verified step uses in the model.
