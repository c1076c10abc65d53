# os — verified Sv39 memory management

The memory-management core of a small RISC-V kernel, written in Verus.

- `src/address.rs`: physical and virtual addresses and page numbers, and the
  conversions between them.
- `src/frame_allocator.rs`: the frame allocator (untouched pages first, then
  the pages given back, last in first out) and its laws.
- `src/pagetable.rs`: page-table entries and the three-level page table;
  `map` adds exactly one mapping, directory entries hold flags `V` alone and
  every other entry is 0, and the processor's frame-by-frame walk (with
  Sv39's leaf rule) finds exactly the mappings the table holds.
- `src/mem_space.rs`: mapped areas and the kernel's address space, which
  maps every page of each kernel section to itself with the section's
  permissions.
- `src/lib.rs`: `vm_init`, which brings the pieces up together.

`app/` is the kernel around the library: the console, the SBI calls, the
spin lock, the global allocator and address space, copying the page tables
into physical memory and writing `satp`.
