# kernel_core

The logic of a small hobby kernel, verified with Verus: memory management (bitsets,
page allocator, Sv39 page tables, the heap allocator, the buddy heap tree, the boot
memory plan), drives and file systems (the ATA transfer and probe protocols as state machines, an in-memory drive, a sector-bitmap disk with
a directory tree, a page-chain object store with boxed values), the scheduler and
trap decisions, ELF loading and program start-up, the keyboard and virtio input
devices (device check, feature negotiation, the used and available rings), the console and
shell line editing, and the text console with its rendering to a framebuffer.

Layout:

- `src/` — the verified library; each module states its contracts over spec
  functions and views, and the laws that relate operations are public proof
  functions or `ensures` clauses.
- `tests/` — executable tests of the library on concrete values.
- `app/main.rs` — a hosted start-up: simulated drives in memory, the root drive
  found and mounted, and the console driven from standard input.
