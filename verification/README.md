# tau_supervisor

The verified core of the Tau supervisor, a RISC-V kernel, and of its ARM
boot support, written in Verus.

## Layout

- `src/llfree/`: the page frame allocator. `bitfield` holds one bit per
  frame of a huge frame, `lower` the bitfields and the per-tree tables of
  huge-frame counters (`Lower`, and `Allocator`, which sets them up),
  `trees` and `local` the tree counters and per-core reservations, `id` the
  typed frame, row, huge-frame and tree indices, `atomic` the cells they
  live in. Atomic cells are modelled sequentially: every operation takes
  effect at once and exclusively, so the operations take `&mut self`.
- `src/module.rs`: the invocation table (a fixed array threaded by a free
  list) and the dependency table a module shares with the supervisor.
- `src/image.rs`: planning the loading of a module's ELF image; the image
  is parsed by the `elf` crate behind one trusted wrapper.
- `src/state.rs`: physical pages handed out by the frame allocator.
- `src/vmem.rs`: Sv39 page table entry flags, `satp` values, and what
  mapping a range writes into the stem and leaf tables.
- `src/sbi.rs`: results of firmware calls and hexadecimal output.
- `src/scheduler.rs`: saved thread registers.
- `src/regs/`, `src/hw/`: ARM system register values and Raspberry Pi 3
  GPIO and mini UART register values, with their field encodings.
- `app/`: what talks to the hardware: firmware calls, system and
  memory-mapped register access, the UART driver and the page table window,
  which copies the tables the library fills in and out of live memory.
- `tests/`: tests of the library.

Laws that relate several operations are public proof functions named
`law_*` next to the operations they speak of.

## What is not here

- The upper allocator with per-core tree reservations is not part of the
  library. Its source is not reached from the allocator's module and refers
  to items that do not exist; more importantly, its `put` always installs
  a local reservation on the tree it frees into while the tree entry keeps
  counting the same frames, so its counters drift past the size of a tree
  and no consistency invariant can hold of it. The tree entries and
  per-core records it builds on are self-consistent value types and are
  here, with `Lower` as the allocator that is used.
- Module loading reads the manifest, dependencies and mapped regions
  through the layouts of the `tau` crate, and system calls and boot-time
  memory setup decode through it too; that crate is not available, so
  only the ELF planning (`image`) and the mapping steps are here.
- `Allocator::new` keeps the metadata in memory it owns; metadata already
  held by the storage at its address is not taken over.
