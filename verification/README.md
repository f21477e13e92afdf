# ZheOS kernel library, verified

The logic of a small AArch64 teaching kernel, written in Verus with every
function proved against its contract: memory discovery, the frame and slab
allocators and the heap on top of them, translation tables, the device tree
reader, the console line editor, the machine-code monitor and its parser,
the scheduler and the timer arithmetic.

## Layout

- `src/` - the verified library.
  - `memory/`, `frames/`, `slab/`, `heap.rs`, `bump.rs`, `layout.rs`,
    `region.rs` - physical memory: the map of RAM and its reservations, frame
    metadata, the buddy allocator, slab caches and the kernel heap.
  - `mmu/` - descriptors, levels and translation tables; `identity_map`
    proves that every address of the mapped region translates to itself
    through a leaf with the template's attributes, and says how far it got
    when it fails. Each table entry holds the address of the table below it.
  - `dtb/`, `board.rs` - the flattened device tree and the devices found in it.
  - `uart.rs`, `input.rs`, `ring_buffer.rs`, `console.rs`, `gic.rs`,
    `timer.rs`, `exception.rs` - device registers, input buffering, line
    editing, interrupts, timing and exception decoding.
  - `zhemon/` - the monitor: line parser and command state machine.
  - `sched.rs`, `context.rs` - tasks and round-robin scheduling.
- `tests/` - tests run against the compiled library.
- `app/` - the kernel around the library: register access, assembly, locks,
  the boot sequence, the monitor's loop, and a fixed arena that backs the
  library's own `Vec` and `Box` values on the machine.
