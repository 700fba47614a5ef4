# lib

The logic of a small AArch64 kernel as a Verus library: each function carries a
`requires`/`ensures` contract over mathematical models (sequences of bytes, maps,
multisets), and Verus proves the code against it. Hardware access, interrupts and
the boot path are not part of the library; the functions here take and return
plain values that such code hands over.

Layout of `src/`:

- `allocators/`: the bump allocator and the linked-list allocator over pages.
- `memory.rs`: the page allocator bitmap and frame numbers.
- `subsystem/page/`: page metadata, fault decoding and the kernel translation tables.
- `sched/`: tasks, processes and their lazily filled areas, the user page tables
  (`user_pages.rs`), the scheduler, wait queues and work queues.
- `subsystem/fs/`: inodes, the mount table, a tmpfs and an ext2 driver (`ext2/`:
  on-disk records, the inode cache and bitmaps, and cursors over file blocks).
- `subsystem/block/`, `driver/`: the block cache and the virtio and PL011 devices' state.
- `dtb/`, `elf/`: parsers for device trees and ELF images.
- `interrupts/`: exception decoding, the system calls and the panic report.
- `timer.rs`, `utils/`: the timer heap and queue, and the small containers and strings.

Tests under `tests/` run the compiled library on concrete values.
