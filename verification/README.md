# os

Memory management and process bookkeeping of a small RISC-V (Sv39) teaching kernel,
written in Verus and proved against its contracts.

## Layout

- `src/` — the verified library.
  - `address`, `config`: addresses, page numbers and the kernel's constants.
  - `phys_mem`: physical memory as a byte array, read and written page by page.
  - `frame_allocator`: the stack allocator of physical frames (last freed, first given).
  - `page_table`: three-level page tables walked over physical memory; map, unmap, translate.
  - `memory_set`: address spaces made of map areas; the kernel space, spaces built from ELF
    images, copies of spaces, heap growth and `mmap`/`munmap`.
  - `mm`: reading and writing user memory through a page table.
  - `id`: the recycling allocator of process ids and kernel stack slots.
  - `task`: the process control block, `exec` and `fork`.
  - `syscall`, `fs`: the decisions of the system calls.
  - `trap`: the trap context that a process starts with, written into its trap context frame.
  - `loader`: the table of applications linked into the kernel.
  - `elf`: the two calls into `xmas-elf` that the loader of ELF images makes.
- `tests/` — tests on concrete values.
- `app/` — the kernel around the library: registers, the console, linker symbols, the
  shared kernel state and the dispatch of system calls.
