# idos_task

The task-management core of the IDOS kernel, with the parts of its C library, its SDK
allocator and its log viewer that compute rather than talk to hardware, written in Verus
and proved against their contracts.

## Layout

- `src/` — the verified library.
  - Kernel tasks: `id`, `address`, `registers`, `paging`, `frames`, `memory`, `map`,
    `stack`, `state`, `messaging`, `handle`, `files`, `driver`, `env`, `args`, `actions`,
    `switching`, `scheduling`, `time`.
  - C library: `ctype`, `cstr`, `stdlib`, `sort`, `printf`, `scanf`, `stdio`, `dirent`,
    `posix`, `heap`.
  - SDK allocator: `slab`.
  - Log viewer: `text`, `parse`, `reader`, `app`.
- `tests/` — tests run against the compiled library.
- `app/` — the log viewer's terminal program (socket and terminal I/O) and the
  floating-point parts of the C library.

Hardware access (port I/O, inline assembly, the FPU) has no place in the library: where the
kernel alternates hardware work and decisions, the decisions are step functions that take
the outcome of the hardware work as an argument.
