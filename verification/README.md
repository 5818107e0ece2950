# blueos_loader

A loader for dynamic applications on a small kernel: it checks ELF files, lays
them out, copies and relocates them, links an application with its libraries, and
keeps track of the libraries that applications share. All of `src/` is verified
with Verus.

- `address`, `arith`, `bytes`, `permissions`, `error`, `limits`, `identity`,
  `elf`, `sort`: values, quotas and the ELF format.
- `reader`, `memory`, `memory_mapper`, `virtual_memory`, `cache`: where files come
  from and where images go.
- `image`: the stages of one image, from its program headers to sealed memory.
- `relocation`: which relocations each architecture has, and how they are done.
- `load`, `parser_limits`: loading a whole file from a buffer, and which files the
  parser can take on a small machine.
- `dynamic_linker`: the dependency graph, symbol scopes, the order of constructors
  and destructors, and sessions that link several images.
- `application`: names and paths, packages, the registry of shared libraries, and
  the life of an application.

`app/` is the kernel side: files, locks, threads and the architecture's caches.
