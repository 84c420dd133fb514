# mcaedit-core

A verified library for editing Minecraft Java worlds offline: Anvil and
Linear region files, chunk and `level.dat` tag trees, block states and
section palettes, masks and weighted
patterns, templates and schematics, edit plans (fill, replace, stack, move,
smooth), random-tick growth, history and session bookkeeping.

Every function in `src/` is written in Verus and carries a contract that
states what it returns; the laws the library promises (undo restores and redo
replays every kind of history action, Linear and Anvil conversions keep chunks, packing then unpacking
gives values back, template rotations compose) are proof functions named
`law_*`. Calls into other crates (zstd, ruzstd, xxhash, indexmap, mca, uuid,
flate2)
go through small trusted wrappers whose contracts say what those crates'
sources show.

- `src/` – the library.
- `tests/` – tests on concrete values.
- `app/` – the file-system, JSON/NBT and process-argument edges around the
  library.
