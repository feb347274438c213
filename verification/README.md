# cl_arena

Typed and dropless arena allocators, verified with Verus.

An arena hands out locations that stay valid, and keep what was stored in them, for the
arena's whole lifetime. Locations are handles (`chunk::ArenaAddress`, `chunk::ArenaSlice`):
the index of a chunk and the offset of a slot inside it.

- `src/constants.rs`: the chunk sizes that growth starts from and stops doubling at.
- `src/layout.rs`: `Layout` (size and power-of-two alignment) and the rounding lemmas.
- `src/chunk.rs`: `ArenaChunk`, one block of storage, and the handle types.
- `src/dropless_arena.rs`: `DroplessArena`, which hands out aligned runs of bytes by bumping
  downwards through chunks of doubling size; its contracts pin down where each request
  lands and which chunks growth adds, and prove that runs never overlap and keep their bytes.
- `src/typed_arena.rs`: `TypedArena<T>`, which keeps values of one type in consecutive
  slots; its contracts say where each value goes and that values never move or change.
