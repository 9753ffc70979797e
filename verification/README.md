# pouch

Flat sets and maps whose storage is a type parameter, verified with Verus.

Every collection runs over a backing store that implements the `Store`
contract (`src/store.rs`): a contiguous sequence of elements, `elems()`, and a
logical capacity, `bound()`. Backends are a `Vec`, a fixed-capacity
`FixedVec<T, N>` (held in a heap `Vec`), a borrowed buffer (`ScratchVec`), a read-only slice, a
`Capped` wrapper that adds a runtime bound, and `Spill`, which keeps elements
in one tier until it fills and then moves them all to a second.

On top of the stores:

- `SortedSet` / `UnsortedSet` (`src/set.rs`), with merge-based set algebra in
  `src/algebra.rs`;
- `SortedMap` / `UnsortedMap` (`src/map.rs`) and their `Entry` API
  (`src/entry.rs`), modelled by `entries_map` (`src/entries.rs`);
- `UnsortedColumnMap` / `SortedColumnMap` (`src/column_map.rs`,
  `src/sorted_column_map.rs`), which keep keys and values in two aligned
  stores;
- `Bag` (`src/bag.rs`), a sequence with no ordering discipline.

Each operation's contract states its result over the collection's view; the
properties that span several operations are proof functions in `src/laws.rs`.
`app/` holds the serde support, on wrapper types around the collections.
