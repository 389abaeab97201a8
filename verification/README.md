# artmap

A verified adaptive radix tree map for Rust, proved with [Verus](https://github.com/verus-lang/verus).

- `ArtMap` is an ordered map from byte strings to values. What it unlinks is retired through
  `crossbeam-epoch`.
- `arena::ArenaArtMap` places its nodes at 32-bit offsets of a bump allocator, keeps several
  versions of an entry, and reads an entry as of a version.

A key takes part only through its bytes (`AsBytes`), and entries are ordered by them.

## Layout

- `src/` is the library. Every public function has a contract.
  - `shape.rs` is the theory of radix trees: which links form one, and what each edit does to its
    keys. `trie.rs` is the tree that `Tree` and `ArenaTree` share, over the four node layouts in
    `node.rs` and `inner.rs`.
  - `seek.rs` and `cursor.rs` find and walk entries in key order, `inspect.rs` checks and shows a
    tree.
  - `tree.rs`, `entry.rs`, `iter.rs` and `lib.rs` make up `ArtMap`, and `arena/` makes up
    `ArenaArtMap`.
  - `laws.rs` and `arena/laws.rs` state what holds across operations.
- `app/` adds what ordinary Rust programs expect around the library: maps behind a lock that
  threads share, the standard iterator traits and range syntax, and printed output.
- `tests/` runs the library.

A map is changed through `&mut self`, and many readers may share it between changes. A change moves
the versions of the latches on that a writer takes for it, so that a reader who captured a version can
tell. Only a child that `ArtMap` puts into a free place of a `Node256` is written without a latch.

## Example

```rust
use artmap::{ArtMap, Bound};

let mut map = ArtMap::<String, i32>::new();
map.insert("k:1".to_string(), 1);
map.insert("k:2".to_string(), 2);

assert_eq!(map.get("k:1").as_deref(), Some(&1));

let mut range = map.range(Bound::Included("k:1"), Bound::Unbounded);
while let Some(entry) = range.next() {
    println!("{}: {}", entry.key(), entry.value());
}
```
