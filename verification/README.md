# kvdb

An embedded key-value store: a B+tree over fixed-size pages of one file,
with typed values, a typestate-checked API and a pluggable wire format,
verified with Verus.

## Layout

- `src/` — the verified library.
  - `value.rs`, `error.rs`: the stored `Value`, its model, the exact-match
    conversions out of it, and the errors.
  - `key.rs`: the key types and their byte encoding.
  - `node.rs`, `page.rs`: a node, and how it is laid out as a value.
  - `codec.rs`: the `Codec` trait a wire format implements.
  - `pager.rs`: the file image, the page allocator, and page reads and writes.
  - `tree.rs`, `seg.rs`, `reshape.rs`, `entries.rs`, `regroup.rs`,
    `chain.rs`: the B+tree's specification and the lemmas its operations
    rest on; `occupancy.rs`: how full every page is kept.
  - `btree.rs`: the B+tree itself; `scan.rs`: the leaf-chain cursor;
    `kvdb.rs`: the public handle; `laws.rs`: what `put`, `update` and
    `delete` do to the entries.
  - `json.rs`: the tagged JSON layout of a value, with its round trip.
  - `memtree.rs`: the in-memory B-tree the store began as.
  - `kvdb_call.rs`: the state of one call handed to a worker pool.
- `app/` — what runs around the library: the database file, the spinlock
  that shares a database between threads, the `bincode` and `json` codecs,
  the codec registry, and the async handle with its worker pool.
- `tests/` — the tests, run against the compiled library.
