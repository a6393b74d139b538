# phonograph

The verified core of an embedded typed property-graph database, written in
Verus. The functions in `src/` are proved against their `requires`/`ensures`
contracts; the few calls into std and outside crates go through small
trusted items whose contracts are stated next to them.

## Layout

- `src/` — the library.
  - `codec`, `text`, `crc32c`, `keys`: byte encodings, text formatting,
    CRC-32C checksums and the byte order of keys.
  - `types`, `constraint`, `inference`, `error`: identifiers, type
    descriptors and value shapes, constraint violations and the types a
    change set touches, inference vocabulary, error types.
  - `page`: page headers and the leaf and interior page formats, with
    build/parse round trips.
  - `backend`: the storage backend traits (positioned reads and writes,
    resizing, durability) and the in-memory backend.
  - `format`, `snapshot`, `commit`: the file identity header, the dual
    superblocks and the selection of the active one, database creation and
    opening, snapshots, and the two-phase commit of new roots.
  - `buffer_pool`: the page cache with clock eviction; its pages read back
    what was written through it.
  - `btree`: copy-on-write node updates, split propagation, planning and
    performing a copy-on-write insert through the buffer pool, the range
    cursor, and what a tree holds (the value it gives for a key) before
    and after an insert, for trees of any height.
  - `config`: engine and file configuration, and missing extensions.
  - `provenance`, `inference_engine`: provenance records, the rule
    registry and the least-recently-used result cache.
  - `schema_records`, `overlay`: decoding the persisted id counters and
    extension names, the id-keyed merge of a base snapshot with pending
    changes, and the adjacency indexes of a set of edges.
- `tests/` — tests of the library on concrete values.
- `app/` — host-side code: saving and loading in-memory images to files,
  lock wrappers, and the property values, nodes, edges and change sets,
  which carry floating-point numbers.
