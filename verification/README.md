# kuzu_storage

The storage and query-operator core of an embedded graph database, written
in Verus: each function carries a contract over a mathematical model of its
data, and Verus proves the code against it.

## Layout

- `src/` — the verified library, one module per component:
  pages, WAL records and replay, the shadow file and page manager,
  compression codecs, the binary value codec, roaring bitmaps, ART nodes,
  update and version chains, column chunks and node groups, relationship
  tables and their multi-hop traversal (`recursive_extend`), the CSR index,
  the hash index, statistics and HyperLogLog registers, CSV/NPY/ICE
  readers, the spiller and buffer manager, and the physical operators
  (hash join, semi/anti join, cross product, intersect, limit, union,
  optional, unwind, order by).
  Laws that relate several functions stand as public proof functions named
  `law_*`.
- `tests/` — executable tests of the library.
- `app/` — the parts that cannot be verified: file I/O, the floating-point
  estimates and parsers, and serde copies of library types.

Outside crates are called through a few trusted items (marked
`#[verifier::external_body]`), each documented with what its contract
claims of the outside code.
