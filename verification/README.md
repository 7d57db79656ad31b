# vectordb

In-memory vector databases with verified record keeping, ranking, an HNSW
graph index, an IVF cluster index and binary file formats.

`src/` is the library, checked by Verus:

- `ds20code`, `glm5`: flat databases keyed by `u64` ids (an `ahash` or std
  hash map from ids to positions), top-k search by score, thresholds and
  batches; `ds20code` also searches through the hits of a graph index.
- `kimi25`: the HNSW graph (`hnsw`) and the file format (`persistence`:
  header, LZ4 framing, checksum).
- `minimax25`: a store whose id map is a `dashmap::DashMap`, flat search and
  an IVF index whose clusters are `smallvec::SmallVec` lists, with the
  integer steps of k-means (`clustering`: nearest centre, distinct draws).
- `qwen35`: flat databases keyed by `i64` ids with their byte formats (plain
  and LZ4-compressed with `lz4_flex`) and the JSON description of a file.
- `float_bits`, `ranking`, `le_bytes`, `text`, `counter`, `copying`: `f32`
  values held by their bit patterns and ordered by key, stable top-k
  selection, little-endian integers, decimal message texts, wrapping
  counters, copies.

Vectors and distances are `f32` values held by their IEEE-754 bit patterns;
the distances themselves are computed by the callers. `app/` holds that
arithmetic, normalization, k-means centre updates, random draws, locking,
timing, parallelism and file I/O around the library.
