# turboquant

A vector store with an IVF index and 2-bit / 4-bit scalar quantization
(SQ codes plus one QJL sign bit per coordinate), served over HTTP.

- `src/` is the verified library (Verus). It holds everything that decides,
  selects, lays out, packs or frames: the engine's bookkeeping of rows and
  payloads, the index configuration (default list count: the power of two
  nearest to 2*sqrt(N), capped at N), bucket search and bit packing of
  quantization codes, probing (with an optional filter on stored ids) and
  best-k selection, a whole search put together from index and flat hits
  (the float scores come in through callbacks), batch adds, result merging
  and ranking, the row layout of the lists, the binary batch protocol, and the
  random choices of index building (through the `rand` crate). Scores and
  other `f32` values travel as their bit patterns.
- `app/` is the server: HTTP routes (axum), files, memory maps, `.npy` and
  bincode persistence, and the floating-point arithmetic (rotations,
  k-means, Lloyd-Max codebooks, lookup-table scoring).
- `tests/` exercises the library.

Binary batch search (`POST /collections/default/search/batch/bin`): an
18-byte little-endian header (`n_queries: u32`, `top_k: u32`,
`n_probe: u32`, `rerank: u8`, `rerank_factor: u32`, `with_vector: u8`)
followed by `n_queries` vectors of 384 `f32` values; the response holds per
query a `u32` hit count and per hit a `u64` id, an `f32` score, a flag byte
and, when it is 1, the stored vector.
