# pgvectorscale

The logic of three vector index access methods, verified with Verus:

- `src/ivf`: an inverted-file index. Entries are sealed into immutable
  segments of a struct-of-arrays byte format; blocks of retired segments are
  reclaimed through a free list.
- `src/hnswsq`, `src/hnswsq2`: an HNSW graph. Layer search, neighbor selection,
  connection updates, the stored form, vacuum and repair, the in-memory build,
  the placement of a built graph on pages, and diagnosis.
- `src/quantization`, `src/rabitq`: RaBitQ codes. Packing, the transposed layout
  of batched scans, integer distances, nodes and caches of a graph over codes.
- `src/util`: pages, item pointers, byte order, order keys of floats, selection
  of nearest items, a cache, random draws.

Floats appear in `src` only as bit patterns and order keys. The kernels that
compute with them, archiving, and what talks to the server live in `app`.

Functions named `law_...` state properties that relate several functions.
