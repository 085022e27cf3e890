# Vector indexes over distance keys

Approximate nearest-neighbour indexes (NSW, HNSW, IVF-Flat) whose logic is
verified with Verus.

The verified library (`src/`) never looks at vector components.  Every
decision it takes about closeness goes through a *distance key*: a `u32`
that orders rows exactly as their distances do (smaller is closer, ties go to
the smaller row id).  It holds:

- `order`: neighbours, their order, sorted insertion;
- `graph`: best-first layer search, greedy descent, neighbour pruning;
- `layer`: inserting a row into a graph layer and the invariant layers keep;
- `link`: linking a new row into a bounded reciprocal graph while keeping
  every row reached from row 0;
- `nsw`, `hnsw`, `ivf`: the three indexes, with their configurations;
- `topk`, `rng`, `dataset`, `types`: bounded top-k, a seeded generator, the
  dataset shape, metrics and errors.

`app/` computes `f32` distances, turns them into keys (an order-preserving
encoding of the float's bits), trains IVF centroids, and offers search by
`f32` query through the `VectorIndex` trait.

What the proofs establish, beyond each function's exact result:

- a layer search keeps its results sorted with distinct rows, never ranks an
  entry point above its best result, and, when it keeps fewer than `ef`
  rows, has found every row it could reach;
- NSW graphs are bounded by `max_connections` and reciprocal; when lists may
  hold two rows or more, every row is reached from row 0 (a new row whose
  closest candidate is full is put on that candidate's longest edge), so a
  search with `ef` at least the number of rows is exact.  With lists of one
  row a reciprocal graph can only pair rows up, and rows are left unlinked;
- HNSW layer 0 links every row both ways with an earlier one, so a search of
  it with `ef` at least the number of rows returns the exact nearest rows;
  a layer above 0 holds exactly the rows whose level reaches it, linked the
  same way;
- IVF-Flat lists put every row in exactly one list, every centroid has the
  dataset's dimension, and a search scans the lists of the `probes` nearest
  centroids and gives distinct rows; probing more lists never makes the
  `i`-th result farther.

`app/` also rejects non-finite components in datasets and queries before
anything reaches the library.
