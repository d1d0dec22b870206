# fsdb_clustering

Integer core of a deterministic Bayesian overlapping-graph-clustering
toolkit, verified with Verus, and the program that reproduces its benchmark
tables.

- `src/` — the verified library:
  - `rng`: xoshiro256** seeded by splitmix64; `below(m)` computes, in exact
    integer arithmetic, the floating-point draw `floor(u * m) mod m`;
  - `bethe`: graph adjacency lists and directed message indices;
  - `micro`: the path and 2-tree benchmark graphs and their junction-tree bags;
  - `model`: the complete pair set;
  - `tables`: random sparse pair sets and the best label alignment of
    predicted communities.
- `app/` — the floating-point solvers (Bethe messages, FSDB, mean field,
  exact enumeration, quadrature, Algorithm 1) and the table drivers, built on
  the library.
- `tests/` — tests of the library.
