# marline

Similarity search over fixed-size sketches, and the metadata pipeline of the
Palantir deduplication method built on it, verified with Verus.

- `src/sketch` — sorted fixed-size sketches, their intersections and exact
  similarity scores.
- `src/index`, `src/heuristic_index.rs`, `src/simple_storage.rs` — posting-list
  search (plain and with candidate-pruning heuristics), its in-memory storage
  and per-key metrics, and a linear-search baseline.
- `src/palantir` — super-feature generation, the fingerprint and tiered
  super-feature tables, per-tier metric lifecycles, and the per-chunk
  decisions of the scrubber (plan the work for a chunk, record its outcome).
- `src/graph.rs` — a disjoint-set forest that clusters chunk hashes.
- `app/` — unverified glue: floating-point views of scores, error types with
  messages, and the chunkfs `Database` and `Scrub` interfaces.

Contracts are stated over mathematical models (maps of postings, sequences of
features, multisets); the laws that relate several operations are public proof
functions beside the code they speak of.
