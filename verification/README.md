# rart

A verified Adaptive Radix Tree: an ordered map from byte-string keys to values,
with path compression, lookups and updates, ordered iteration, prefix and range
queries, longest-prefix matching, and merging of two or of many trees.

Every function in `src/` is checked by Verus against its contract. The contracts
speak of the tree's view, a `Map<Seq<u8>, V>` from key bytes to values.

Layout:

- `src/bytes.rs`: byte-string helpers and the lexicographic order.
- `src/keys.rs`: key types (`ArrayKey`, `VectorKey`) and conversions from strings
  and integers.
- `src/node.rs`: nodes, their well-formedness and lookup, insertion and removal.
- `src/search.rs`: longest-prefix search, prefix subtrees, in-place value access.
- `src/iter.rs`: ordered listing of entries.
- `src/merge.rs`, `src/merge_n.rs`: merging two nodes, and any number of nodes.
- `src/stats.rs`: shape statistics.
- `src/tree.rs`: the `AdaptiveRadixTree` map itself.
- `src/loser_tree.rs`: a tournament tree for N-way merging of sorted sources.
- `src/merge_check.rs`: checking a merged tree against reference hash maps.
- `app/main.rs`: a fuzz target that merges random trees and checks the result.
- `tests/`: tests of the library.

Design notes:

- Nodes keep their children in one vector sorted by first byte; the statistics
  still classify inner nodes by the adaptive width (4, 16, 48 or 256) that their
  number of children needs.
- The N-way merge holds its groups of nodes in plain vectors. A name for what a
  collection of an outside crate holds must be a non-generic function over plain
  values, and these groups hold generic tree nodes, so an outside small-vector
  type could not be described to the verifier.
