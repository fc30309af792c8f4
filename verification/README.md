# search

Ordered rooted trees under leaf deletion, and the reduction DAGs (with
multi-edges) that the deletions induce, as a Verus library with its contracts
and proofs.

- `src/tree.rs`, `parse.rs`, `reduction.rs`: trees, their shapes, text form and
  immediate reductions.
- `src/dag.rs`, `reach.rs`, `labels.rs`, `equivalence.rs`, `dot.rs`: the DAG,
  reachability, relabelling, DAG equality (isomorphism: a one-to-one map of
  the vertices that sends root to root and keeps the number of edges between
  any two vertices) and Graphviz output.
- `src/enumerate.rs`, `listing.rs`, `sums.rs`, `hooks.rs`, `growth.rs`,
  `dyck.rs`: enumeration of trees (each once, a Catalan number of them) and of
  balanced strings of parentheses, random trees, reduction counts and the hook
  length formula.
- `src/canonical.rs`, `reordering.rs`: canonical forms, which two trees share
  exactly when some tree is a reordering of the children of both.
- `src/search.rs`, `dyslexia.rs`, `motifs.rs`, `reconstruct.rs`: the dyslexia
  relation and the searches built on it (dyslexic trees have equal reduction
  DAGs), motifs and spines.
- `src/counting.rs`, `random.rs`: the calls into `itertools` and `rand`.
- `app/`: the command-line program.
