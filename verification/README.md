# rcomb

Collections of combinatorial objects up to isomorphism, and a few such objects, written in
Verus with their behaviour stated in contracts and proved.

- `src/collections`: `CombMap`, a map whose keys are found up to isomorphism (buckets by an
  isomorphism-invariant hash, searched with `is_isomorphic`); `CombParMap`, the same map for
  parallel lookups; `CombSet` on top of it; and `CombIndex`/`HashIndex`, which number objects
  up to isomorphism; and the row layout of their CSV files. The laws that the collections
  rest on (isomorphism is an equivalence, isomorphic objects hash alike) are asked of the
  objects that each `CombEq` vouches for; for graphs and graph templates these are the
  well-formed graphs without parallel edges, and `graph_eq` proves the laws for them.
- `src/objects`: cyclic orders, embedded graphs (rotation systems, with well-formedness
  kept by adding and removing vertices and edges, mapping and filtering, and stated after
  building when each edge id occurs twice), their
  text form, connected components and the Jacobi-diagram skeletons read from `multig` output,
  framings, chord diagrams with their
  canonical forms, enumeration, count and intersection graphs, and graphs stored as
  `petgraph` stores them, with their hash, isomorphism, components, subgraphs, text form and graph6 form; graph
  templates (graphs whose vertices may stand for groups) with their parser, text form,
  decomposition, application to a graph and enumeration from a graph.
- `src/text`: decimal numbers and comma-separated lists as characters.
- `src/util`: binomials, double factorials, divisors, Euler's totient (from prime factors, or
  by counting coprimes with Euclid's algorithm), and deduplication by union-find.
- `app`: CSV input and output of collections, text forms of objects, enumeration by degree
  (with the graphs that `geng` and `multig` list) and the totient.
- `tests`: the tests of the library.
