# lau_tropical_geometry_agents

Tropical (max-plus) geometry: `a ⊕ b = max(a, b)` and `a ⊗ b = a + b`.

- `src/` is the verified library, written in Verus: lattice points and
  Newton polytopes (`newton`), the exponent structure of tropical
  polynomials (`polynomial`, generic in the coefficient type), the graph
  structure of tropical curves (`curves`, generic in the vertex type),
  lexicographic permutation enumeration for tropical determinants
  (`linear_algebra`), Bézout numbers and intersection multiplicities
  (`intersection`), exact ranks of integer vectors and the affine
  dimension of polytopes (`rank`, by elimination in integers of unbounded
  size), and the `TropicalOps` interface (`semiring`). Every
  function has a contract, and the laws of the library (for instance that
  the degree of a product of polynomials is the sum of their degrees, or
  that walking permutations visits each exactly once) are proof functions.
- `app/` is ordinary Rust around it: the `f64` tropical numbers, matrices
  (on `nalgebra`), polytopes, optimization, tropicalization, intersection
  search and scheduling, and `serde` copies of the library's types.
- `tests/` exercises the library.
