# sheaf_flow

Conservation-sheaf flow on graphs. A conservation sheaf puts a stalk of
conserved quantities on each vertex and a flux operator on each edge; its
sheaf Laplacian encodes that flux in equals flux out at every vertex.

- `src/` — the verified library (Verus):
  - `graph.rs`: edge lists, incidence lists, path / cycle / complete / tree
    constructors, with their degree and edge-count laws.
  - `laplacian.rs`: the assembly pattern of the block sheaf Laplacian.
  - `laplacian_laws.rs`: its laws (block form, rows sum to zero, constant
    sections lie in the kernel, totals of each stalk component are preserved by
    the flow, symmetry, positive semidefiniteness, non-negative diagonal),
    stated for arbitrary integer coefficients.
  - `spectral.rs`: the verdicts recorded for tracked runs of the flow
    (static sheaf, first recorded drop of the gap, critical step).
- `app/` — the floating-point side (restriction matrices, heat flow,
  eigenvalues, transport), built on `nalgebra` and on the library.
- `tests/` — tests of the library.
