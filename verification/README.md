# isomesh

Isosurface extraction from an implicit function with an adaptive octree and
Manifold Dual Contouring, driven from Python.

The verified library (`src/`) holds the integer side of the method, with
contracts proved by Verus:

- `octree`: the cell structure (cells stored flat, branches by index), lookups
  by cell coordinates, listings of leaves, the layering invariant every
  operation keeps (`well_formed`), uniform construction from cached samples,
  splitting cells from cached samples (every sample keyed on the grid of
  `max_depth`), Morton codes, and the refinement step that joins 2:1 balancing
  and edge completion, with what holds once it names nothing;
- `eval::cache`: the evaluation cache keyed by quantized grid positions;
- `dc`: connected components of a cell's inside corners, sign-changing edges,
  vertex numbering, quad generation over shared edges, and removal of all but
  the largest connected component of a mesh;
- `bbox`: corner and edge numbering of a cubic cell.

`app/` is the Python extension module: it evaluates the user's function
(through pyo3 and numpy), does the floating-point work (bounds, bisection,
normals, QEF solving, Newton projection, refinement criteria) and runs the
build, balance and extraction loops over the library's functions.
