# sph_gpu

Verified building blocks of a GPU solver for one- and two-dimensional
compressible smoothed-particle hydrodynamics (SPH).

- `src/` is the Verus library. It holds the integer side of the solver: the
  static cell-adjacency graphs in CSR form (`CellGraph1d`, `CellGraph2d`), whose
  contracts give every row exactly, the host-side cell lists (`bucket_by_cell`),
  the integer setup rules (grid sizes that fit `u32`, particle columns of one
  length), particle identifiers and the median of timing samples. Proof
  functions state the graph laws: rows hold exactly the adjacent cells, in
  increasing order, adjacency is symmetric, offsets start at zero and never
  decrease, and walking a row of a cell list visits each adjacent particle once.
- `app/` is ordinary Rust around it: the floating-point kernels, configuration
  and particle checks, the device pipeline built on `cubecl` and `massively`,
  and the shock-tube and benchmark programs.
- `tests/` exercises the library on concrete inputs.
