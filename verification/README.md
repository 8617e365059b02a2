# reactor

Building blocks of a coupled neutron-diffusion / heat-convection solver on an
axisymmetric `(r, z)` mesh.

- `src/` is the verified library (Verus):
  - `input`: splits the text of an input file into lines of white-space
    separated words.
  - `pde`: the cell layout of a mesh made of segments, each divided into
    cells: flattened cell indices, the segment that holds each cell, segment
    offsets.
  - `matrix`: sparse matrices as lists of `(row, col, value)` entries, generic
    in the value: sorting into row-major order (stable), transposition, and
    the per-row and per-column entry lists.
- `app/` is the program around it: file reading, and everything that computes
  in floating point (vectors, dense and sparse matrix arithmetic, Gauss-Jordan
  elimination, Jacobi and SOR solvers, mesh geometry, the discretised diffusion
  and convection equations, materials, polynomials).
- `tests/` exercises the library.
