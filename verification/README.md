# pbrt_rust (verified core)

Parts of a physically based ray tracer, written in Verus.

`src/` holds the integer logic, each function with a contract that Verus
proves:

- `utils::blocked_vec` — a 2D array stored in 32 x 32 blocks; its view is the
  array row by row, and `get`/`get_mut` are specified against that view
  (including that a write changes exactly one cell, and that distinct cells
  never share storage).
- `utils::partition` — the median-of-three selection used to split point
  sets: it rearranges the slice so that the middle position holds the median
  key, with no greater keys before it and no smaller keys after it.
- `utils::kdtree` — the pre-order numbering and child links of the kd-tree
  built over a number of points.
- `utils` — `modulo`, the sub-window tiling, `Clamp` on integers.
- `sampler::utils` — the bit patterns behind the van der Corput and Sobol'
  sample sequences, the tiling of a sampler's pixel window and the size of
  the low-discrepancy sample buffer.
- `sampler::raster` — the raster-order pixel step that samplers share.
- `shape::loopsubdiv` — the connectivity of Loop subdivision surfaces: faces,
  neighbours across edges, boundary and regular vertices, and one step of
  refinement into four faces per face with a new vertex on every edge.

`app/` holds the floating-point code that reads those integer results as
fractions, angles and image coordinates.
