# projekto

The world logic of a voxel game, written in Verus: the chunk storage and its indexing, the
world of loaded chunks, the chunk commands and their batching, terrain generation from column
heights, face occlusion and face merging for meshing, natural light propagation and removal
across chunks, light smoothing, the landscape around the viewer, the flood of open voxels that decides how
the view is clipped around the character, chunk queries, and the performance counters. Every function of the library comes with a contract that Verus proves.

Layout:

- `src/` — the verified library, one module per topic (`chunk`, `voxworld`, `genesis`,
  `shaping`, `faces_merger`, `mesh`, `light_propagator`, `light_smoother`, `landscape`,
  `terraforming`, `query`, `cache`, `perf`, `math`, `voxel`, `view`).
- `tests/` — tests on concrete values.
- `app/` — a headless program around the library: noise heights, cache files on disk, kind
  descriptions, float geometry of vertices, and the performance report.
