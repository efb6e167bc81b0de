# ghdbscan

Density-based and hierarchical clustering (DBSCAN, HDBSCAN, agglomerative
clustering, k-nearest-neighbour voting, K-Means initialisation) whose
combinatorial core is written in Verus and proved against its contracts.

- `src/` is the verified library: cluster formation from neighbourhoods or
  from a bit-packed adjacency matrix, Prim's spanning tree over integer edge
  keys (with proofs that it is a minimum and a minimum-bottleneck spanning
  tree), union-find, the HDBSCAN dendrogram and its labelling, the bookkeeping
  of agglomerative merges, majority voting, configuration types, and the
  integer helpers for GPU dispatch sizes.
- `app/` is the layer around it that works on floating-point data and
  devices: distance metrics, the k-d tree, core distances and stabilities,
  K-Means, Gaussian mixtures, spectral clustering, the wgpu kernels, the
  candle model and the Python bindings.
- `tests/` runs the library on concrete inputs.
