# howto

A world made of Voronoi cells (air, dirt, stone), at several resolutions.

- `src/` is the verified library:
  - `error.rs`: the library's error, a message.
  - `voronoi.rs`: the cells of a diagram; the rebuilding of its corners and
    adjacencies from a Delaunay triangulation of its centroids; the layered
    tree that nests the cells of a finer diagram in those of a coarser one,
    with its depth-first exploration; and the laws that these keep.
- `app/` is the program: it scatters centroids with blue noise, triangulates
  them and computes the circumcenters and angles (floating point), and draws
  the cells with OpenGL. Shaders are read at start-up from
  `shaders/<name>/<stage>.glsl`.
- `tests/` exercises the library.
