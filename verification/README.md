# maze_generator

A generator of multi-goal, multi-layer, non-intersecting maze maps, written in
Verus. Each map holds `l` layers of an `m` by `n` grid; its puzzle tensor has
shape `(l, g+1, m, n)` (channel 0 the walls, channel `r+1` the checkpoints of
route `r`) and its solution tensor has shape `(l, m, n)`.

## Layout

- `src/` is the verified library.
  - `grid`: cells, coordinates between maze and grid, distances.
  - `region`: splitting the lattice into one connected region per route.
  - `maze`: depth-first maze carving, walks, breadth-first paths.
  - `checkpoint`: choosing checkpoint cells spread over a region.
  - `plan`: cutting a route's tree path into pieces joined by vias.
  - `generation`: carving the layers and drawing the solution.
  - `connect`: what it means for a route to connect its checkpoints.
  - `properties`: laws about the generated maps and mazes.
  - `validation`, `export`, `render`: checking a map, packing its tensors
    as bytes, and the pixels of a rendered layer.
  - `rng`: the calls into `rand`.
- `app/main.rs` is the command line program: argument parsing, parallel
  generation, writing safetensors files and PNG images.
- `tests/` holds the tests.
