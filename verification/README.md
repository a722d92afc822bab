# lau_spatial

Spatial indexing for game worlds — a quad-tree, a uniform grid hash and a
spatial hash for sized entries — written in Verus, with its behaviour stated
in contracts and proved.

Coordinates are binary64 numbers, held by their bit patterns (`Coord`). The
library compares them exactly as the hardware compares the numbers they
encode, but does no arithmetic on them: where an index needs a computed value
(the bounds of a node's quadrants, the grid cell of a position, a distance) the
caller computes it and hands it in.

Layout:

- `src/coord.rs` — `Coord` and its order (NaN, signed zeros).
- `src/geometry.rs` — `Vec2`, `AABB`: containment, intersection, merge, expand.
- `src/entry.rs` — `SpatialEntry` and its view.
- `src/quadtree.rs` — `QuadTree`: insertion with splitting; point and range
  queries that skip every quadrant whose covering box misses the query;
  collection and nearest-first selection.
- `src/ranking.rs` — stable sort by distance, radius filter.
- `src/cells.rs` — the cell map shared by both grid structures.
- `src/grid.rs` — `GridHash`.
- `src/spatial_hash.rs` — `SpatialHash`.
- `app/lib.rs` — the `f64` face: vector arithmetic, serde types, cell and
  quadrant computation, and the indexes with their binary64 signatures.
- `tests/` — scenarios and laws on concrete values.
