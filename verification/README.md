# casting

A viewer that shows a polygon map and the area visible from the mouse
position. The visible area is computed by a CUDA shadow caster; this crate
holds the verified logic around it.

- `src/` is the verified library:
  - `map_format`: the text format of map files (one polygon per line).
  - `segments`: polygons written out as edges.
  - `point_info`: the point table and next ids handed to the caster.
  - `caster`: the caster's state between frames, and key handling.
  - `tessellation`: the ear-cutting tessellation, pass by pass.
  - `config`: the viewer's configuration.
- `app/` is the window, the file and CUDA I/O, and the floating-point
  geometry.
- `tests/` runs the library on concrete inputs.
