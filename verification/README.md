# doombuilder

The map-geometry logic of a Doom map editor, written in Verus with its
contracts proved.

- `src/` is the verified library: the map model (`map`), sector loop
  recovery (`loops`), wall quads (`walls`), floor-mesh preparation (`mesh`),
  sector rasterisation (`fill`), the spatial index for hit-testing on top of
  `rstar` R-trees (`spatial`), map analysis (`analysis`), statistics
  (`stats`), line chains for the curve tool (`chains`), texture batching of
  the 3D view (`batches`), selection edits (`edits`), the editor's pure
  decisions (`editor`), selection commands (`selection`), the filters of
  the pickers (`picker`), the keyboard shortcuts (`keys`), the pointer
  gestures of the 2D and 3D viewports (`view2d`, `view3d`), free drawing
  (`drawing`), the shape drawing tools (`shapes`), PNG decoding to RGBA on
  top of `png` (`image`) and engine launch arguments (`launch`).
- `app/` is ordinary Rust around it: settings files (`serde`, `directories`),
  the 2D camera (`glam`), the constrained triangulation (`spade`), the
  floating-point points of drawn shapes and 3D vertex data, and the
  conversion of cursor positions into the index's fixed-point coordinates.
- `tests/` runs the library on concrete maps.

Geometry in the library is integer: map coordinates as the map stores them,
and cursor positions in fixed point (`spatial::SUBUNITS` steps per map unit).
