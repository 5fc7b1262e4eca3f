# cpu_sparse

A sparse-strip CPU rasterizer. Paths are flattened into line segments, the segments
are cut into 4x4 tiles, tiles of one location are merged into horizontal strips with
per-pixel coverage masks, strips become commands of 256x4 "wide tiles", and each wide
tile is composited in a scratch buffer and packed into an RGBA pixmap.

## Layout

- `src/` is the library, verified with Verus. It holds the integer core of the
  pipeline:
  - `tiling.rs`: packed tile-relative points, footprints (the pixel columns a tile
    covers), tile locations and sort keys, and the `Tiler` index of tiles.
  - `strip.rs`: tiles, sorting them by location, and the strip pass that turns sorted
    tiles into strips and coverage masks (the masks themselves are computed by a
    function the caller passes in).
  - `rect.rs`: strips for axis-aligned rectangles.
  - `wide_tile.rs`: wide tiles, their fill and strip commands, and the generation of
    commands from strips.
  - `fine.rs`, `fine/`: Porter-Duff compositing of premultiplied 8-bit pixels, running
    commands on the scratch buffer and packing it into the pixmap.
  - `render.rs`: the render context and rendering it into a pixmap, with the laws that
    tie the stages together.
  - `pixmap.rs`: the pixmap, and decoding PNG images through `zune-png`.
  - `paint.rs`, `pattern.rs`, `dispatcher.rs`, `ffi.rs`, `bench.rs`: paints, pattern
    options, kernel dispatch, the plain values of the C interface and benchmark
    parameters.
- `app/` is the part that computes in floating point or talks to the outside: curve
  flattening (kurbo), tiling of float segments, coverage areas, colors, the drawing
  context with its transform, SVG scenes (usvg), random benchmark scenes (rand) and the
  C interface.
- `tests/` holds the tests of the library.
