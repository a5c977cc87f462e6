# generative_art

A small generative-art renderer. Each frame starts as the previous frame
faded towards black, is painted with stripes and flipping hexagons, and is
written out as GIF and MP4 (or drawn into a browser canvas).

- `src/` is the verified library (Verus): frames over `image` buffers
  (`pixels`), frame preparation and fading (`frame`), clipped drawing of
  squares, Bresenham lines and triangles (`draw_tools`), the background
  (`user`) and RGBA to RGB conversion (`utils`).
- `app/` is the program: encoding and file output, the browser loop, and the
  parts of the animation computed in floating point (circle test, triangle
  row interpolation, hexagon geometry).
- `tests/` exercises the library on concrete frames.
