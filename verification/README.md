# lab1_poligono

A small software rasterizer, verified with Verus. It draws polygons into an
in-memory RGBA framebuffer: scanline filling with the even-odd rule (so an
inner contour cuts a hole), Bresenham outlines, thick outlines drawn with a
square pen, and exports to PNG (stored zlib blocks) and BMP.

Layout:

- `src/framebuffer.rs` – colours, points, the framebuffer and its model
  (`FrameView`: size plus row-major pixels), and painting a region.
- `src/line.rs` – Bresenham lines, closed outlines, thick outlines, and the
  laws of the line walk (endpoints, 8-connectivity, length, half-pixel bound).
- `src/scanline.rs` – the scanline fill: crossings as exact rounded-up
  fractions, sorting, span painting, and the even-odd laws.
- `src/checksum.rs` – CRC-32 and Adler-32.
- `src/encode.rs` – PNG and BMP files as byte sequences.
- `src/rasterizer.rs` – the demo scene and `render_scene`.
- `app/` – the program: writes `out.png` and `out.bmp` and shows the scene in a
  raylib window (`--export-only` skips the window).
