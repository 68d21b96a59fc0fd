# raytracer

A small path tracer ("ray tracing in one weekend" style) whose integer core is
verified with Verus.

- `src/render.rs` — the image type and its PNG encoding: filtered scanlines,
  zlib compression (`miniz_oxide`), CRC-32 (`crc32fast`), chunk framing.
- `src/gens.rs` — the row-major pixel grid and the 256×256 gradient test image.
- `src/camera.rs` — the camera's sample walk (each pixel repeated once per sample)
  and the law that chunks of samples are the pixels in image order.
- `src/bvh.rs` — construction of the bounding volume hierarchy: a flat preorder tree
  whose boxes and axis choice come from the caller.
- `app/` — the floating-point renderer: vectors (`glam`), rays, spheres, materials,
  the camera (`bon` builder, `rayon` parallel render), random scenes (`rand`), and
  `main`, which writes the PNG file.
