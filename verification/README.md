# rustzilla

A terminal aquarium. This crate is its verified core, written in Verus:

- `src/sprite.rs` — text sprites and pixel sprites (`from_art`, facing, flips).
- `src/render.rs` — the in-memory `Frame` / `PixelFrame`, drawing with clipping,
  diffs for repainting, and the palette as terminal truecolors.
- `src/raster.rs` — the window path: palette to packed pixels, the 8×8 font
  glyphs, window sizing, and the block blitters.
- `src/input.rs` — key to action mapping.
- `src/entity.rs`, `src/fish.rs` — entity kinds and the cast's sprites.
- `src/tank.rs` — the population rules: the fish cap, the spawn rotation,
  one shark at a time, removal of the dead.

`app/` holds the program around it: floating-point movement of the fish,
food and shark, the tank loop, terminal and window I/O.
