# wasm_particles

A real-time particle engine for the browser (SPH fluid, shape morphing, text
effects, rendered with WebGL2), split in two:

- `src/` — the verified library (Verus): the integer core of the engine.
  - `hash` — the 24-bit per-particle hash that seeds every procedural shape.
  - `cells`, `grid`, `counting` — the SPH spatial hash grid: forward neighbour
    cell lists, the stable counting sort of particles by cell, the gather into
    cell order, and the candidate pair enumeration, with the laws that each pair
    of neighbouring cells is linked once and each pair of neighbouring
    particles is visited once per pass.
  - `lattice` — the dam-break start lattice.
  - `upload` — the interleaved vertex buffer layout.
  - `shapes`, `control`, `params` — shape cycling, modes, particle-count
    clamping, statistics, framebuffer resize rule, parameter names.
- `app/` — the browser side in plain Rust: wasm-bindgen exports, web-sys
  WebGL2 rendering, events and timing, and the f32 physics kernels, camera and
  shape geometry, all calling into the library.
