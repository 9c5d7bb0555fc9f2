# meteo_animation

Wind-particle animation for web maps: particles drift with a wind field
decoded from map tiles and leave fading trails.

- `src/` — the library, with its contracts and proofs. It holds everything that is
  integer logic: which data tiles are loaded and which zoom level to fetch
  (`TileCoordinator`), the tile grid of a viewport (`tiles_in_range`), the
  atlas pixel buffers and tile placement (`DynamicAtlas`, `FixedAtlas`),
  reading and validating wind texels (`WindSampler`), the trail history
  (`TrailManager`), the trail vertex buffer (`TrailVertexBuilder`) and the
  particle lifecycle: the rules (`gate`, `settle`, `settle_in_wind`,
  `particle_step`), the respawn search (`first_valid`) and the step over
  all particles and their trails (`ParticleSimulator::step_with_trails`).
- `app/` — the WebAssembly bindings: the JS-facing types wrap the library
  types and add the floating-point parts (Web Mercator projection, bilinear
  interpolation, particle motion, quad geometry) and the WebGL renderer.
- `tests/` — tests of the library.
