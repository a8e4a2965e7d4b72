# cosmic_terrain

The verified core of a cube-sphere terrain presentation layer: quadtree patch
addressing, streaming and publication decisions, the bounded GPU upload queue,
render-entity hand-off between refining patches, imagery residency within a
byte budget, scatter density, mip chains, atlas painting and mesh index
topology. Every function under `src/` carries a `requires`/`ensures` contract
that Verus proves, and the laws the layer relies on are stated as proof
functions: a publication replaces the cover, a hidden parent never leaves a
hole, backfilled uploads reach every published patch exactly once, and so on.

## Layout

- `src/`: the library, checked by Verus. `lib.rs` lists the modules.
- `tests/`: ordinary Rust tests of the library on concrete values.
- `app/`: the floating-point presentation helpers around the library
  (procedural textures, heightmaps, vertex attributes, LOD distances,
  telemetry percentiles). It computes the real-valued parts; every integer
  decision is a call into the library.

Sets of patches are passed as lists in which no patch occurs twice; a
published cover is passed in ascending patch order (face, level, `tile_x`,
`tile_y`). Planets are named by the 64-bit identity of their entity.
