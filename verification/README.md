# voxel_world

Procedural content for a voxel world — trees, rock clumps, understory, terrain textures —
with the integer and combinatorial core of every generator verified by Verus.

- `src/` is the verified library. Each module states its behaviour in `requires`/`ensures`
  over spec functions and proves it; public `proof fn`s state the laws that span calls
  (grammar composition, connectivity of kept rock clumps, wood precedence over leaves,
  rocks resting on the surface, the Poisson grid never missing a neighbour, …).
  - `grammar` — deterministic L-system expansion.
  - `voxelize` — thickening of grid-snapped branch segments into wood, leaf crowns at tips.
  - `rock` — keep only the largest 6-connected component of a clump.
  - `understory` — leaf bushes, moss pads and fallen-log cross-sections (seeded RNG).
  - `noise` — lattice hashes and seed derivation behind the value-noise fields.
  - `textures` — RGBA packing and stacking of the terrain texture array.
  - `terrain` — the voxel column rule, texture layers per material, chunk coordinates.
  - `chunk` — world block types, moving generator output to its world origin, resting rocks on terrain.
  - `placement` — the background grid of Poisson-disc sampling.
  - `biome`, `grass`, `clock`, `console` — biome rule, grass kinds, `HH:MM` clock face,
    debug-console state machine.
  - `order` — voxel ordering, sorting, deduplication and binary search.
- `app/` is the Bevy game and the floating-point parts of the generators (noise
  interpolation, turtle geometry, random placement), which call into the library.
- `tests/` exercises the library on concrete values.
