# saltglass_gen

Map generation and game-data logic for the Saltglass Steppe roguelike, written
in Verus: each public function carries a `requires`/`ensures` contract that the
verifier proves.

- `src/` — the verified library: tile maps, room/cave/maze/DLA algorithms,
  layered generation, connectivity repair (Bresenham tunnels, region graphs),
  points of interest, settlements and prefabs, populating a tile with
  enemies, items and NPCs, quest constraints, the generation pipeline, a
  text grammar, lighting, look mode and item inspection, spawn tables and
  text helpers. Random draws go through a handful of trusted wrappers over
  `rand`/`rand_chacha` in `src/rng.rs`, whose contracts state only what holds
  of every outcome.
- `tests/` — ordinary Rust tests run against the compiled library.
- `app/` — the parts Verus does not check: JSON data files read with serde,
  terminal key codes, and the floating-point code: lighting falloff,
  weights, fractal terrain, and the region weighing and pruning of Glass
  Seam Bridging, which calls the library for its integer steps.
