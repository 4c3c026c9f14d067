# Stolen Moments

A casino heist on a time loop: explore a procedurally generated level, learn
the guards' routines and the vault code across runs, then pull off the heist in
a single loop while your earlier runs replay as ghosts.

## Layout

- `src/` — the library, verified with Verus. It holds the game's rules and
  generation logic over integer grids:
  - `grid` — row-major cells, 4-adjacency, walks and linkedness;
  - `level` — the tile map with room tags, the noise pass, room stamping,
    component labelling, cheapest-route corridor carving that respects
    protected walls, why stamped levels can always be joined (`reach`), and
    the level sources (`NoiseSource`, `HybridSource`);
  - `dungeon` — the plain cavern generator: regions, the join plan of
    closest-pair L-corridors from the largest region, the joined dungeon;
  - `adversary` — guard pathing (shortest routes, search rings, random tiles),
    placement against the level's objectives, route decisions, and the
    per-tick alertness, gaze and movement decisions;
  - `props`, `employee`, `vault`, `coins`, `time_loop`, `persistence`,
    `catch`, `state`, `loading`, `billboard`, `debug` — the remaining rules;
  - `seed` — per-subsystem sub-seeds; `rng` — the seeded generator.
- `tests/` — executable tests of the library.
- `app/` — the Bevy game around the library: windowing, input, rendering,
  world-space movement and sensing (floating point), and the per-frame systems.

The library draws randomness only from `rand`'s `SmallRng`, seeded from the
run's master seed, so a given seed reproduces the same level and guard routes
on every loop.
