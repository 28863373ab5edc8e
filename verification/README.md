# onlinerpg

The rules of an online RPG server, written in Verus and proved against
their contracts: procedural dungeons, skills (fishing, mining,
woodcutting), inventory and equipment, trading, and the grid algorithms
the world map uses.

## Layout

- `src/` — the verified library.
  - Dungeons: `dungeon` (layout types, seeds, depth mapping), `dungeon_gen`
    (generation from a seeded ChaCha8 stream) with its functional model in
    `gen_model`, `floor_cells` and `doors` (passability bit grids),
    `connectivity` (flood fill), `passability` (per-floor grids),
    `spawn_tables` (the monster table), `dungeon_runtime` (chests, spawns).
  - Skills: `fishing` and `fishing_session`, `mining`, `woodcutting`,
    with `weights` for weighted picks.
  - Items and trade: `inventory`, `item_defs`, `merchants`, `trading`,
    `shop_holds`.
  - World: `pathing` (line of sight and path smoothing), `grid` (BFS
    distances), `splat`, `rivers`, `boats`, `chat`, `entity`, `housing`.
  - Outside calls: `rng` (ChaCha8 draws from `rand`/`rand_chacha`) and
    `chance` (thread-local rolls) are the only trusted code; every
    contract there is documented at the wrapper.
- `tests/` — scenario tests run against the compiled library.
- `app/` — a command-line front end that bakes a dungeon and prints it as
  JSON, plus the float geometry (world positions, drop placement) that
  stays outside the proofs.

Monster AI (chasing, leashing, attack ranges and its path provider) works
on float world positions and distances throughout, so it is not part of
the library; only its integer pieces are: the passability grids it reads,
line of sight over cells and path smoothing (`pathing`), and the monster
state record (`entity`).
