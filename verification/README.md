# openmc

The core of OpenMC, a Minecraft-like voxel sandbox game, written as a
Verus library: every function in `src/` carries a contract that Verus
proves.

## Layout

- `src/states.rs`, `src/ingame.rs`: the game's state machine (loading, menu,
  in a world; playing and paused inside a world) and its transitions.
- `src/input.rs`: the decisions that input makes (pause, control mode,
  movement axes, sprint, jumping and landing, the terrain wireframe toggle).
- `src/config.rs`: chunk size, render distance, sprint mode.
- `src/world/chunk.rs`: block ids, chunk coordinates, and the padded block
  array of one chunk.
- `src/world/generator.rs`: the terrain rules that turn a column heightmap
  into blocks, and the padding that lets neighbouring chunks agree.
- `src/world/bits.rs`, `src/world/mesher.rs`: binary greedy meshing, from
  per-column bit words to merged quads and vertex buffers.
- `src/world/manager.rs`: chunk streaming around the player: what is
  loaded, what waits to load, and which blocks are solid. Loaded chunks live
  in the engine's own hash map, and the window around the player is built
  as the engine's hash set; both are reached through small trusted wrappers
  whose contracts are stated over their contents.
- `app/`: the game itself on the Bevy engine: windows, cameras, input,
  rendering, the noise heightmap and the player's floating-point physics,
  all calling into the library.
- `tests/`: tests of the library on concrete values.
