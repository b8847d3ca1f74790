# crossy_multi_core

The core of a multiplayer road-and-river crossing game, written in Verus: the
executable code carries `requires`/`ensures` contracts that Verus proves.

## Layout

- `src/` — the verified library.
  - `game`, `player`, `game_state`: positions, inputs, player movement and pushing,
    one simulation step of all players.
  - `crossy_ruleset`: the round state machine (lobby, warmup, round, cooldown,
    winner) and its laws.
  - `timeline`: the buffer of past states, late-input merging and the offset from
    which to resimulate.
  - `map`, `sections`, `icy`, `icy_graph`, `bitmap`: map rows, their generation,
    and the check that an icy section can be crossed.
  - `player_id_map`, `ring_buffer`, `rng`, `froggy`: containers and the seeded
    generators (the hashing itself is done by outside crates behind small trusted
    wrappers, whose `ensures` clauses say what is assumed of them and whose doc
    comments name the outside function they call).
  - `menu`, `entities`, `ai`, `interop`: menu navigation, entity containers,
    simple computer players and the handshake messages.
- `tests/` — tests of the library, run against the compiled crate.
- `app/` — ordinary Rust around the library: the floating-point parts (cars,
  lillipads, the lobby raft) and the driver that ticks a timeline on a map.
