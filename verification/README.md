# GameBenchy

A benchmark of LLM agents disguised as a tower-defense game with maze
building. The game is deterministic: the same seed and the same sequence of
actions give the same game, bit for bit.

## Layout

- `src/` — the verified engine and its clients' logic (Verus):
  - `types`, `rng`, `waves`: the rules' tables, the seeded generator, the
    damage rule and the seeded waves;
  - `path`: the ground path (shortest, with the documented tie-break
    Right, Down, Up, Left) and `flight`: the straight line of flyers;
  - `sim`: the tick-by-tick resolution of a wave, specified as a state
    machine, with its accounting properties;
  - `game`: the game state and the rules of the preparation round;
    `properties`: what holds of every action and every state;
  - `protocol`: the agent contract (requests, observation in the minimal and
    detailed modes);
  - `agents`, `llm`, `reply`, `campaign`: the baselines, the language-model
    agent's prompt, the reading of its server's answers and its retry rule,
    campaigns and their CSV; `report`: the integer counts of the results
    table (agents in order, mode pairs, errors per code, tokens per wave);
  - `tui`: the keys and texts of the terminal client.
- `app/` — the programs around the library: `gamebenchy serve` (HTTP API and
  SQLite log), `gamebenchy run` (campaigns, markdown tables, model server
  calls), `gamebenchy play` (terminal client).
- `tests/` — tests of the library.
