# laya-snake

Watch the Laya decision model play Snake, in the terminal or in a browser dashboard. Every move is
a real forward pass through the model; a safety shield can override a pick that would end the
game at once.

The game and everything it decides is a Verus library under `src/`, verified against its
contracts:

- `grid`, `search`: the board, walks on it, flood fill and breadth-first searches with exact
  reachability and shortest-distance specifications.
- `game`: the rules (fatal moves, eating, food refills, rock layouts that keep the board
  connected), snapshots and the path-to-food hints the model is given.
- `shield`: the ranking of the model's four answers and the safety override.
- `ai`, `sequence`, `tensors`: the prompt, the random key order, the encoder input laid out around
  `[MASK]` markers, and the checks that make reading weights out of a checkpoint safe.
- `controls`, `pacing`, `session`, `cli`, `http`, `scenarios`: keys and dashboard commands, when
  the model is asked and when a move may run, the round bookkeeping, the command line, the
  dashboard's requests, and the positions `--bench` and `--verify` time and cross-check.
- `frame`: the terminal dashboard's layout, every text drawn with its place and tone.

`app/` is the program around it: terminal and keyboard handling, the web server, the inference engines (f16
AVX2 kernels and the `laya` crate's candle implementation), the model download and the score
file. `tests/` exercises the library with the real outside crates linked.
