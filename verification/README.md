# train_core

A deterministic, integer-tick game engine with machine-checked contracts,
written in Verus.

- `src/battle/` — Rail Royale: the ladder arena, train kinds, orders, the
  turn resolver (movement, tower and rocket fire, melee, win check) and the
  heuristic AI opponent.
- `src/map.rs`, `src/sim.rs`, `src/delivery.rs`, `src/score.rs`,
  `src/config.rs`, `src/replay.rs` — the daily routing puzzle: tree maps,
  the train schedule, the tick simulation, the proof that every train is
  delivered, scoring, the difficulty curve, and server-side verification of a
  submitted run.
- `src/rng.rs`, `src/geometry.rs`, `src/lib.rs` — the seeded random stream,
  grid directions and the daily seeds.
- `src/client.rs` — what the web client decides without drawing: sound ids,
  labels and the orders a plan commits.
- `app/` — the command-line front-end, the web client's rendering and
  hit-testing, the windowed puzzle and the Godot probe: everything that draws,
  reads the clock or works in floating point.
- `tests/` — unit and scenario tests.

Every public function of the library states what it returns, and the laws
(`lemma_*` proof functions) state what holds across calls; Verus proves both.
