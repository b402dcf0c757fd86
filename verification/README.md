# minesweeper

A Minesweeper board and the bookkeeping of a reinforcement-learning agent that
plays it, with the board logic and the training decisions verified by Verus.

- `src/game.rs` — cells, boards, bomb placement away from the first move, hints,
  the flood that opens an area, moves and win detection.
- `src/count.rs` — counting and listing the cells of a board that satisfy a
  predicate, with the lemmas the board proofs use.
- `src/ml/` — the board as an environment (observations, rewards, action
  masks), remembered transitions, the replay memory, and the game side of
  training (`Model`): which move to explore, what to record, when a training
  batch or a target-network synchronisation is due, and how episodes end.
- `src/tui.rs` — the counters behind the training dashboard.
- `src/properties.rs` — properties that span several functions.
- `src/random.rs` — the single call into `rand`.
- `app/` — the program: the Q-network and its training (with `burn`), the
  terminal dashboard (with `ratatui`), and Bevy-facing copies of the board types.

Rewards are kept in hundredths and network features in eighths, so that every
value the verified code handles is an integer; `app/` converts them to floats.
