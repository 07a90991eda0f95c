# Tono Chess

The search and the evaluation of a chess engine, verified with Verus.

- `src/search.rs` deepens the search of the root iteration by iteration, with
  aspiration windows; `src/alphabeta.rs` is the search itself, `src/node.rs` the
  decisions it takes at a node, `src/quiescence.rs` the search of captures at its
  horizon, and `src/steps.rs` the single steps they are made of.
- `src/nnue.rs` is the neural evaluation with its incrementally updated
  accumulators; `src/evaluation.rs` holds the material and piece-square evaluation
  and the correction of static evaluations.
- `src/model.rs` says what every part of the search does to the state of a thread
  and what it returns; `src/frame.rs` and `src/invariance.rs` say what it leaves as
  it was, `src/root.rs` how the root moves stand meanwhile, and `src/laws.rs` what
  else holds of any search.
- `src/backend.rs` is what the search asks of the rest of an engine: rules, move
  order, tables, clock. `src/game_tree.rs` is an engine for games that are written
  out beforehand.
- `src/types.rs`, `src/board.rs`, `src/movepick.rs`, `src/pv.rs`, `src/ranking.rs`,
  `src/stack.rs`, `src/thread.rs` and `src/transposition.rs` hold the data they
  work on.
- `app/` reads network files and computes the table of late move reductions, which
  takes floating point.
