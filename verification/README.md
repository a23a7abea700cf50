# pokedr-core

Solvers for no-limit hold'em spots, with their behaviour stated in contracts and proved by Verus.

- `src/` is the library. Every algorithm is written once over the trait `Scalar`; `Fixed` is a number
  type of the library itself, and callers bring their own floating-point types.
  - Cards, boards, hands: `cards`, `hand_eval`, `hand_value`, `evaluator`, `rank_mask`, `hand_class`,
    `isomorphism`, `boards`, `runouts`, `deals`, `plain_deals`.
  - Ranges and their texts: `range`, `range_text`.
  - Public trees and plans: `tree`, `actions`, `betting`, `tree_build`, `tree_shape`, `plan`,
    `parallel_cfr`, `state_graph`.
  - Values of finished hands: `terminal_board`, `terminal_cfv`, `terminal_batch`, `terminal_cache`,
    `fold_weights`, `terminal_laws`, `checksums`.
  - The solver over a whole tree, by walks and in three phases: `cfr_math`, `real_setup`, `real_cfr`,
    `real_solver`, `real_terminal`, `phase_states`, `phase_plan`, `phase_reach`, `real_phase`,
    `real_run`, `real_reports`, `side_cache`, `side_keys`, `worker_profile`, `phase_laws`, `zero_sum`,
    `walk_laws`, `walk_profile`.
  - The solver with tables at every node: `node_setup`, `node_math`, `node_sweep`, `node_terminal`,
    `node_cfr`, `node_calls`, `node_run`, `node_laws`.
  - Subgames, rivers and short stacks: `postflop`, `postflop_tree`, `postflop_shape`, `postflop_play`,
    `postflop_dense`, `subgame*`, `river`, `river_cfr`, `blinds`, `structure`, `scoring`,
    `short_stack`, `seat_analysis`.
  - Tools: `scalar`, `fixed`, `sums`, `balance`, `arith`, `grid`, `index_map`, `sorting`, `text`, `parallel`.
- `tests/` runs the library on concrete values, in single and in double precision.
- `app/` holds what surrounds the library: floating-point numbers, settings from the environment,
  timed runs and smoke runs.

Three functions are trusted: the escaping of a text in `range`, and the two calls into the thread pool in
`parallel`.
