//! Core of a heads-up poker solver.
#![allow(unused_imports)]

pub mod actions;
pub mod arith;
pub mod balance;
pub mod betting;
pub mod betting_laws;
pub mod blinds;
pub mod blocker_laws;
pub mod boards;
pub mod cards;
pub mod cfr_math;
pub mod chance_laws;
pub mod checksums;
pub mod deal_laws;
pub mod deals;
pub mod decision_laws;
pub mod discount_laws;
pub mod evaluation_laws;
pub mod evaluator;
pub mod fixed;
pub mod fold_weights;
pub mod game_laws;
pub mod grid;
pub mod hand_class;
pub mod hand_eval;
pub mod hand_value;
pub mod index_map;
pub mod isomorphism;
pub mod matching_laws;
pub mod measure;
pub mod mixture_laws;
pub mod node_calls;
pub mod node_cfr;
pub mod node_end_laws;
pub mod node_laws;
pub mod node_math;
pub mod node_run;
pub mod node_setup;
pub mod node_sweep;
pub mod node_terminal;
pub mod parallel;
pub mod parallel_cfr;
pub mod payoff_laws;
pub mod phase_laws;
pub mod phase_plan;
pub mod phase_reach;
pub mod phase_states;
pub mod plain_deals;
pub mod plan;
pub mod plan_laws;
pub mod postflop;
pub mod postflop_dense;
pub mod postflop_play;
pub mod postflop_shape;
pub mod postflop_tree;
pub mod pot_laws;
pub mod range;
pub mod range_text;
pub mod rank_mask;
pub mod real_cfr;
pub mod real_phase;
pub mod real_reports;
pub mod real_run;
pub mod real_setup;
pub mod real_solver;
pub mod real_terminal;
pub mod report_laws;
pub mod river;
pub mod river_cfr;
pub mod river_laws;
pub mod run_laws;
pub mod runouts;
pub mod scalar;
pub mod scoring;
pub mod scoring_laws;
pub mod seat_analysis;
pub mod seat_laws;
pub mod short_stack;
pub mod shove_laws;
pub mod side_cache;
pub mod side_keys;
pub mod sizing_laws;
pub mod sorting;
pub mod state_graph;
pub mod street_laws;
pub mod structure;
pub mod subgame;
pub mod subgame_actions;
pub mod subgame_cfr;
pub mod subgame_deals;
pub mod subgame_equity;
pub mod subgame_laws;
pub mod subgame_nodes;
pub mod subgame_report;
pub mod subgame_solve;
pub mod subgame_streets;
pub mod subgame_tree;
pub mod subgame_tree_laws;
pub mod sums;
pub mod sweep_laws;
pub mod terminal_batch;
pub mod terminal_board;
pub mod terminal_cache;
pub mod terminal_cfv;
pub mod terminal_laws;
pub mod text;
pub mod tree;
pub mod tree_build;
pub mod tree_shape;
pub mod update_laws;
pub mod walk_laws;
pub mod walk_profile;
pub mod worker_profile;
pub mod zero_sum;
