//! Ranges, trees, plans and solvers in single precision.
use pokedr_core::boards::first_terminal_board;
use pokedr_core::cards::{Board, Card};
use pokedr_core::cfr_math::{RealCfrAverageStrategy, RealCfrConfig, RealCfrVariant};
use pokedr_core::evaluator::{highest_rank, straight_high_from_mask};
use pokedr_core::fold_weights::{
    opponent_weights_for, opponent_weights_for_fast, same_combo_indices,
};
use pokedr_core::isomorphism::{all_suit_permutations, next_card_isomorphism, SuitPermutation};
use pokedr_core::node_cfr::NodeLocalEvaluationMode;
use pokedr_core::node_run::NodeLocalCfrSolver;
use pokedr_core::node_sweep::{
    prepared_river_targets, sort_combo_targets_by_strength,
    terminal_side_range_targets_sorted_accumulate, terminal_side_river_targets_sorted_accumulate,
};
use pokedr_core::parallel_cfr::ParallelCfrSolver;
use pokedr_core::node_calls::NodeLocalCalls;
use pokedr_core::phase_plan::{
    first_terminal_state_index, terminal_phase_partitions, terminal_phase_state_weight,
};
use pokedr_core::phase_reach::{EvaluationMode, StrategySource};
use pokedr_core::phase_states::PhaseState;
use pokedr_core::plan::{
    plan_cfr_work, private_pair_count, public_board_multiplicity, street_index, CfrStorageConfig,
};
use pokedr_core::postflop::{
    is_aggressive_action, ActionSetBuilder, ActionSetConfig, ActionSetRequest, PlayerAction,
    SizingSource,
};
use pokedr_core::postflop_dense::PostflopDenseLayout;
use pokedr_core::postflop_tree::{
    state_after_aggressive_action, Player as Seat, PublicNodeKind as BetNodeKind,
    PublicState as BetState, SubgameTree, SubgameTreeConfig, TerminalKind,
};
use pokedr_core::range::{is_exact_combo_token, RangeSpec, WeightedToken};
use pokedr_core::range_text::range_tokens;
use pokedr_core::real_reports::{board_major_tasks, TerminalBoardTask};
use pokedr_core::real_solver::RealCfrSolver;
use pokedr_core::scalar::Scalar;
use pokedr_core::side_cache::{TerminalSideCacheKey, TerminalSideValueCache};
use pokedr_core::side_keys::side_key_statistics;
use pokedr_core::state_graph::collect_states;
use pokedr_core::subgame_nodes::CfrVariant;
use pokedr_core::terminal_batch::{
    batch_ranges, terminal_cfv_prefix_blocker_columns, trial_columns, PreparedTerminalCfvSmoke,
};
use pokedr_core::terminal_board::{combo_strengths, live_combos, PreparedTerminalBoard};
use pokedr_core::terminal_cache::{
    prepared_combo_indices, prepared_combo_targets, TerminalCacheRef,
};
use pokedr_core::terminal_cfv::{
    terminal_cfv_bruteforce, terminal_cfv_prefix_blocker,
    terminal_cfv_prefix_blocker_board_targets_into, terminal_cfv_prefix_blocker_into,
    terminal_cfv_prefix_blocker_targets_into, terminal_cfv_sparse_board_targets_into,
    terminal_cfv_sparse_targets_into, TerminalCfvInput, TerminalCfvScratch,
};
use pokedr_core::tree::{
    ActionAbstraction, ActionKind, BetSizeSpec, ChanceExpansion, Player, PublicNodeKind, PublicTree,
    RaisePolicy, Spot, Street, StreetTemplate, TerminalReason, TreeBuildError, TreeTemplate,
};
use pokedr_core::tree_build::TreeBuilder;

/// Numbers in single precision.
#[derive(Clone, Copy, Debug, PartialEq)]
struct Single(f32);

impl Scalar for Single {
    fn zero() -> Self {
        Single(0.0)
    }

    fn zero_spec() -> Self {
        Self::zero()
    }

    fn one() -> Self {
        Single(1.0)
    }

    fn one_spec() -> Self {
        Self::one()
    }

    fn from_u32(value: u32) -> Self {
        Single(value as f32)
    }

    fn from_u32_spec(value: u32) -> Self {
        Self::from_u32(value)
    }

    fn from_u64(value: u64) -> Self {
        Single(value as f32)
    }

    fn from_u64_spec(value: u64) -> Self {
        Self::from_u64(value)
    }

    fn from_count(value: usize) -> Self {
        Single(value as f32)
    }

    fn from_count_spec(value: usize) -> Self {
        Self::from_count(value)
    }

    fn infinity() -> Self {
        Single(f32::INFINITY)
    }

    fn infinity_spec() -> Self {
        Self::infinity()
    }

    fn plus(self, other: Self) -> Self {
        Single(self.0 + other.0)
    }

    fn plus_spec(self, other: Self) -> Self {
        self.plus(other)
    }

    fn minus(self, other: Self) -> Self {
        Single(self.0 - other.0)
    }

    fn minus_spec(self, other: Self) -> Self {
        self.minus(other)
    }

    fn times(self, other: Self) -> Self {
        Single(self.0 * other.0)
    }

    fn times_spec(self, other: Self) -> Self {
        self.times(other)
    }

    fn over(self, other: Self) -> Self {
        Single(self.0 / other.0)
    }

    fn over_spec(self, other: Self) -> Self {
        self.over(other)
    }

    fn negate(self) -> Self {
        Single(-self.0)
    }

    fn negate_spec(self) -> Self {
        self.negate()
    }

    fn max_of(self, other: Self) -> Self {
        Single(self.0.max(other.0))
    }

    fn max_spec(self, other: Self) -> Self {
        self.max_of(other)
    }

    fn min_of(self, other: Self) -> Self {
        Single(self.0.min(other.0))
    }

    fn min_spec(self, other: Self) -> Self {
        self.min_of(other)
    }

    fn exceeds(self, other: Self) -> bool {
        self.0 > other.0
    }

    fn exceeds_spec(self, other: Self) -> bool {
        self.exceeds(other)
    }

    fn at_least(self, other: Self) -> bool {
        self.0 >= other.0
    }

    fn at_least_spec(self, other: Self) -> bool {
        self.at_least(other)
    }

    fn same(self, other: Self) -> bool {
        self.0 == other.0
    }

    fn same_spec(self, other: Self) -> bool {
        self.same(other)
    }

    fn is_finite(self) -> bool {
        self.0.is_finite()
    }

    fn is_finite_spec(self) -> bool {
        self.is_finite()
    }

    fn is_infinite(self) -> bool {
        self.0.is_infinite()
    }

    fn is_infinite_spec(self) -> bool {
        self.is_infinite()
    }

    fn round_u32(self) -> u32 {
        self.0.round() as u32
    }

    fn round_u32_spec(self) -> u32 {
        self.round_u32()
    }

    fn ceil_u32(self) -> u32 {
        self.0.ceil() as u32
    }

    fn ceil_u32_spec(self) -> u32 {
        self.ceil_u32()
    }

    fn root(self, degree: u8) -> Self {
        Single(self.0.powf(1.0 / degree as f32))
    }

    fn root_spec(self, degree: u8) -> Self {
        self.root(degree)
    }

    fn power(self, exponent: Self) -> Self {
        Single(self.0.powf(exponent.0))
    }

    fn power_spec(self, exponent: Self) -> Self {
        self.power(exponent)
    }

    fn ln(self) -> Self {
        Single(self.0.ln())
    }

    fn ln_spec(self) -> Self {
        self.ln()
    }

    fn log_ratio(left: u32, right: u32) -> Self {
        Single((left as f32 / right as f32).ln().abs())
    }

    fn log_ratio_spec(left: u32, right: u32) -> Self {
        Self::log_ratio(left, right)
    }

    fn bits(self) -> u64 {
        self.0.to_bits() as u64
    }

    fn bits_spec(self) -> u64 {
        self.bits()
    }

    fn place(self) -> u64 {
        let bits = self.0.to_bits();
        let turned = if bits >> 31 == 1 { !bits } else { bits | 0x8000_0000 };
        turned as u64
    }

    fn place_spec(self) -> u64 {
        self.place()
    }

    fn one_is_positive() {}

    fn bits_tell_apart(_: Self, _: Self) {}
}

/// Numbers in double precision, in which reports are given.
#[derive(Clone, Copy, Debug, PartialEq)]
struct Wide(f64);

impl Scalar for Wide {
    fn zero() -> Self {
        Wide(0.0)
    }

    fn zero_spec() -> Self {
        Self::zero()
    }

    fn one() -> Self {
        Wide(1.0)
    }

    fn one_spec() -> Self {
        Self::one()
    }

    fn from_u32(value: u32) -> Self {
        Wide(value as f64)
    }

    fn from_u32_spec(value: u32) -> Self {
        Self::from_u32(value)
    }

    fn from_u64(value: u64) -> Self {
        Wide(value as f64)
    }

    fn from_u64_spec(value: u64) -> Self {
        Self::from_u64(value)
    }

    fn from_count(value: usize) -> Self {
        Wide(value as f64)
    }

    fn from_count_spec(value: usize) -> Self {
        Self::from_count(value)
    }

    fn infinity() -> Self {
        Wide(f64::INFINITY)
    }

    fn infinity_spec() -> Self {
        Self::infinity()
    }

    fn plus(self, other: Self) -> Self {
        Wide(self.0 + other.0)
    }

    fn plus_spec(self, other: Self) -> Self {
        self.plus(other)
    }

    fn minus(self, other: Self) -> Self {
        Wide(self.0 - other.0)
    }

    fn minus_spec(self, other: Self) -> Self {
        self.minus(other)
    }

    fn times(self, other: Self) -> Self {
        Wide(self.0 * other.0)
    }

    fn times_spec(self, other: Self) -> Self {
        self.times(other)
    }

    fn over(self, other: Self) -> Self {
        Wide(self.0 / other.0)
    }

    fn over_spec(self, other: Self) -> Self {
        self.over(other)
    }

    fn negate(self) -> Self {
        Wide(-self.0)
    }

    fn negate_spec(self) -> Self {
        self.negate()
    }

    fn max_of(self, other: Self) -> Self {
        Wide(self.0.max(other.0))
    }

    fn max_spec(self, other: Self) -> Self {
        self.max_of(other)
    }

    fn min_of(self, other: Self) -> Self {
        Wide(self.0.min(other.0))
    }

    fn min_spec(self, other: Self) -> Self {
        self.min_of(other)
    }

    fn exceeds(self, other: Self) -> bool {
        self.0 > other.0
    }

    fn exceeds_spec(self, other: Self) -> bool {
        self.exceeds(other)
    }

    fn at_least(self, other: Self) -> bool {
        self.0 >= other.0
    }

    fn at_least_spec(self, other: Self) -> bool {
        self.at_least(other)
    }

    fn same(self, other: Self) -> bool {
        self.0 == other.0
    }

    fn same_spec(self, other: Self) -> bool {
        self.same(other)
    }

    fn is_finite(self) -> bool {
        self.0.is_finite()
    }

    fn is_finite_spec(self) -> bool {
        self.is_finite()
    }

    fn is_infinite(self) -> bool {
        self.0.is_infinite()
    }

    fn is_infinite_spec(self) -> bool {
        self.is_infinite()
    }

    fn round_u32(self) -> u32 {
        self.0.round() as u32
    }

    fn round_u32_spec(self) -> u32 {
        self.round_u32()
    }

    fn ceil_u32(self) -> u32 {
        self.0.ceil() as u32
    }

    fn ceil_u32_spec(self) -> u32 {
        self.ceil_u32()
    }

    fn root(self, degree: u8) -> Self {
        Wide(self.0.powf(1.0 / degree as f64))
    }

    fn root_spec(self, degree: u8) -> Self {
        self.root(degree)
    }

    fn power(self, exponent: Self) -> Self {
        Wide(self.0.powf(exponent.0))
    }

    fn power_spec(self, exponent: Self) -> Self {
        self.power(exponent)
    }

    fn ln(self) -> Self {
        Wide(self.0.ln())
    }

    fn ln_spec(self) -> Self {
        self.ln()
    }

    fn log_ratio(left: u32, right: u32) -> Self {
        Wide((left as f64 / right as f64).ln().abs())
    }

    fn log_ratio_spec(left: u32, right: u32) -> Self {
        Self::log_ratio(left, right)
    }

    fn bits(self) -> u64 {
        self.0.to_bits() as u64
    }

    fn bits_spec(self) -> u64 {
        self.bits()
    }

    fn place(self) -> u64 {
        let bits = self.0.to_bits();
        if bits >> 63 == 1 { !bits } else { bits | 0x8000_0000_0000_0000 }
    }

    fn place_spec(self) -> u64 {
        self.place()
    }

    fn one_is_positive() {}

    fn bits_tell_apart(_: Self, _: Self) {}
}

fn parsed(text: &str) -> Result<RangeSpec<Single>, String> {
    RangeSpec::from_str(text, |word| Single(word.parse().unwrap_or(f32::NAN)))
}

fn range(text: &str) -> RangeSpec<Single> {
    parsed(text).unwrap()
}

fn card(text: &str) -> Card {
    Card::parse(text).unwrap()
}

fn board(text: &str) -> Board {
    Board::parse(text).unwrap()
}

fn singles(values: &[f32]) -> Vec<Single> {
    values.iter().map(|value| Single(*value)).collect()
}

fn full_spot(text: &str, pot: u32, effective_stack: u32) -> Spot<Single> {
    Spot {
        board: board(text),
        pot,
        effective_stack,
        oop_range: RangeSpec::full_deck_uniform(),
        ip_range: RangeSpec::full_deck_uniform(),
        first_player: Player::Oop,
    }
}

fn default_spot() -> Spot<Single> {
    full_spot("As7h2c", 650, 9700)
}

fn template(
    action_abstraction: ActionAbstraction<Single>,
    chance_expansion: ChanceExpansion,
) -> TreeTemplate<Single> {
    TreeTemplate { action_abstraction, chance_expansion }
}

fn built(template: TreeTemplate<Single>, spot: Spot<Single>) -> PublicTree {
    TreeBuilder::new(template).unwrap().build(spot).unwrap()
}

fn basic_tree() -> PublicTree {
    built(
        template(ActionAbstraction::postflop_solver_basic(), ChanceExpansion::TemplateOnly),
        full_spot("Td9d6h", 200, 900),
    )
}

fn decision(tree: &PublicTree, node: usize) -> (Player, &Vec<ActionKind>) {
    match &tree.nodes[node].kind {
        PublicNodeKind::Decision { player, actions } => (*player, actions),
        _ => panic!("node must be a decision"),
    }
}

fn child_of(tree: &PublicTree, node: usize, wanted: ActionKind) -> usize {
    let (_, actions) = decision(tree, node);
    let place = actions.iter().position(|action| *action == wanted).expect("action should be there");
    tree.nodes[node].children[place]
}

#[test]
fn parses_traditional_pair_plus_range() {
    assert_eq!(range("99+").combos().len(), 6 * 6);
}

#[test]
fn parses_traditional_suited_plus_range() {
    assert_eq!(range("A2s+").combos().len(), 12 * 4);
}

#[test]
fn parses_traditional_offsuit_plus_range() {
    assert_eq!(range("ATo+").combos().len(), 4 * 12);
}

#[test]
fn parses_mixed_exact_and_traditional_ranges_with_weights() {
    let range = range("AhAd,99+:0.5,AKs");
    assert_eq!(range.combos().len(), 6 * 6 + 4);
    assert!(range.combos().iter().any(|combo| combo.first == card("9c")
        && combo.second == card("9d")
        && combo.weight == Single(0.5)));
}

#[test]
fn earlier_tokens_keep_weight_when_later_tokens_overlap() {
    let range = range("TT+,88+:0.7");
    assert_eq!(range.combos().len(), 7 * 6);
    assert!(range.combos().iter().any(|combo| combo.first == card("Tc")
        && combo.second == card("Td")
        && combo.weight == Single(1.0)));
    assert!(range.combos().iter().any(|combo| combo.first == card("8c")
        && combo.second == card("8d")
        && combo.weight == Single(0.7)));
}

#[test]
fn texts_and_words_with_weights_give_one_range() {
    let text = "AA:0.5, KQs ,JhTh:0.25";
    assert_eq!(range_tokens(text).len(), 3);
    let weights = singles(&[0.5, 1.0, 0.25]);
    let listed = RangeSpec::from_text(text, &weights).unwrap();
    assert_eq!(listed.combos(), range(text).combos());
    assert_eq!(listed.combos().len(), 6 + 4 + 1);
}

#[test]
fn wrong_tokens_are_named_in_errors() {
    assert_eq!(parsed("AKx").unwrap_err(), "invalid range token \"AKx\"");
    assert_eq!(
        parsed("AAs").unwrap_err(),
        "pocket pair token cannot use suitedness: \"AAs\""
    );
    assert_eq!(
        parsed("KAs").unwrap_err(),
        "range token must list the higher rank first, got \"KAs\""
    );
    assert_eq!(parsed("ZK").unwrap_err(), "invalid range rank in \"ZK\"");
    assert_eq!(parsed("AhAh").unwrap_err(), "range combo repeats card Ah");
    assert_eq!(
        parsed("AhAd:-1").unwrap_err(),
        "range weights must be finite and non-negative"
    );
    assert_eq!(
        parsed("AhAd:much").unwrap_err(),
        "range weights must be finite and non-negative"
    );
    assert_eq!(
        parsed("AhAd: 0.5").unwrap_err(),
        "range weights must be finite and non-negative"
    );
    assert_eq!(parsed("full").unwrap().combos().len(), 1326);
    assert_eq!(parsed(" FULL ").unwrap(), RangeSpec::full_deck_uniform());
    for combo in parsed("KdAs,T9s,22+:0.25,AA").unwrap().combos() {
        assert!(combo.first.index() < combo.second.index());
        assert!(combo.weight.0.is_finite() && combo.weight.0 >= 0.0);
    }
    let tokens = [
        WeightedToken { cards: "AhAd".to_string(), weight: Single(0.5) },
        WeightedToken { cards: "AA".to_string(), weight: Single(1.0) },
    ];
    assert_eq!(RangeSpec::from_tokens(&tokens).unwrap(), parsed("AhAd:0.5,AA").unwrap());
    assert!(is_exact_combo_token("AhAd"));
    assert!(!is_exact_combo_token("AKs+"));
}

#[test]
fn ranges_drop_combos_on_the_board() {
    let live = range("AA,KK").without_board_conflicts(&board("AsKhKd"));
    assert_eq!(live.combos().len(), 3 + 1);
}

#[test]
fn builds_nontrivial_flop_tree_with_chance_nodes() {
    let tree = built(TreeTemplate::conservative_default(), default_spot());
    let stats = tree.stats();
    assert!(stats.decisions > 400, "{stats:?}");
    assert!(stats.chances > 0, "{stats:?}");
    assert!(stats.terminals > stats.decisions, "{stats:?}");
    assert_eq!(stats.nodes, stats.decisions + stats.chances + stats.terminals);
    assert_eq!(stats.nodes, tree.nodes.len());
    for (index, node) in tree.nodes.iter().enumerate() {
        assert!(node.children.iter().all(|child| *child > index));
    }
}

#[test]
fn isomorphic_chance_children_preserve_concrete_card_count() {
    let tree = built(
        template(ActionAbstraction::postflop_solver_basic(), ChanceExpansion::Isomorphic),
        full_spot("AsKsQs", 200, 900),
    );
    let chance = tree
        .nodes
        .iter()
        .find(|node| matches!(node.kind, PublicNodeKind::Chance(_)))
        .expect("tree should contain a turn chance");
    let PublicNodeKind::Chance(chance) = &chance.kind else {
        unreachable!();
    };

    assert_eq!(chance.next_street, Street::Turn);
    assert_eq!(chance.cards.len(), chance.child_multiplicities.len());
    assert_eq!(chance.cards.len(), chance.child_permutation_codes.len());
    assert_eq!(chance.child_multiplicities.iter().sum::<usize>(), 49);
    assert_eq!(
        chance.child_permutation_codes.iter().map(Vec::len).sum::<usize>(),
        49
    );
    assert!(chance.cards.len() < 49);
}

#[test]
fn first_raise_response_has_single_raise_size_plus_call_fold() {
    let tree = built(TreeTemplate::conservative_default(), default_spot());
    let (_, actions) = decision(&tree, 0);
    let bet = actions
        .iter()
        .copied()
        .find(|action| matches!(action, ActionKind::Bet { .. }))
        .expect("root should include a bet");
    let (_, actions) = decision(&tree, child_of(&tree, 0, bet));
    let raises = actions
        .iter()
        .filter(|action| matches!(action, ActionKind::Raise { .. } | ActionKind::AllIn { .. }))
        .count();
    assert_eq!(raises, 1, "{actions:?}");
    assert!(actions.iter().any(|action| matches!(action, ActionKind::Fold)));
    assert!(actions.iter().any(|action| matches!(action, ActionKind::Call { .. })));
}

#[test]
fn postflop_basic_empty_turn_donk_uses_regular_bet_sizes() {
    let tree = basic_tree();
    let after_check = child_of(&tree, 0, ActionKind::Check);
    let response = child_of(&tree, after_check, ActionKind::Bet { amount: 120 });
    let chance = child_of(&tree, response, ActionKind::Call { amount: 120 });
    let turn = *tree.nodes[chance]
        .children
        .first()
        .expect("turn chance should have template child");
    let (_, actions) = decision(&tree, turn);
    assert!(actions.iter().any(|action| matches!(action, ActionKind::Check)));
    assert!(
        actions.iter().any(|action| matches!(action, ActionKind::Bet { .. })),
        "{actions:?}"
    );
}

#[test]
fn postflop_basic_raise_response_keeps_threshold_all_in_after_call_pot() {
    let tree = basic_tree();
    let after_check = child_of(&tree, 0, ActionKind::Check);
    let chance = child_of(&tree, after_check, ActionKind::Check);
    let turn = *tree.nodes[chance]
        .children
        .first()
        .expect("turn chance should have template child");
    let response = child_of(&tree, turn, ActionKind::Bet { amount: 216 });
    let (_, actions) = decision(&tree, response);
    assert!(
        actions.iter().any(|action| matches!(action, ActionKind::Raise { to: 540 })),
        "{actions:?}"
    );
    assert!(
        actions.iter().any(|action| matches!(action, ActionKind::AllIn { to: 900 })),
        "{actions:?}"
    );
}

#[test]
fn all_in_open_keeps_opponent_response() {
    let tree = basic_tree();
    let response = child_of(&tree, 0, ActionKind::AllIn { to: 900 });
    let (player, actions) = decision(&tree, response);
    assert_eq!(player, Player::Ip);
    assert!(actions.iter().any(|action| matches!(action, ActionKind::Fold)));
    assert!(actions.iter().any(|action| matches!(action, ActionKind::Call { amount: 900 })));
}

#[test]
fn all_in_call_terminal_keeps_called_pot_and_commits() {
    let tree = basic_tree();
    let response = child_of(&tree, 0, ActionKind::AllIn { to: 900 });
    let terminal = &tree.nodes[child_of(&tree, response, ActionKind::Call { amount: 900 })];
    assert!(matches!(
        terminal.kind,
        PublicNodeKind::Terminal { reason: TerminalReason::AllIn }
    ));
    assert_eq!(terminal.state.pot, 2000);
    assert_eq!(terminal.state.oop_stack, 0);
    assert_eq!(terminal.state.ip_stack, 0);
    assert_eq!(terminal.state.oop_street_commit, 900);
    assert_eq!(terminal.state.ip_street_commit, 900);
}

#[test]
fn no_node_of_a_tree_makes_or_loses_chips() {
    for node in &basic_tree().nodes {
        let state = &node.state;
        assert_eq!(state.pot + state.oop_stack + state.ip_stack, 200 + 2 * 900);
        assert!((3..=5).contains(&state.board.len()));
    }
}

#[test]
fn trees_refuse_what_cannot_be_built() {
    let builder = TreeBuilder::new(TreeTemplate::<Single>::conservative_default()).unwrap();
    assert_eq!(
        builder.build(full_spot("As7h2cTd", 650, 9700)).unwrap_err(),
        TreeBuildError::BoardMustStartOnFlop
    );
    assert_eq!(
        builder.build(full_spot("As7h2c", 650, 0)).unwrap_err(),
        TreeBuildError::InvalidStack
    );
    let mut wrong = TreeTemplate::<Single>::conservative_default();
    wrong.action_abstraction.raise.raise_multiplier = Single(1.0);
    assert_eq!(TreeBuilder::new(wrong).unwrap_err(), TreeBuildError::InvalidSizing);
}

#[test]
fn default_flop_plan_is_dominated_by_river_storage() {
    let tree = built(TreeTemplate::conservative_default(), default_spot());
    let plan = plan_cfr_work(&tree, CfrStorageConfig::default());
    assert_eq!(plan.street[street_index(Street::Flop)].decisions, 14);
    assert_eq!(plan.street[street_index(Street::Turn)].decisions, 130);
    assert_eq!(plan.street[street_index(Street::River)].decisions, 665);
    assert!(plan.street[street_index(Street::River)].action_slots > plan.total_action_slots / 2);
    assert!(plan.terminals.fold_terminals > 0);
    assert!(plan.terminals.showdown_terminals > 0);
    assert!(plan.terminals.all_in_terminals > 0);
    let naive_all_terminal_pairs = tree.stats().terminals as u128
        * public_board_multiplicity(Street::River)
        * private_pair_count(Street::River);
    assert!(plan.terminals.terminal_private_pair_upper_bound < naive_all_terminal_pairs);
}

#[test]
fn parallel_cfr_plan_reports_tree_storage_and_parallel_cuts() {
    let oop_range = range("AcAd,KcKd");
    let ip_range = range("QcQd,JcJd");
    let tree = built(
        template(ActionAbstraction::postflop_solver_basic(), ChanceExpansion::Enumerate),
        Spot {
            board: board("As7h2c"),
            pot: 200,
            effective_stack: 900,
            oop_range: oop_range.clone(),
            ip_range: ip_range.clone(),
            first_player: Player::Oop,
        },
    );
    let solver = ParallelCfrSolver::new(&tree, &oop_range, &ip_range).unwrap();
    let report = solver.storage_report();
    assert!(report.nodes > 0);
    assert!(report.decision_nodes > 0);
    assert!(report.action_slots > 0);
    assert_eq!(report.strategy_slots, report.regret_slots);
    assert!(report.parallel_cut_nodes > 0);
    assert!(report.max_parallel_fanout > 1);
    for (start, end) in solver.parallel_cut_subtree_postorder_ranges() {
        assert!(start < end && end <= solver.node_count());
    }
}

#[test]
fn accumulator_strength_matches_slow_best_of_seven_for_terminal_board() {
    let board = board("As7h2c2d2h");
    let combos = live_combos(&board).unwrap();
    let fast = combo_strengths(&board, &combos);
    for (index, combo) in combos.iter().enumerate() {
        let cards = [
            combo.first,
            combo.second,
            board.card(0),
            board.card(1),
            board.card(2),
            board.card(3),
            board.card(4),
        ];
        assert_eq!(fast[index], slow_best_7_card_strength(cards), "combo={combo:?}");
    }
}

fn slow_best_7_card_strength(cards: [Card; 7]) -> u64 {
    let mut best = 0;
    for a in 0..3 {
        for b in a + 1..4 {
            for c in b + 1..5 {
                for d in c + 1..6 {
                    for e in d + 1..7 {
                        best = best.max(slow_rank_5([
                            cards[a], cards[b], cards[c], cards[d], cards[e],
                        ]));
                    }
                }
            }
        }
    }
    best
}

fn slow_rank_5(cards: [Card; 5]) -> u64 {
    let mut counts = [0u8; 13];
    let mut suit_counts = [0u8; 4];
    let mut rank_mask = 0u16;
    let mut suit_masks = [0u16; 4];
    for card in cards {
        let rank = card.rank.index();
        let suit = card.suit.index();
        counts[rank] += 1;
        suit_counts[suit] += 1;
        rank_mask |= 1u16 << rank;
        suit_masks[suit] |= 1u16 << rank;
    }

    let flush_mask = suit_counts
        .iter()
        .position(|count| *count == 5)
        .map(|suit| suit_masks[suit]);
    if let Some(flush_mask) = flush_mask {
        if let Some(high) = straight_high_from_mask(flush_mask) {
            return pack(8, &[high]);
        }
    }

    let mut quads = 0u16;
    let mut trips = 0u16;
    let mut pairs = 0u16;
    for (rank, count) in counts.iter().enumerate() {
        let bit = 1u16 << rank;
        match count {
            4 => quads |= bit,
            3 => trips |= bit,
            2 => pairs |= bit,
            _ => {}
        }
    }

    if quads != 0 {
        return pack(7, &[highest_rank(quads), highest_rank(rank_mask & !quads)]);
    }
    if trips != 0 && pairs != 0 {
        return pack(6, &[highest_rank(trips), highest_rank(pairs)]);
    }
    if let Some(flush_mask) = flush_mask {
        return pack_mask(5, flush_mask, 5);
    }
    if let Some(high) = straight_high_from_mask(rank_mask) {
        return pack(4, &[high]);
    }
    if trips != 0 {
        return pack_masks(3, trips, rank_mask & !trips, 2);
    }
    if pairs.count_ones() == 2 {
        return pack_masks(2, pairs, rank_mask & !pairs, 1);
    }
    if pairs != 0 {
        return pack_masks(1, pairs, rank_mask & !pairs, 3);
    }
    pack_mask(0, rank_mask, 5)
}

fn ranks_desc(mask: u16) -> Vec<u8> {
    (0usize..13).rev().filter(|index| mask & (1u16 << index) != 0).map(|index| index as u8 + 2).collect()
}

fn pack(category: u8, ranks: &[u8]) -> u64 {
    let mut value = category as u64;
    for rank in ranks {
        value = (value << 4) | *rank as u64;
    }
    value << (4 * (5 - ranks.len()))
}

fn pack_mask(category: u8, mask: u16, count: usize) -> u64 {
    let mut ranks = ranks_desc(mask);
    ranks.truncate(count);
    pack(category, &ranks)
}

fn pack_masks(category: u8, primary_mask: u16, kicker_mask: u16, kicker_count: usize) -> u64 {
    let mut ranks = ranks_desc(primary_mask);
    ranks.extend(ranks_desc(kicker_mask).into_iter().take(kicker_count));
    pack(category, &ranks)
}

fn reaches(combos: usize) -> (Vec<Single>, Vec<Single>) {
    (
        (0..combos).map(|index| Single(0.25 + (index % 17) as f32 * 0.03125)).collect(),
        (0..combos).map(|index| Single(0.5 + (index % 23) as f32 * 0.02125)).collect(),
    )
}

#[test]
fn prefix_blocker_matches_bruteforce() {
    let board = board("As7h2c2d2h");
    let combos = live_combos(&board).unwrap();
    let (hero_reach, villain_reach) = reaches(combos.len());
    let input = TerminalCfvInput { board, hero_reach, villain_reach };
    let brute = terminal_cfv_bruteforce(&input).unwrap();
    let fast = terminal_cfv_prefix_blocker(&input).unwrap();
    let max_delta = brute
        .hero_values
        .iter()
        .chain(&brute.villain_values)
        .zip(fast.hero_values.iter().chain(&fast.villain_values))
        .map(|(left, right)| (left.0 - right.0).abs())
        .fold(0.0f32, f32::max);
    assert!(max_delta < 2e-3, "max_delta={max_delta}");
}

#[test]
fn prefix_blocker_into_reuses_scratch_for_repeated_calls() {
    let board = board("As7h2c2d2h");
    let prepared = PreparedTerminalBoard::new(&board).unwrap();
    let (hero_reach, villain_reach) = reaches(prepared.combos().len());
    let mut scratch = TerminalCfvScratch::new(&prepared);

    terminal_cfv_prefix_blocker_into(&prepared, &hero_reach, &villain_reach, &mut scratch).unwrap();
    let expected_hero = scratch.hero_values().to_vec();
    let expected_villain = scratch.villain_values().to_vec();
    let hero_place = scratch.hero_values().as_ptr();
    let villain_place = scratch.villain_values().as_ptr();

    for _ in 0..16 {
        terminal_cfv_prefix_blocker_into(&prepared, &hero_reach, &villain_reach, &mut scratch)
            .unwrap();
        assert_eq!(scratch.hero_values(), expected_hero);
        assert_eq!(scratch.villain_values(), expected_villain);
        assert_eq!(scratch.hero_values().as_ptr(), hero_place);
        assert_eq!(scratch.villain_values().as_ptr(), villain_place);
    }
}

fn flatten_targets(targets: &[Option<usize>]) -> Vec<u16> {
    targets.iter().flatten().map(|target| *target as u16).collect()
}

#[test]
fn prefix_blocker_targets_match_full_values_on_requested_combos() {
    let board = board("As7h2c2d2h");
    let prepared = PreparedTerminalBoard::new(&board).unwrap();
    let combos = prepared.combos().len();
    let (hero_reach, villain_reach) = reaches(combos);
    let hero_targets = (0..32).map(|index| Some((index * 19) % combos)).collect::<Vec<_>>();
    let villain_targets = (0..32).map(|index| Some((index * 31 + 7) % combos)).collect::<Vec<_>>();

    let mut full = TerminalCfvScratch::new(&prepared);
    terminal_cfv_prefix_blocker_into(&prepared, &hero_reach, &villain_reach, &mut full).unwrap();
    let mut subset = TerminalCfvScratch::new(&prepared);
    terminal_cfv_prefix_blocker_targets_into(
        &prepared,
        &hero_reach,
        &villain_reach,
        &hero_targets,
        &villain_targets,
        &mut subset,
    )
    .unwrap();
    let mut board_subset = TerminalCfvScratch::new(&prepared);
    terminal_cfv_prefix_blocker_board_targets_into(
        &prepared,
        &hero_reach,
        &villain_reach,
        &flatten_targets(&hero_targets),
        &flatten_targets(&villain_targets),
        &mut board_subset,
    )
    .unwrap();

    for target in hero_targets.iter().flatten() {
        assert_eq!(subset.hero_values()[*target], full.hero_values()[*target]);
        assert_eq!(board_subset.hero_values()[*target], full.hero_values()[*target]);
    }
    for target in villain_targets.iter().flatten() {
        assert_eq!(subset.villain_values()[*target], full.villain_values()[*target]);
        assert_eq!(board_subset.villain_values()[*target], full.villain_values()[*target]);
    }
}

#[test]
fn sparse_targets_match_full_values_on_requested_combos() {
    let board = board("As7h2c2d2h");
    let prepared = PreparedTerminalBoard::new(&board).unwrap();
    let combos = prepared.combos().len();
    let mut hero_reach = vec![Single(0.0); combos];
    let mut villain_reach = vec![Single(0.0); combos];
    let hero_nonzero = [3u16, 97, 251, 509];
    let villain_nonzero = [11u16, 173, 431];
    for index in hero_nonzero {
        hero_reach[index as usize] = Single(0.25 + index as f32 * 0.001);
    }
    for index in villain_nonzero {
        villain_reach[index as usize] = Single(0.5 + index as f32 * 0.001);
    }
    let hero_targets = (0..32).map(|index| Some((index * 19) % combos)).collect::<Vec<_>>();
    let villain_targets = (0..32).map(|index| Some((index * 31 + 7) % combos)).collect::<Vec<_>>();

    let mut full = TerminalCfvScratch::new(&prepared);
    terminal_cfv_prefix_blocker_into(&prepared, &hero_reach, &villain_reach, &mut full).unwrap();
    let mut sparse = TerminalCfvScratch::new(&prepared);
    terminal_cfv_sparse_targets_into(
        &prepared,
        &hero_reach,
        &villain_reach,
        &hero_nonzero,
        &villain_nonzero,
        &hero_targets,
        &villain_targets,
        &mut sparse,
    )
    .unwrap();
    let mut board_sparse = TerminalCfvScratch::new(&prepared);
    terminal_cfv_sparse_board_targets_into(
        &prepared,
        &hero_reach,
        &villain_reach,
        &hero_nonzero,
        &villain_nonzero,
        &flatten_targets(&hero_targets),
        &flatten_targets(&villain_targets),
        &mut board_sparse,
    )
    .unwrap();

    for target in hero_targets.iter().flatten() {
        let wanted = full.hero_values()[*target].0;
        assert!((sparse.hero_values()[*target].0 - wanted).abs() < 1e-5, "hero target={target}");
        assert!(
            (board_sparse.hero_values()[*target].0 - wanted).abs() < 1e-5,
            "hero target={target}"
        );
    }
    for target in villain_targets.iter().flatten() {
        let wanted = full.villain_values()[*target].0;
        assert!(
            (sparse.villain_values()[*target].0 - wanted).abs() < 1e-5,
            "villain target={target}"
        );
        assert!(
            (board_sparse.villain_values()[*target].0 - wanted).abs() < 1e-5,
            "villain target={target}"
        );
    }
}

#[test]
fn wrong_lengths_are_refused() {
    let prepared = PreparedTerminalBoard::new(&board("As7h2c2d2h")).unwrap();
    let mut scratch: TerminalCfvScratch<Single> = TerminalCfvScratch::new(&prepared);
    assert!(terminal_cfv_prefix_blocker_into(&prepared, &[], &[], &mut scratch).is_err());
    assert!(PreparedTerminalBoard::new(&board("As7h2c")).is_err());
    assert_eq!(
        live_combos(&board("As7h2c")).unwrap_err(),
        "terminal CFV requires a five-card board"
    );
}

#[test]
fn parallel_smoke_generates_river_boards_and_calls_cfv() {
    let smoke = PreparedTerminalCfvSmoke::new(&board("As7h2c")).unwrap();
    assert_eq!(smoke.board_count(), 1176);
    let mut checksum = 0.0f64;
    for call in 0..64 {
        let prepared = &smoke.prepared[call % smoke.board_count()];
        let (hero_reach, villain_reach) = reaches(prepared.combos().len());
        let mut scratch = TerminalCfvScratch::new(prepared);
        terminal_cfv_prefix_blocker_into(prepared, &hero_reach, &villain_reach, &mut scratch)
            .unwrap();
        checksum += scratch.hero_values().iter().map(|value| value.0 as f64).sum::<f64>();
    }
    assert!(checksum.is_finite());
}

#[test]
fn batch_smoke_matches_scalar_prefix_for_flop_input() {
    let terminal = first_terminal_board(&board("As7h2c")).unwrap();
    let prepared = PreparedTerminalBoard::new(&terminal).unwrap();
    let columns = 8;
    let batch_width = 4;
    let (heroes, villains): (Vec<Vec<Single>>, Vec<Vec<Single>>) =
        trial_columns(prepared.combos().len(), columns);
    assert_eq!(heroes.len(), 8);
    let parts = batch_ranges(columns, batch_width);
    assert_eq!(parts, vec![(0, 4), (4, 8)]);
    let mut max_delta = 0.0f32;
    for (start, end) in parts {
        let hero_part = heroes[start..end].to_vec();
        let villain_part = villains[start..end].to_vec();
        let (hero_values, villain_values) =
            terminal_cfv_prefix_blocker_columns(&prepared, &hero_part, &villain_part);
        for column in 0..end - start {
            let mut scratch = TerminalCfvScratch::new(&prepared);
            terminal_cfv_prefix_blocker_into(
                &prepared,
                &hero_part[column],
                &villain_part[column],
                &mut scratch,
            )
            .unwrap();
            for hand in 0..prepared.combos().len() {
                let hero = (hero_values[column][hand].0 - scratch.hero_values()[hand].0).abs();
                let villain =
                    (villain_values[column][hand].0 - scratch.villain_values()[hand].0).abs();
                max_delta = max_delta.max(hero).max(villain);
            }
        }
    }
    assert!(max_delta < 1e-4, "max_delta={max_delta}");
}

fn tiny_checkdown_abstraction() -> ActionAbstraction<Single> {
    let street = || StreetTemplate { first_bet_sizes: Vec::new(), donk_bet_sizes: Vec::new() };
    ActionAbstraction {
        min_bet: 2,
        flop: street(),
        turn: street(),
        river: street(),
        raise: RaisePolicy {
            raise_multiplier: Single(2.0),
            raise_sizes: Vec::new(),
            max_raises_per_street: 0,
            shove_spr_threshold: Single(0.0),
            shove_commit_fraction: Single(1.0),
            add_all_in_threshold: Single(0.0),
            force_all_in_threshold: Single(1.0),
            merging_threshold: Single(0.0),
        },
    }
}

fn node_solver() -> NodeLocalCfrSolver<Single> {
    let oop_range = range("AcAd,KcKd");
    let ip_range = range("QcQd,JcJd");
    let tree = built(
        template(tiny_checkdown_abstraction(), ChanceExpansion::Enumerate),
        Spot {
            board: board("As7h2c"),
            pot: 200,
            effective_stack: 900,
            oop_range: oop_range.clone(),
            ip_range: ip_range.clone(),
            first_player: Player::Oop,
        },
    );
    NodeLocalCfrSolver::new(tree, oop_range, ip_range, 512).unwrap()
}

fn one_iteration() -> RealCfrConfig<Single> {
    RealCfrConfig {
        iterations: 1,
        variant: RealCfrVariant::CfrPlus,
        average_strategy: RealCfrAverageStrategy::ReachWeighted,
    }
}

#[test]
fn node_local_cfr_runs_one_iteration_on_small_ranges() {
    let mut solver = node_solver();
    let (summary, progress) = solver.run_with_progress(one_iteration(), false, false).unwrap();
    assert_eq!(summary.iterations, 1);
    assert_eq!(progress.len(), 1);
    assert!(summary.terminal_evals > 0);
    assert!(summary.oop_update_pass_value.0.is_finite());
    assert!(summary.ip_update_pass_value.0.is_finite());
}

#[test]
fn finished_hands_are_counted_only_if_asked_for() {
    let mut solver = node_solver();
    let (summary, _) = solver.run_with_progress(one_iteration(), false, false).unwrap();
    assert_eq!(summary.calls, NodeLocalCalls::none());
    let (summary, _) = solver.run_with_progress(one_iteration(), false, true).unwrap();
    let calls = summary.calls;
    assert!(calls.terminal_calls > 0);
    assert_eq!(calls.fold_calls, 0);
    assert_eq!(calls.allin_calls, 0);
    assert_eq!(calls.showdown_calls, calls.terminal_calls);
    assert_eq!(calls.showdown_only_calls, calls.showdown_calls);
    let two = RealCfrConfig { iterations: 2, ..one_iteration() };
    let (summary, _) = solver.run_with_progress(two, false, true).unwrap();
    assert_eq!(summary.calls.terminal_calls, 2 * calls.terminal_calls);
}

#[test]
fn tables_are_measured_in_gibibytes() {
    let solver = tiny_solver(true);
    let numbers = (solver.regret_len() + solver.strategy_sum_len()) as f64;
    assert_eq!(solver.storage_gib::<Wide>(), Wide(numbers * 4.0 / 1_073_741_824.0));
    let solver = node_solver();
    let slots = solver.setup.action_slots as f64;
    assert_eq!(solver.storage_gib::<Wide>(), Wide(slots * 2.0 * 4.0 / 1_073_741_824.0));
}

#[test]
fn states_are_numbered_as_a_walk_meets_them() {
    let solver = tiny_solver(true);
    let setup = &solver.setup;
    let states = collect_states(&setup.tree, &setup.oop_range, &setup.ip_range, false);
    let mut met = vec![false; states.len()];
    let mut next = 0;
    let mut open = vec![0];
    while let Some(state) = open.pop() {
        if met[state] {
            continue;
        }
        assert_eq!(state, next);
        met[state] = true;
        next += 1;
        open.extend(states[state].children.iter().rev());
    }
    assert_eq!(next, states.len());
}

#[test]
fn node_local_exploitability_runs_on_small_ranges() {
    let mut solver = node_solver();
    solver.run_with_progress(one_iteration(), false, false).unwrap();
    let exploitability = solver.exploitability(false).unwrap();
    assert!(exploitability.profile_oop_value.0.is_finite());
    assert!(exploitability.profile_ip_value.0.is_finite());
    assert!(exploitability.exploitability_bb_per_100.0.is_finite());
    assert!(exploitability.oop_gain.0 >= 0.0);
    assert!(exploitability.ip_gain.0 >= 0.0);
}

#[test]
fn best_responses_are_worth_at_least_the_profile_and_take_as_many_evaluations() {
    let mut solver = node_solver();
    solver.run_with_progress(one_iteration(), false, false).unwrap();
    let weights: Vec<Single> = vec![Single(1.0); 2];
    let before = solver.solution_snapshot();
    for player in [Player::Oop, Player::Ip] {
        let mut values = TerminalSideValueCache::new();
        let (profile, profile_evals) = solver.setup.evaluate_side(
            0,
            player,
            &weights,
            &solver.tables,
            NodeLocalEvaluationMode::Profile,
            false,
            &mut values,
        );
        let mut values = TerminalSideValueCache::new();
        let (best, best_evals) = solver.setup.evaluate_side(
            0,
            player,
            &weights,
            &solver.tables,
            NodeLocalEvaluationMode::BestResponse,
            false,
            &mut values,
        );
        assert!(profile_evals > 0);
        assert_eq!(profile_evals, best_evals);
        assert_eq!(profile.len(), 2);
        assert!(best.iter().zip(&profile).all(|(best, profile)| best.0 >= profile.0));
    }
    let after = solver.solution_snapshot();
    for (before, after) in before.nodes.iter().zip(&after.nodes) {
        if let (Some(before), Some(after)) = (&before.strategy, &after.strategy) {
            assert_eq!(before.action_major, after.action_major);
        }
    }
}

#[test]
fn a_snapshot_has_a_node_for_each_state() {
    let mut solver = node_solver();
    solver.run_with_progress(one_iteration(), false, false).unwrap();
    let snapshot = solver.solution_snapshot();
    assert_eq!(snapshot.iterations, 1);
    assert_eq!(snapshot.nodes.len(), solver.summary().states);
    assert_eq!(snapshot.oop_combos.len(), 2);
    for node in &snapshot.nodes {
        if let Some(strategy) = &node.strategy {
            assert_eq!(strategy.action_major.len(), strategy.actions * strategy.combos);
        }
    }
}

#[test]
fn node_solvers_start_from_a_flop() {
    let mut tree = built(
        template(tiny_checkdown_abstraction(), ChanceExpansion::TemplateOnly),
        full_spot("As7h2c", 200, 900),
    );
    tree.spot.board = board("As7h2cTd");
    assert_eq!(
        NodeLocalCfrSolver::new(tree, range("AcAd"), range("QcQd"), 512).unwrap_err(),
        "node-local CFR solver must start from a flop board"
    );
}

#[test]
fn river_fast_path_matches_sorted_terminal_path() {
    let prepared = PreparedTerminalBoard::new(&board("As7h2cTd9d")).unwrap();
    let oop_range = range("AcAd,KcKd,QcQd,JcJd,TcTh");
    let ip_range = range("AhKh,QhJh,9c9h,8c8h,7c7d");
    let targets = |range: &RangeSpec<Single>| {
        let indices = prepared_combo_indices(&prepared, range.combos());
        let targets = prepared_combo_targets(&indices, prepared.combos().len());
        sort_combo_targets_by_strength(&prepared, &targets)
    };
    let oop_targets = targets(&oop_range);
    let ip_targets = targets(&ip_range);
    let oop_river_targets = prepared_river_targets(&prepared, &oop_targets);
    let ip_river_targets = prepared_river_targets(&prepared, &ip_targets);
    let reach = |range: &RangeSpec<Single>, start: f32| {
        range
            .combos()
            .iter()
            .enumerate()
            .map(|(index, combo)| Single(combo.weight.0 * (index as f32 + start)))
            .collect::<Vec<_>>()
    };
    let oop_reach = reach(&oop_range, 1.0);
    let ip_reach = reach(&ip_range, 0.5);
    let mut generic_oop = vec![Single(0.0); oop_range.combos().len()];
    let mut fast_oop = vec![Single(0.0); oop_range.combos().len()];
    terminal_side_range_targets_sorted_accumulate(
        &prepared,
        &ip_targets,
        &ip_reach,
        &oop_targets,
        Single(200.0),
        &mut generic_oop,
    );
    terminal_side_river_targets_sorted_accumulate(
        &ip_river_targets,
        &ip_reach,
        &oop_river_targets,
        Single(200.0),
        &mut fast_oop,
    );
    assert_eq!(generic_oop, fast_oop);

    let mut generic_ip = vec![Single(0.0); ip_range.combos().len()];
    let mut fast_ip = vec![Single(0.0); ip_range.combos().len()];
    terminal_side_range_targets_sorted_accumulate(
        &prepared,
        &oop_targets,
        &oop_reach,
        &ip_targets,
        Single(200.0),
        &mut generic_ip,
    );
    terminal_side_river_targets_sorted_accumulate(
        &oop_river_targets,
        &oop_reach,
        &ip_river_targets,
        Single(200.0),
        &mut fast_ip,
    );
    assert_eq!(generic_ip, fast_ip);
    assert!(fast_oop.iter().any(|value| value.0 != 0.0));
}

#[test]
fn real_cfr_allocates_isomorphic_board_indexed_state_on_small_ranges() {
    let oop_range = range("AsAh,KsKh");
    let ip_range = range("QsQh,JsJh");
    let tree = built(
        template(ActionAbstraction::conservative_default(), ChanceExpansion::TemplateOnly),
        Spot {
            board: board("As7h2c"),
            pot: 650,
            effective_stack: 9700,
            oop_range: oop_range.clone(),
            ip_range: ip_range.clone(),
            first_player: Player::Oop,
        },
    );
    let solver = RealCfrSolver::new(tree, oop_range.clone(), ip_range.clone()).unwrap();
    let setup = &solver.setup;
    let turns = next_card_isomorphism(&setup.flop_board, &oop_range, &ip_range).classes;
    let mut events = 0;
    for class in &turns {
        let turn = setup.flop_board.push(class.representative).unwrap();
        events += next_card_isomorphism(&turn, &oop_range, &ip_range).classes.len();
    }
    assert_eq!(setup.turn_index_by_key.len(), turns.len());
    assert_eq!(setup.river_index_by_key.len(), events);
    let action_slots = setup
        .infosets
        .iter()
        .filter_map(Option::as_ref)
        .map(|infoset| infoset.slots_len)
        .sum::<usize>();
    assert_eq!(action_slots, 7_929_144);
    assert_eq!(setup.terminal_cache.len(), 49 * 48 / 2);
    assert_eq!(setup.terminal_cache_index_by_key.len(), 49 * 48 / 2);
}

fn tiny_solver(bets: bool) -> RealCfrSolver<Single> {
    let oop_range = range("AcAd,KcKd:0.5");
    let ip_range = range("QcQd,JcJd");
    let mut abstraction = tiny_checkdown_abstraction();
    if bets {
        abstraction.river.first_bet_sizes = vec![BetSizeSpec::PotFraction(Single(0.5))];
    }
    let tree = built(
        template(abstraction, ChanceExpansion::TemplateOnly),
        Spot {
            board: board("As7h2c"),
            pot: 200,
            effective_stack: 900,
            oop_range: oop_range.clone(),
            ip_range: ip_range.clone(),
            first_player: Player::Oop,
        },
    );
    RealCfrSolver::new(tree, oop_range, ip_range).unwrap()
}

#[test]
fn phases_give_what_the_walk_gives_on_a_tiny_tree() {
    for bets in [false, true] {
        let mut walked = tiny_solver(bets);
        let mut phased = tiny_solver(bets);
        let walk = walked.run(one_iteration()).unwrap();
        let (phase, progress) = phased.run_three_phase(one_iteration(), 4, 32, true).unwrap();
        assert_eq!(walk.terminal_evals, phase.terminal_evals);
        assert!((walk.root_oop_value.0 - phase.root_oop_value.0).abs() < 0.001);
        assert!((walk.root_ip_value.0 - phase.root_ip_value.0).abs() < 0.001);
        assert_eq!(progress.len(), 1);
        assert_eq!(progress[0].root_oop_value, phase.root_oop_value);
        for (left, right) in walked.tables.regrets.iter().zip(&phased.tables.regrets) {
            assert!((left.0 - right.0).abs() < 0.01);
        }
    }
}

#[test]
fn a_node_of_too_many_actions_stops_a_pass_behind_the_deeper_ones() {
    let oop_range = range("AcAd,KcKd");
    let ip_range = range("QcQd,JcJd");
    let mut abstraction = tiny_checkdown_abstraction();
    abstraction.flop.first_bet_sizes = (1..=9)
        .map(|size| BetSizeSpec::PotFraction(Single(size as f32 * 0.1)))
        .collect();
    let tree = built(
        template(abstraction, ChanceExpansion::TemplateOnly),
        Spot {
            board: board("As7h2c"),
            pot: 200,
            effective_stack: 900,
            oop_range: oop_range.clone(),
            ip_range: ip_range.clone(),
            first_player: Player::Oop,
        },
    );
    let mut solver = RealCfrSolver::new(tree, oop_range, ip_range).unwrap();
    let message = solver.run_three_phase(one_iteration(), 1, 32, true).unwrap_err();
    assert_eq!(message, "real CFR backup supports at most 8 actions per node, got 10");
    let infosets = &solver.setup.infosets;
    let root = infosets[0].as_ref().unwrap();
    let width = root.slots_len;
    assert!(solver.tables.regrets[..width].iter().all(|regret| regret.0 == 0.0));
    assert!(solver.tables.regrets[width..].iter().any(|regret| regret.0 != 0.0));
}

#[test]
fn a_walk_comes_to_every_node_on_every_board() {
    let solver = tiny_solver(false);
    let setup = &solver.setup;
    let turns = next_card_isomorphism(&setup.flop_board, &setup.oop_range, &setup.ip_range).classes;
    let mut rivers = 0;
    for class in &turns {
        let turn = setup.flop_board.push(class.representative).unwrap();
        rivers += next_card_isomorphism(&turn, &setup.oop_range, &setup.ip_range).classes.len();
    }
    let walk = setup.count_walk(0, &setup.flop_board);
    assert_eq!(walk.terminal_calls, rivers);
    assert_eq!(walk.showdown_calls, rivers);
    assert_eq!(walk.fold_calls, 0);
    assert_eq!(walk.chance_calls, 1 + turns.len());
    assert_eq!(walk.chance_cards, 49 + 48 * turns.len());
    assert_eq!(walk.decision_calls, 2 * (1 + turns.len() + rivers));
    assert_eq!(walk.values_zero, walk.chance_calls);
    assert_eq!((walk.strategy_builds, walk.reach_scratch_writes), (0, 0));
    let walk = tiny_solver(true).setup.count_walk(0, &setup.flop_board);
    assert_eq!(walk.strategy_builds, 4 * rivers);
    assert_eq!(walk.reach_scratch_writes, 4 * rivers * 2 * 2);
    assert_eq!(walk.fold_calls, 2 * rivers);
    assert_eq!(walk.showdown_calls, 3 * rivers);
    let states = setup.collect_phase_states();
    let (chances, decisions) = setup.count_edges(&states);
    let followed: usize = states.iter().map(|state| state.children.len()).sum();
    assert_eq!(chances + decisions, followed);
    assert!(chances > 0 && decisions > 0);
}

#[test]
fn workers_count_what_they_ask_their_caches_for() {
    let solver = tiny_solver(true);
    let states = solver.setup.collect_phase_states();
    let reaches = solver.setup.forward_reaches(
        &states,
        &solver.tables,
        EvaluationMode::Profile,
        StrategySource::Current,
        true,
    );
    let start = first_terminal_state_index(&states);
    let end = states.len();
    let work = |use_side_cache: bool| {
        solver.setup.terminal_phase_worker(3, &states, &reaches, start, end, 32, use_side_cache)
    };
    let (direct, profile, keys) = work(false);
    assert_eq!(profile.worker_index, 3);
    assert_eq!(profile.output_states, end - start);
    assert_eq!((profile.side_cache_hits, profile.side_cache_misses), (0, 0));
    assert!(keys.is_empty());
    let (cached, profile, keys) = work(true);
    assert_eq!(direct.len(), cached.len());
    assert!(profile.side_cache_hits > 0);
    assert_eq!(profile.side_cache_misses, keys.len());
    let asked = profile.side_cache_hits + profile.side_cache_misses;
    assert!(asked <= 2 * profile.tasks);
    assert!(asked >= profile.tasks - profile.zero_reach_tasks);
    for (index, key) in keys.iter().enumerate() {
        assert!(key.cache_index < solver.setup.terminal_cache.len());
        assert!(!keys[..index].contains(key));
    }
}

#[test]
fn keys_of_several_workers_are_counted() {
    let key = |cache_index: usize, side: Player, reach_hash: u64| TerminalSideCacheKey {
        cache_index,
        side,
        reach_hash,
    };
    let first = key(4, Player::Oop, 7);
    let second = key(4, Player::Ip, 7);
    let third = key(9, Player::Oop, 7);
    let lists = vec![vec![first, second, first], vec![third, first], vec![first], Vec::new()];
    let counted = side_key_statistics(&lists);
    assert_eq!(counted.workers, 4);
    assert_eq!(counted.worker_local_keys, 5);
    assert_eq!(counted.unique_keys, 3);
    assert_eq!(counted.cross_worker_keys, 1);
    assert_eq!(counted.cross_worker_extra_touches, 2);
    assert_eq!(counted.max_workers_for_key, 3);
    assert_eq!(counted.top_boards, vec![(4, 2), (9, 1)]);
    let many: Vec<TerminalSideCacheKey> = (0..20).map(|n| key(n, Player::Ip, 1)).collect();
    let counted = side_key_statistics(&vec![many]);
    assert_eq!(counted.top_boards.len(), 8);
    assert_eq!(counted.top_boards[7], (7, 1));
    assert_eq!(side_key_statistics(&Vec::new()).max_workers_for_key, 0);
}

#[test]
fn the_number_of_workers_and_the_cache_change_nothing() {
    let mut alone = tiny_solver(true);
    let mut shared = tiny_solver(true);
    let config = RealCfrConfig { iterations: 2, ..one_iteration() };
    let (one, _) = alone.run_three_phase(config, 1, 32, false).unwrap();
    let (many, _) = shared.run_three_phase(config, 0, 32, false).unwrap();
    assert_eq!(one.root_oop_value, many.root_oop_value);
    assert_eq!(one.root_ip_value, many.root_ip_value);
    assert_eq!(alone.tables.regrets, shared.tables.regrets);
    assert_eq!(alone.tables.strategy_sum, shared.tables.strategy_sum);
    let mut cached = tiny_solver(true);
    let (kept, _) = cached.run_three_phase(config, 4, 32, true).unwrap();
    assert_eq!(one.terminal_evals, kept.terminal_evals);
    assert!((one.root_oop_value.0 - kept.root_oop_value.0).abs() < 0.001);
    assert!((one.root_ip_value.0 - kept.root_ip_value.0).abs() < 0.001);
    assert_eq!(
        alone.exploitability(1, 32, false).unwrap().nash_conv_chips,
        shared.exploitability(0, 32, false).unwrap().nash_conv_chips
    );
}

#[test]
fn reports_count_the_boards_of_a_tiny_tree() {
    let solver = tiny_solver(false);
    let breakdown = solver.terminal_eval_breakdown().unwrap();
    assert_eq!(breakdown.fold_terminals, 0);
    assert_eq!(breakdown.all_in_terminals, 0);
    assert_eq!(breakdown.flop_all_in_runout_evals, 0);
    let tasks = solver.setup.collect_terminal_board_tasks();
    assert!(!tasks.is_empty());
    let locality = solver.terminal_board_locality::<Wide>().unwrap();
    assert_eq!(locality.tasks, tasks.len());
    assert!(locality.min_tasks_per_board <= locality.max_tasks_per_board);
    assert!(locality.current_order_runs <= locality.tasks);
    assert_eq!(
        locality.average_tasks_per_board,
        Wide(locality.tasks as f64 / locality.unique_boards as f64)
    );
    assert_eq!(
        locality.board_major_task_bytes,
        tasks.len() * std::mem::size_of::<TerminalBoardTask>()
    );
    let sorted = board_major_tasks(&tasks);
    assert_eq!(sorted.len(), tasks.len());
    assert!(sorted.windows(2).all(|pair| pair[0].cache_index <= pair[1].cache_index));
    let reuse = solver.terminal_board_reuse_report::<Wide>().unwrap();
    assert!(reuse.unique_boards > 0);
    assert!(reuse.min_state_board_pairs_per_board <= reuse.max_state_board_pairs_per_board);
}

#[test]
fn walks_stay_zero_sum_on_a_tiny_tree() {
    let mut solver = tiny_solver(false);
    let summary = solver.run(one_iteration()).unwrap();
    assert!(summary.terminal_evals > 0);
    assert!(summary.root_oop_value.0.is_finite());
    assert!((summary.root_oop_value.0 + summary.root_ip_value.0).abs() < 0.001);
}

fn earned(reach: &[Single], values: &[Single]) -> f32 {
    reach.iter().zip(values).map(|(reach, value)| reach.0 * value.0).sum()
}

#[test]
fn folds_and_showdowns_are_zero_sum() {
    let setup = tiny_solver(true).setup;
    let oop_reach = vec![Single(0.75), Single(0.5)];
    let ip_reach = vec![Single(0.25), Single(1.0)];
    for folding in [Player::Oop, Player::Ip] {
        let values = setup.fold_values(&board("As7h2c"), 200, folding, &oop_reach, &ip_reach);
        let oop = earned(&oop_reach, &values.oop);
        assert_ne!(oop, 0.0);
        assert_eq!(oop > 0.0, folding == Player::Ip);
        assert_eq!(oop + earned(&ip_reach, &values.ip), 0.0);
    }
    let board = board("As7h2c9d3s");
    let count = live_combos(&board).unwrap().len();
    let hero: Vec<Single> = (0..count).map(|i| Single((i % 3) as f32)).collect();
    let villain: Vec<Single> = (0..count).map(|i| Single((i % 2) as f32)).collect();
    let input = TerminalCfvInput { board, hero_reach: hero, villain_reach: villain };
    let values = terminal_cfv_prefix_blocker(&input).unwrap();
    let won = earned(&input.hero_reach, &values.hero_values);
    assert_ne!(won, 0.0);
    assert_eq!(won + earned(&input.villain_reach, &values.villain_values), 0.0);
}

#[test]
fn hands_can_be_held_on_as_many_boards_to_come() {
    let setup = tiny_solver(false).setup;
    assert_eq!(setup.terminal_cache.len(), 1176);
    for hand in 0..2 {
        let oop = setup.terminal_cache.iter().filter(|cache| cache.oop_combo_indices[hand].is_some());
        let ip = setup.terminal_cache.iter().filter(|cache| cache.ip_combo_indices[hand].is_some());
        assert_eq!(oop.count(), 1081);
        assert_eq!(ip.count(), 1081);
    }
}

fn phase_state(node_id: usize, children: Vec<usize>, refs: usize) -> PhaseState {
    PhaseState {
        node_id,
        board: board("As7h2c"),
        board_slot: 0,
        children,
        chance_member_permutation_codes: Vec::new(),
        chance_concrete_events: 0,
        terminal_cache_indices: (0..refs).collect(),
        terminal_cache_refs: (0..refs)
            .map(|cache_index| TerminalCacheRef {
                cache_index,
                member_permutation_codes: vec![SuitPermutation::identity().code()],
            })
            .collect(),
    }
}

#[test]
fn terminal_phase_partitions_cover_terminal_suffix_and_balance_weights() {
    let states = vec![
        phase_state(0, vec![1], 0),
        phase_state(1, Vec::new(), 1),
        phase_state(2, Vec::new(), 3),
        phase_state(3, Vec::new(), 2),
    ];

    let partitions = terminal_phase_partitions(&states, 1, 2);

    assert_eq!(partitions.first().map(|partition| partition.0), Some(1));
    assert_eq!(partitions.last().map(|partition| partition.1), Some(states.len()));
    for window in partitions.windows(2) {
        assert_eq!(window[0].1, window[1].0);
    }
    let weights = partitions
        .iter()
        .map(|(start, end)| {
            states[*start..*end].iter().map(terminal_phase_state_weight).sum::<usize>()
        })
        .collect::<Vec<_>>();
    assert_eq!(weights.iter().sum::<usize>(), 6);
    assert!(weights.iter().all(|weight| *weight <= 4), "{weights:?}");
}

#[test]
fn fast_opponent_weights_match_pairwise_fold_weights() {
    let board = board("As7h2c");
    let own = range("AhAd,KsKh,QcQd,8s8h").combos().to_vec();
    let opponent = range("AhAd,AcKd,KsKh,QhQs,8s8h,5c4c").combos().to_vec();
    let opponent_reach = singles(&[0.7, 0.0, 0.25, 1.0, 0.5, 0.125]);
    let same = same_combo_indices(&own, &opponent);
    let slow = opponent_weights_for(&own, &opponent, &opponent_reach, &board);
    let fast = opponent_weights_for_fast(&own, &opponent, &opponent_reach, &same, &board);

    assert_eq!(slow.len(), fast.len());
    for (index, (slow, fast)) in slow.iter().zip(&fast).enumerate() {
        assert!((slow.0 - fast.0).abs() < 1e-6, "index={index} slow={slow:?} fast={fast:?}");
    }
}

#[test]
fn symmetries_of_a_board_share_classes() {
    let full: RangeSpec<Single> = RangeSpec::full_deck_uniform();
    assert_eq!(all_suit_permutations().len(), 24);
    let mono = next_card_isomorphism(&board("AsKsQs"), &full, &full);
    assert_eq!(mono.concrete_events, 49);
    assert_eq!(mono.classes.iter().map(|class| class.multiplicity()).sum::<usize>(), 49);
    assert_eq!(mono.classes.len(), 10 + 13);
}

fn builder() -> ActionSetBuilder<Single> {
    ActionSetBuilder::new(ActionSetConfig::default())
}

fn action_request(
    street: Street,
    pot: u32,
    stack: u32,
    to_call: u32,
    min_aggressive_amount: u32,
    observed_aggressive_amounts: Vec<u32>,
) -> ActionSetRequest {
    ActionSetRequest {
        street,
        pot,
        stack,
        to_call,
        min_aggressive_amount,
        observed_aggressive_amounts,
    }
}

#[test]
fn check_spot_includes_standard_bets_without_forced_all_in() {
    let actions = builder().build(&action_request(Street::Flop, 100, 500, 0, 10, vec![]));

    assert_eq!(actions[0].action, PlayerAction::Check);
    assert!(actions.iter().any(|candidate| candidate.action == PlayerAction::Bet { amount: 33 }));
    assert!(actions.iter().any(|candidate| candidate.action == PlayerAction::Bet { amount: 75 }));
    assert!(!actions
        .iter()
        .any(|candidate| matches!(candidate.action, PlayerAction::AllIn { .. })));
}

#[test]
fn observed_sizing_replaces_near_standard_sizing() {
    let actions = builder().build(&action_request(Street::Turn, 100, 500, 0, 10, vec![55]));

    assert!(actions.iter().any(|candidate| candidate.action == PlayerAction::Bet { amount: 55 }
        && candidate.source == SizingSource::Observed));
    assert!(!actions.iter().any(|candidate| candidate.action == PlayerAction::Bet { amount: 50 }));
}

#[test]
fn facing_bet_keeps_fold_call_observed_raise_and_all_in() {
    let actions = builder().build(&action_request(Street::River, 180, 420, 80, 200, vec![260]));

    assert!(actions.iter().any(|candidate| candidate.action == PlayerAction::Fold));
    assert!(actions.iter().any(|candidate| candidate.action == PlayerAction::Call { amount: 80 }));
    assert!(actions.iter().any(|candidate| candidate.action == PlayerAction::Raise { amount: 260 }
        && candidate.source == SizingSource::Observed));
    assert!(actions.iter().any(|candidate| candidate.action == PlayerAction::AllIn { amount: 420 }));
}

#[test]
fn aggressive_action_cap_preserves_observed_without_forced_check_spot_all_in() {
    let config = ActionSetConfig { max_aggressive_actions: 2, ..ActionSetConfig::<Single>::default() };
    let actions = ActionSetBuilder::new(config)
        .build(&action_request(Street::River, 100, 1000, 0, 10, vec![220]));

    let aggressive: Vec<_> = actions
        .iter()
        .filter(|candidate| !matches!(candidate.action, PlayerAction::Check))
        .collect();
    assert_eq!(aggressive.len(), 2);
    assert!(aggressive
        .iter()
        .any(|candidate| candidate.action == PlayerAction::Bet { amount: 220 }));
    assert!(!aggressive
        .iter()
        .any(|candidate| matches!(candidate.action, PlayerAction::AllIn { .. })));
    assert!(aggressive.iter().any(|candidate| candidate.source == SizingSource::Standard));
    assert!(aggressive.iter().all(|candidate| is_aggressive_action(candidate.action)));
}

fn root_state(street: Street) -> BetState {
    BetState {
        street,
        board: board("As7h2c"),
        pot: 100,
        hero_invested: 50,
        villain_invested: 50,
        effective_stack: 300,
        to_call: 0,
        min_aggressive_amount: 50,
        acting_player: Seat::Hero,
        raises_this_street: 0,
        checks_this_street: 0,
    }
}

fn compact_tree_config() -> SubgameTreeConfig<Single> {
    SubgameTreeConfig {
        action_set: ActionSetConfig {
            max_aggressive_actions: 2,
            flop_bet_fractions: singles(&[0.5]),
            turn_bet_fractions: singles(&[0.5]),
            river_bet_fractions: singles(&[0.5]),
            raise_fractions: singles(&[1.0]),
            ..ActionSetConfig::default()
        },
        max_raises_per_street: 1,
    }
}

#[test]
fn nodes_of_a_subgame_tree_hang_together() {
    for street in [Street::Flop, Street::River] {
        let tree = SubgameTree::build(root_state(street), compact_tree_config());
        assert_eq!(tree.nodes[0].parent, None);
        for (index, node) in tree.nodes.iter().enumerate() {
            if index > 0 {
                let parent = node.parent.unwrap();
                assert!(parent < index);
                let children = &tree.nodes[parent].children;
                assert_eq!(children.iter().filter(|&&child| child == index).count(), 1);
            }
            for &child in &node.children {
                assert_eq!(tree.nodes[child].parent, Some(index));
            }
            match &node.kind {
                BetNodeKind::Decision { actions, .. } => {
                    assert_eq!(node.children.len(), actions.len());
                }
                BetNodeKind::Chance { cards, board, .. } => {
                    assert_eq!(node.children.len(), cards.len());
                    assert!(cards.iter().all(|card| !board.cards().contains(card)));
                }
                BetNodeKind::Terminal { .. } => assert!(node.children.is_empty()),
            }
        }
    }
}

#[test]
fn subgame_tree_builds_finite_public_nodes() {
    let tree = SubgameTree::build(root_state(Street::Flop), compact_tree_config());

    assert!(!tree.nodes().is_empty());
    assert!(tree.decision_count() > 0);
    assert!(tree.chance_count() > 0);
    assert!(tree.terminal_count() > 0);
    assert!(tree.nodes().len() < 500_000);
    assert_eq!(
        tree.decision_count() + tree.chance_count() + tree.terminal_count(),
        tree.nodes().len()
    );
}

#[test]
fn check_then_check_advances_to_turn_chance() {
    let tree = SubgameTree::build(root_state(Street::Flop), compact_tree_config());

    let root_check = tree.nodes()[0].children[0];
    let BetNodeKind::Decision { state: checked_state, .. } = &tree.nodes()[root_check].kind else {
        panic!("first check should keep action on the flop");
    };
    assert_eq!(checked_state.street, Street::Flop);
    assert_eq!(checked_state.checks_this_street, 1);

    let second_check = tree.nodes()[root_check].children[0];
    let BetNodeKind::Chance { street, cards, .. } = &tree.nodes()[second_check].kind else {
        panic!("second check should advance through chance");
    };
    assert_eq!(*street, Street::Turn);
    assert_eq!(cards.len(), 49);
}

#[test]
fn bet_call_advances_to_turn_chance() {
    let tree = SubgameTree::build(root_state(Street::Flop), compact_tree_config());
    let root = &tree.nodes()[0];

    let facing_bet = root
        .children
        .iter()
        .copied()
        .find(|&child| {
            matches!(
                &tree.nodes()[child].kind,
                BetNodeKind::Decision { state, .. } if state.to_call > 0
            )
        })
        .expect("root should contain at least one bet branch");

    let call_child = tree.nodes()[facing_bet]
        .children
        .iter()
        .copied()
        .find(|&child| matches!(tree.nodes()[child].kind, BetNodeKind::Chance { .. }))
        .expect("call should advance through chance");

    let BetNodeKind::Chance { street, cards, .. } = &tree.nodes()[call_child].kind else {
        unreachable!();
    };
    assert_eq!(*street, Street::Turn);
    assert_eq!(cards.len(), 49);
}

#[test]
fn large_bet_keeps_next_actor_able_to_call() {
    let state = BetState { effective_stack: 100, ..root_state(Street::Flop) };
    let next = state_after_aggressive_action(&state, 75);

    assert_eq!(next.to_call, 75);
    assert_eq!(next.effective_stack, 100);
}

#[test]
fn raise_to_call_is_investment_difference() {
    let state = BetState {
        hero_invested: 125,
        villain_invested: 50,
        to_call: 75,
        acting_player: Seat::Villain,
        ..root_state(Street::Flop)
    };
    let next = state_after_aggressive_action(&state, 175);

    assert_eq!(next.villain_invested, 225);
    assert_eq!(next.to_call, 100);
}

#[test]
fn river_check_check_ends_at_showdown() {
    let tree = SubgameTree::build(root_state(Street::River), compact_tree_config());

    let root_check = tree.nodes()[0].children[0];
    let second_check = tree.nodes()[root_check].children[0];
    let BetNodeKind::Terminal { kind, .. } = tree.nodes()[second_check].kind else {
        panic!("river check-check should finish the public tree");
    };
    assert_eq!(kind, TerminalKind::Showdown);
}

#[test]
fn flop_tree_reaches_river_decisions() {
    let tree = SubgameTree::build(root_state(Street::Flop), compact_tree_config());

    let river_decisions = tree
        .nodes()
        .iter()
        .filter(|node| {
            matches!(
                &node.kind,
                BetNodeKind::Decision { state, .. } if state.street == Street::River
            )
        })
        .count();

    assert!(river_decisions > 0);
}

#[test]
fn layout_maps_public_decisions_to_dense_infosets() {
    let tree = SubgameTree::build(root_state(Street::Flop), compact_tree_config());
    let layout = PostflopDenseLayout::from_tree(&tree);

    assert_eq!(layout.infoset_count(), tree.decision_count());
    assert!(layout.max_actions() >= 2);
    assert_eq!(layout.legal_actions().len(), layout.infoset_count() * layout.max_actions());
    let config = layout.dense_config(CfrVariant::CfrPlus);
    assert_eq!(config.infosets, tree.decision_count());
    assert_eq!(config.actions, layout.max_actions());
    assert_eq!(config.variant, CfrVariant::CfrPlus);
    for infoset in 0..layout.infoset_count() {
        let node = &tree.nodes()[layout.infoset_node(infoset)];
        let BetNodeKind::Decision { actions, .. } = &node.kind else {
            panic!("infoset should point at a decision");
        };
        assert_eq!(layout.action_count(infoset), actions.len());
        assert_eq!(layout.node_infoset(layout.infoset_node(infoset)), Some(infoset));
        for action in 0..layout.action_count(infoset) {
            assert_eq!(layout.child_for_action(infoset, action), Some(node.children[action]));
            assert!(layout.action(&tree, infoset, action).is_some());
        }
        for action in layout.action_count(infoset)..layout.max_actions() {
            assert_eq!(layout.child_for_action(infoset, action), None);
            assert!(layout.action(&tree, infoset, action).is_none());
        }
    }
}
