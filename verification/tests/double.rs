//! Rivers, short stacks and subgames in double precision.
use pokedr_core::blinds::BlindLevel;
use pokedr_core::cards::{Card, Rank, Suit};
use pokedr_core::checksums::{call_checksum, columns_checksum, output_checksum, task_checksum};
use pokedr_core::hand_class::{all_hand_classes, combo_class, HandClass};
use pokedr_core::parallel::{effective_worker_count, task_chunks, worker_count, workers_within};
use pokedr_core::real_terminal::TerminalWorkerProfile;
use pokedr_core::river::{river_blocker_reports, river_combos, Combo, RiverRole};
use pokedr_core::river_cfr::{solve_river_check_bet, RiverCfrConfig};
use pokedr_core::scalar::Scalar;
use pokedr_core::seat_analysis::{analyze_seats, short_stack_report, SeatAnalysis};
use pokedr_core::short_stack::{
    combo_fraction, heuristic_strength, posted_amount, profitable_call_range,
    profitable_shove_results, sample_range, survival_required_equity, top_fraction_by_heuristic,
    SeatRanges, ShortStackConfig,
};
use pokedr_core::structure::{blind_pressure, orbit_cost, STARTING_STACK};
use pokedr_core::subgame::{
    uniform_range, weighted_range, ActionAbstraction, BetSize, ChancePolicy, Player, PotState,
    RangeState, Sides, Street, SubgameBuildError, SubgameSpec, SubgameValidationError,
};
use pokedr_core::subgame_actions::ActionKind;
use pokedr_core::subgame_cfr::SubgameSolveRequest;
use pokedr_core::subgame_deals::{
    board_mask, deterministic_u64, deterministic_unit, legal_deals, sample_weighted_deal,
    weighted_postflop_combos, PostflopCombo,
};
use pokedr_core::subgame_equity::{combo_equity, sampled_runouts};
use pokedr_core::subgame_nodes::CfrVariant;
use pokedr_core::subgame_solve::{shard_bounds, MultistreetCfrTrainer};
use pokedr_core::subgame_tree::{ActionTree, ActionTreeNode};
use pokedr_core::worker_profile::terminal_profile_totals;

/// Numbers in double precision.
#[derive(Clone, Copy, Debug, PartialEq)]
struct Double(f64);

impl Scalar for Double {
    fn zero() -> Self {
        Double(0.0)
    }

    fn zero_spec() -> Self {
        Self::zero()
    }

    fn one() -> Self {
        Double(1.0)
    }

    fn one_spec() -> Self {
        Self::one()
    }

    fn from_u32(value: u32) -> Self {
        Double(value as f64)
    }

    fn from_u32_spec(value: u32) -> Self {
        Self::from_u32(value)
    }

    fn from_u64(value: u64) -> Self {
        Double(value as f64)
    }

    fn from_u64_spec(value: u64) -> Self {
        Self::from_u64(value)
    }

    fn from_count(value: usize) -> Self {
        Double(value as f64)
    }

    fn from_count_spec(value: usize) -> Self {
        Self::from_count(value)
    }

    fn infinity() -> Self {
        Double(f64::INFINITY)
    }

    fn infinity_spec() -> Self {
        Self::infinity()
    }

    fn plus(self, other: Self) -> Self {
        Double(self.0 + other.0)
    }

    fn plus_spec(self, other: Self) -> Self {
        self.plus(other)
    }

    fn minus(self, other: Self) -> Self {
        Double(self.0 - other.0)
    }

    fn minus_spec(self, other: Self) -> Self {
        self.minus(other)
    }

    fn times(self, other: Self) -> Self {
        Double(self.0 * other.0)
    }

    fn times_spec(self, other: Self) -> Self {
        self.times(other)
    }

    fn over(self, other: Self) -> Self {
        Double(self.0 / other.0)
    }

    fn over_spec(self, other: Self) -> Self {
        self.over(other)
    }

    fn negate(self) -> Self {
        Double(-self.0)
    }

    fn negate_spec(self) -> Self {
        self.negate()
    }

    fn max_of(self, other: Self) -> Self {
        Double(self.0.max(other.0))
    }

    fn max_spec(self, other: Self) -> Self {
        self.max_of(other)
    }

    fn min_of(self, other: Self) -> Self {
        Double(self.0.min(other.0))
    }

    fn min_spec(self, other: Self) -> Self {
        self.min_of(other)
    }

    fn exceeds(self, other: Self) -> bool {
        self.0 > other.0
    }

    fn exceeds_spec(self, other: Self) -> bool {
        self.exceeds(other)
    }

    fn at_least(self, other: Self) -> bool {
        self.0 >= other.0
    }

    fn at_least_spec(self, other: Self) -> bool {
        self.at_least(other)
    }

    fn same(self, other: Self) -> bool {
        self.0 == other.0
    }

    fn same_spec(self, other: Self) -> bool {
        self.same(other)
    }

    fn is_finite(self) -> bool {
        self.0.is_finite()
    }

    fn is_finite_spec(self) -> bool {
        self.is_finite()
    }

    fn is_infinite(self) -> bool {
        self.0.is_infinite()
    }

    fn is_infinite_spec(self) -> bool {
        self.is_infinite()
    }

    fn round_u32(self) -> u32 {
        self.0.round() as u32
    }

    fn round_u32_spec(self) -> u32 {
        self.round_u32()
    }

    fn ceil_u32(self) -> u32 {
        self.0.ceil() as u32
    }

    fn ceil_u32_spec(self) -> u32 {
        self.ceil_u32()
    }

    fn root(self, degree: u8) -> Self {
        Double(self.0.powf(1.0 / degree as f64))
    }

    fn root_spec(self, degree: u8) -> Self {
        self.root(degree)
    }

    fn power(self, exponent: Self) -> Self {
        Double(self.0.powf(exponent.0))
    }

    fn power_spec(self, exponent: Self) -> Self {
        self.power(exponent)
    }

    fn ln(self) -> Self {
        Double(self.0.ln())
    }

    fn ln_spec(self) -> Self {
        self.ln()
    }

    fn log_ratio(left: u32, right: u32) -> Self {
        Double((left as f64 / right as f64).ln().abs())
    }

    fn log_ratio_spec(left: u32, right: u32) -> Self {
        Self::log_ratio(left, right)
    }

    fn bits(self) -> u64 {
        self.0.to_bits() as u64
    }

    fn bits_spec(self) -> u64 {
        self.bits()
    }

    fn place(self) -> u64 {
        let bits = self.0.to_bits();
        if bits >> 63 == 1 { !bits } else { bits | 0x8000_0000_0000_0000 }
    }

    fn place_spec(self) -> u64 {
        self.place()
    }

    fn one_is_positive() {}

    fn bits_tell_apart(_: Self, _: Self) {}
}

fn level(level: u8, small_blind: u32, big_blind: u32, per_player_ante: u32) -> BlindLevel {
    BlindLevel { level, small_blind, big_blind, per_player_ante }
}

fn level_eleven() -> BlindLevel {
    level(11, 4_300, 8_600, 2_200)
}

/// The card of a rank from 2 to 14 and a suit from 0, clubs, to 3, spades.
fn c(rank: u8, suit: u8) -> Card {
    Card::new(Rank::from_index(rank as usize - 2), Suit::from_index(suit as usize))
}

fn river_board() -> [Card; 5] {
    [c(14, 0), c(13, 0), c(12, 0), c(11, 0), c(2, 1)]
}

#[test]
fn level_nine_pressure_is_already_short_from_starting_stack() {
    let pressure = blind_pressure::<Double>(level(9, 1_900, 3_800, 950), 6, STARTING_STACK);

    assert!((pressure.stack_in_big_blinds.0 - 10.526).abs() < 0.001);
    assert_eq!(pressure.orbit_cost, 11_400);
    assert!((pressure.orbit_cost_as_stack_fraction.0 - 0.285).abs() < 0.001);
    assert_eq!(pressure.stack_after_one_folded_orbit, 28_600);
    assert!((pressure.stack_after_one_folded_orbit_in_big_blinds.0 - 7.526).abs() < 0.001);
}

#[test]
fn level_ten_pressure_is_push_fold_like_from_starting_stack() {
    let pressure = blind_pressure::<Double>(level(10, 2_850, 5_700, 1_400), 6, STARTING_STACK);

    assert!((pressure.stack_in_big_blinds.0 - 7.018).abs() < 0.001);
    assert_eq!(pressure.orbit_cost, 16_950);
    assert!((pressure.orbit_cost_as_stack_fraction.0 - 0.42375).abs() < 0.001);
    assert_eq!(pressure.stack_after_one_folded_orbit, 23_050);
    assert!((pressure.stack_after_one_folded_orbit_in_big_blinds.0 - 4.043).abs() < 0.001);
}

#[test]
fn blocker_report_counts_top_range_blockers() {
    let board = river_board();
    let combos = river_combos(board);
    let ten_spade = *combos
        .iter()
        .find(|combo| combo.label() == "2cTc")
        .expect("combo should be available");
    let reports = river_blocker_reports(board, &[ten_spade], &combos, Double(0.01));

    assert_eq!(reports.len(), 1);
    assert!(reports[0].blocked_villain_combos > 0);
    assert!(reports[0].blocked_top_combos > 0);
    assert_eq!(reports[0].top_villain_combos, 11);
}

#[test]
fn river_cfr_reports_ip_and_oop_strategy_nodes() {
    let result = solve_river_check_bet(RiverCfrConfig {
        board: river_board(),
        pot: Double(100.0),
        bet: Double(75.0),
        iterations: 1_000,
        top_fraction: Double(0.01),
    });

    assert_eq!(result.combo_count, 1081);
    assert!(result.strategies.iter().any(|strategy| strategy.role == RiverRole::Ip));
    assert!(result.strategies.iter().any(|strategy| strategy.role == RiverRole::Oop));
    for strategy in &result.strategies {
        let actions = strategy.actions();
        assert_eq!(actions.len(), 2);
        let total: f64 = actions.iter().map(|action| action.frequency.0).sum();
        assert!((total - 1.0).abs() < 1e-9);
        match strategy.role {
            RiverRole::Ip => assert_eq!(actions[1].action, "bet"),
            RiverRole::Oop => assert_eq!(actions[0].action, "fold"),
        }
    }
    for pair in result.strategies.windows(2) {
        if pair[0].role == pair[1].role {
            assert!(pair[0].combo.value >= pair[1].combo.value);
        }
    }
}

#[test]
fn a_river_without_iterations_is_worth_nothing() {
    let result = solve_river_check_bet(RiverCfrConfig {
        board: river_board(),
        pot: Double(100.0),
        bet: Double(75.0),
        iterations: 0,
        top_fraction: Double(0.01),
    });
    assert_eq!(result.expected_value_oop, Double(0.0));
    assert!(result.strategies.is_empty());
}

#[test]
fn heuristic_initial_range_prefers_premium_hands() {
    let classes = all_hand_classes();
    let range = top_fraction_by_heuristic(&classes, Double(0.01));

    assert!(range.iter().any(|hand| hand.label() == "AA"));
    assert!(range.iter().any(|hand| hand.label() == "KK"));
}

fn short_stack_config() -> ShortStackConfig {
    ShortStackConfig {
        level: level_eleven(),
        alive_players: 3,
        stack: 40_000,
        players_behind: 2,
        max_boards_per_combo: 1,
        range_sample_limit: 1,
        iterations: 0,
    }
}

fn finished(mut analysis: SeatAnalysis<Double>) -> SeatRanges<Double> {
    while let Some(question) = analysis.question() {
        let shares: Vec<Double> = question
            .hands
            .iter()
            .map(|hand| Double((hand.high as f64 + hand.low as f64) / 28.0))
            .collect();
        analysis.answer(&shares);
    }
    analysis.ranges()
}

#[test]
fn report_contains_ranges_for_each_alive_player() {
    let config = short_stack_config();
    let seats: Vec<SeatRanges<Double>> =
        analyze_seats::<Double>(&config).into_iter().map(finished).collect();
    let report = short_stack_report(&config, seats);

    assert_eq!(report.seats.len(), 3);
    assert_eq!(report.seats[0].players_behind, 2);
    assert_eq!(report.seats[1].players_behind, 1);
    assert_eq!(report.seats[2].players_behind, 0);
    assert_eq!(report.dead_pot, 4_300 + 8_600 + 3 * 2_200);
    assert!(report.seats[2].shove_range.is_empty());
    assert!(!report.seats[0].shove_range.is_empty());
}

#[test]
fn an_analysis_asks_two_questions_a_round_and_three_at_the_end() {
    let config = ShortStackConfig { iterations: 2, ..short_stack_config() };
    let mut analysis: SeatAnalysis<Double> = SeatAnalysis::open(&config, 0);
    let mut questions = 0;
    while let Some(question) = analysis.question() {
        assert!(question.against.len() <= 32);
        assert_eq!(question.max_boards_per_combo, 1);
        analysis.answer(&vec![Double(0.5); question.hands.len()]);
        questions += 1;
    }
    assert_eq!(questions, 2 * 2 + 3);
}

#[test]
fn survival_required_equity_charges_fold_value() {
    let level = level_eleven();
    let orbit_cost = orbit_cost(level, 6);
    let posted = posted_amount(level, 6, 5);
    let fold_stack = 40_000 - posted;
    let all_in_cost = 40_000 - posted;
    let dead_pot = level.small_blind + level.big_blind + level.per_player_ante * 6;
    let pot_after_call = dead_pot + all_in_cost * 2;
    let pot_odds = all_in_cost as f64 / pot_after_call as f64;

    let required: Double = survival_required_equity(fold_stack, pot_after_call, orbit_cost);
    assert!(required.0 > pot_odds);
    let all: Double = survival_required_equity(fold_stack, 0, orbit_cost);
    assert_eq!(all, Double(1.0));
}

#[test]
fn samples_and_strengths_of_ranges() {
    let classes = all_hand_classes();
    assert_eq!(sample_range(&classes, 0).len(), 169);
    assert_eq!(sample_range(&classes, 5), classes[..5].to_vec());
    assert_eq!(combo_fraction::<Double>(&classes), Double(1.0));
    assert_eq!(heuristic_strength::<Double>(HandClass::new(14, 14, false)), Double(156.0));
    assert_eq!(heuristic_strength::<Double>(HandClass::new(14, 13, true)), Double(78.5));
    assert_eq!(heuristic_strength::<Double>(HandClass::new(10, 3, false)), Double(32.5));
    let results = profitable_shove_results(
        &[HandClass::new(14, 14, false), HandClass::new(7, 2, false)],
        &[Double(0.8), Double(0.1)],
        &classes,
        1,
        100,
        1_000,
    );
    assert_eq!(results.len(), 1);
    assert_eq!(results[0].ev, Double(0.8 * 2_100.0 - 1_000.0));
    let calls = profitable_call_range(
        &[HandClass::new(7, 2, false), HandClass::new(14, 14, false), HandClass::new(13, 13, false)],
        &[Double(0.1), Double(0.7), Double(0.8)],
        Double(0.5),
    );
    assert_eq!(calls.len(), 2);
    assert_eq!(calls[0].hand, HandClass::new(13, 13, false));
}

fn stacks(each: f64) -> Sides<Double> {
    Sides::new(Double(each), Double(each))
}

fn class(high: u8, low: u8, suited: bool) -> HandClass {
    HandClass::new(high, low, suited)
}

fn pair(rank: u8) -> HandClass {
    HandClass::new(rank, rank, false)
}

fn test_abstraction(allow_all_in: bool) -> ActionAbstraction<Double> {
    ActionAbstraction {
        bet_sizes: vec![BetSize::PotFraction(Double(0.5)), BetSize::PotFraction(Double(1.0))],
        raise_sizes: vec![BetSize::CurrentBetMultiple(Double(2.5))],
        reraise_sizes: vec![BetSize::CurrentBetMultiple(Double(2.0))],
        allow_all_in,
        max_raises: 2,
    }
}

fn test_board() -> Vec<Card> {
    vec![c(14, 0), c(13, 1), c(2, 2)]
}

fn game(
    board: Vec<Card>,
    oop: Vec<HandClass>,
    ip: Vec<HandClass>,
    actions: ActionAbstraction<Double>,
) -> SubgameSpec<Double> {
    SubgameSpec::postflop(
        board,
        PotState::new(Double(100.0), stacks(1_000.0)),
        RangeState::new(oop, ip),
        actions,
        ChancePolicy::Sample(8),
    )
    .unwrap()
}

#[test]
fn rejects_duplicate_board_cards() {
    let spec = SubgameSpec {
        board: vec![c(14, 0), c(14, 0), c(2, 1)],
        street: Street::Flop,
        root_player: Player::Oop,
        pot: PotState::new(Double(100.0), stacks(1_000.0)),
        ranges: RangeState::new(vec![pair(14)], vec![pair(13)]),
        actions: ActionAbstraction::default(),
        chance: ChancePolicy::Sample(8),
    };

    assert_eq!(spec.validate(), Err(SubgameValidationError::DuplicateBoardCard));
}

#[test]
fn every_fault_of_a_subgame_has_its_error() {
    let good = || game(test_board(), vec![pair(14)], vec![pair(12)], ActionAbstraction::default());
    assert_eq!(good().validate(), Ok(()));
    let mut spec = good();
    spec.board.pop();
    assert_eq!(spec.validate(), Err(SubgameValidationError::InvalidBoardLength));
    let mut spec = good();
    spec.street = Street::Turn;
    assert_eq!(spec.validate(), Err(SubgameValidationError::StreetBoardMismatch));
    let mut spec = good();
    spec.ranges.ip = Vec::new();
    assert_eq!(spec.validate(), Err(SubgameValidationError::EmptyRange));
    let mut spec = good();
    spec.pot.pot = Double(-1.0);
    assert_eq!(spec.validate(), Err(SubgameValidationError::InvalidPot));
    let mut spec = good();
    spec.pot.current_bet = Double(f64::NAN);
    assert_eq!(spec.validate(), Err(SubgameValidationError::InvalidBet));
    let mut spec = good();
    spec.pot.stacks.ip = Double(f64::INFINITY);
    assert_eq!(spec.validate(), Err(SubgameValidationError::InvalidStack));
    let mut spec = good();
    spec.pot.committed.oop = Double(-0.5);
    assert_eq!(spec.validate(), Err(SubgameValidationError::InvalidCommitment));
    let mut spec = good();
    spec.actions.raise_sizes = vec![BetSize::Chips(Double(0.0))];
    assert_eq!(spec.validate(), Err(SubgameValidationError::InvalidBetSize));
    let mut spec = good();
    spec.chance = ChancePolicy::Sample(0);
    assert_eq!(spec.validate(), Err(SubgameValidationError::InvalidRunoutSample));
    assert_eq!(
        spec.build_action_tree().unwrap_err(),
        SubgameBuildError::Validation(SubgameValidationError::InvalidRunoutSample)
    );
    let blocked = game(
        vec![c(14, 0), c(14, 1), c(14, 2)],
        vec![pair(14)],
        vec![pair(12)],
        ActionAbstraction::default(),
    );
    assert_eq!(blocked.solve_cfr(1).unwrap_err(), SubgameBuildError::NoLegalDeals);
}

fn edges(tree: &ActionTree<Double>, node: usize) -> (Player, Vec<ActionKind<Double>>) {
    match &tree.nodes[node] {
        ActionTreeNode::Decision { player, actions, .. } => {
            (*player, actions.iter().map(|edge| edge.action).collect())
        }
        ActionTreeNode::Terminal { .. } => panic!("node must be a decision"),
    }
}

#[test]
fn builds_action_tree_from_abstraction() {
    let spec = game(
        test_board(),
        vec![pair(14), class(14, 13, true)],
        vec![pair(12), class(14, 12, true)],
        test_abstraction(true),
    );

    let tree = spec.build_action_tree().unwrap();
    let (player, actions) = edges(&tree, tree.root.0);

    assert_eq!(player, Player::Oop);
    assert!(actions.contains(&ActionKind::Check));
    assert!(actions.contains(&ActionKind::Bet(Double(50.0))));
    assert!(actions.contains(&ActionKind::Bet(Double(100.0))));
    assert!(tree.nodes.iter().any(|node| matches!(
        node,
        ActionTreeNode::Decision { actions, .. }
            if actions.iter().any(|edge| edge.action == ActionKind::Raise(Double(250.0)))
    )));
    assert!(tree.nodes.len() > actions.len());
    for (index, node) in tree.nodes.iter().enumerate() {
        match node {
            ActionTreeNode::Decision { actions, pot, .. } => {
                assert!(actions.iter().all(|edge| index < edge.to.0 && edge.to.0 < tree.nodes.len()));
                assert_eq!(pot.pot.0 + pot.stacks.oop.0 + pot.stacks.ip.0, 2_100.0);
            }
            ActionTreeNode::Terminal { pot, .. } => {
                assert_eq!(pot.pot.0 + pot.stacks.oop.0 + pot.stacks.ip.0, 2_100.0);
            }
        }
    }
}

#[test]
fn action_tree_uses_configured_root_player() {
    let spec = game(
        test_board(),
        vec![pair(14), class(14, 13, true)],
        vec![pair(12), class(14, 12, true)],
        ActionAbstraction::default(),
    )
    .with_root_player(Player::Ip);

    let tree = spec.build_action_tree().unwrap();
    let (player, _) = edges(&tree, tree.root.0);

    assert_eq!(player, Player::Ip);
}

#[test]
fn solves_cfr_on_generated_action_tree() {
    let spec = game(
        test_board(),
        vec![pair(14), class(14, 13, true), class(14, 13, false)],
        vec![pair(12), pair(11), class(14, 12, true)],
        test_abstraction(false),
    );

    let result = spec.solve_cfr(500).unwrap();

    assert_eq!(result.iterations, 500);
    assert!(result.node_count > 4);
    assert!(!result.strategies.is_empty());
    assert!(result.strategies.iter().any(|strategy| strategy
        .actions
        .iter()
        .any(|action| action.action == ActionKind::Bet(Double(50.0)))));
    assert!(result.strategies.iter().any(|strategy| strategy
        .actions
        .iter()
        .any(|action| action.action == ActionKind::Raise(Double(250.0)))));
    for strategy in &result.strategies {
        let total: f64 = strategy.actions.iter().map(|action| action.frequency.0).sum();
        assert!((total - 1.0).abs() < 1e-9);
    }
}

fn focused_request(oop: Option<u64>, ip: Option<u64>) -> SubgameSolveRequest<Double> {
    SubgameSolveRequest {
        iterations: 8,
        focused_oop_combo_mask: oop,
        focused_ip_combo_mask: ip,
        focused_sampling_rate: Double(1.0),
        variant: CfrVariant::default(),
    }
}

fn wide_oop() -> Vec<HandClass> {
    vec![pair(14), class(14, 13, true), class(14, 13, false), class(14, 12, true)]
}

fn wide_ip() -> Vec<HandClass> {
    vec![pair(12), pair(11), class(14, 12, true), class(13, 12, true), class(12, 11, true)]
}

#[test]
fn focused_sampling_visits_requested_oop_combo() {
    let spec = game(test_board(), wide_oop(), wide_ip(), test_abstraction(false));
    let focused_mask = c(14, 1).deck_mask() | c(12, 1).deck_mask();

    let result = spec.solve_cfr_with_request(focused_request(Some(focused_mask), None)).unwrap();

    assert!(result.strategies.iter().any(|strategy| strategy.node == result.root
        && strategy.player == Player::Oop
        && strategy.combo.mask == focused_mask));
}

#[test]
fn focused_sampling_visits_requested_ip_combo() {
    let board = test_board();
    let spec = game(board.clone(), wide_oop(), wide_ip(), ActionAbstraction::default())
        .with_root_player(Player::Ip);
    let focused_mask =
        weighted_postflop_combos(&uniform_range::<Double>(wide_ip()), &board)[0].combo.mask;

    let result = spec.solve_cfr_with_request(focused_request(None, Some(focused_mask))).unwrap();

    assert!(result.strategies.iter().any(|strategy| strategy.node == result.root
        && strategy.player == Player::Ip
        && strategy.combo.mask == focused_mask));
}

#[test]
fn weighted_range_entries_bias_chance_sampling() {
    let board = vec![c(2, 0), c(7, 1), c(9, 2)];
    let aa = HandClass::new(14, 14, false);
    let t3o = HandClass::new(10, 3, false);
    let oop_range = weighted_postflop_combos(
        &weighted_range(vec![(aa, Double(100.0)), (t3o, Double(1.0))]),
        &board,
    );
    let ip_range = weighted_postflop_combos(
        &weighted_range(vec![(HandClass::new(5, 4, true), Double(1.0))]),
        &board,
    );
    let deals = legal_deals(&oop_range, &ip_range);

    let mut aa_samples = 0;
    let mut t3o_samples = 0;
    for iteration in 0..128 {
        let (oop_index, _) = sample_weighted_deal(iteration, &deals);
        let class = oop_range[oop_index].combo.class;
        if class == aa {
            aa_samples += 1;
        } else if class == t3o {
            t3o_samples += 1;
        }
    }

    assert!(
        aa_samples > t3o_samples * 20,
        "weighted sampling ignored range weights: AA={aa_samples} T3o={t3o_samples}"
    );
}

#[test]
fn shares_of_two_hands_add_up() {
    let board = vec![c(2, 0), c(7, 1), c(9, 2), c(11, 3), c(12, 0)];
    let hand = |first: Card, second: Card| {
        let combo = Combo::new(first, second).unwrap();
        PostflopCombo { combo, class: combo_class(combo), mask: combo.mask() }
    };
    let aces = hand(c(14, 0), c(14, 1));
    let kings = hand(c(13, 0), c(13, 1));
    let win: Double = combo_equity(&board, &aces, &kings, 0);
    let lose: Double = combo_equity(&board, &kings, &aces, 0);
    assert_eq!(win, Double(1.0));
    assert_eq!(lose, Double(0.0));
    let flop = &board[..3];
    let win: Double = combo_equity(flop, &aces, &kings, 0);
    let lose: Double = combo_equity(flop, &kings, &aces, 0);
    assert!((win.0 + lose.0 - 1.0).abs() < 1e-12);
    assert!(win.0 > 0.8);
    let shared: Double = combo_equity(flop, &aces, &aces, 0);
    assert_eq!(shared, Double(0.0));
    let used = board_mask(flop) | aces.mask | kings.mask;
    assert_eq!(sampled_runouts(flop, used, 0).len(), 45 * 44 / 2);
    assert_eq!(sampled_runouts(flop, used, 8).len(), 8);
}

#[test]
fn streets_are_solved_by_all_threads() {
    let spec = game(
        vec![c(14, 0), c(13, 1), c(2, 2), c(9, 3)],
        vec![pair(14)],
        vec![pair(12)],
        ActionAbstraction::default(),
    );
    let request = SubgameSolveRequest {
        iterations: 1,
        focused_oop_combo_mask: None,
        focused_ip_combo_mask: None,
        focused_sampling_rate: Double(0.0),
        variant: CfrVariant::CfrPlus,
    };
    let solved = spec.solve_multistreet_cfr_with_request(request).unwrap();
    let alone = spec.solve_multistreet_cfr_in_shards(request, 1).unwrap();
    assert_eq!(solved.expected_value_oop, alone.expected_value_oop);
    assert_eq!(solved.node_count, alone.node_count);
    assert_eq!(shard_bounds(4, 10), vec![(0, 3), (3, 6), (6, 9), (9, 10)]);
    assert_eq!(shard_bounds(4, 0), vec![(0, 0)]);
    assert_eq!(shard_bounds(8, 3), vec![(0, 1), (1, 2), (2, 3)]);
}

#[test]
fn checksums_count_values_by_place() {
    let hero = [Double(1.0), Double(2.0)];
    let villain = [Double(4.0), Double(8.0)];
    assert_eq!(output_checksum(&hero, &villain), Double(1.0 + 4.0 + 12.0 + 32.0));
    assert_eq!(task_checksum(5, 2, &hero, &villain), Double((5.0 + 212.0) * 8.0));
    let long: Vec<Double> = (0..10).map(|_| Double(1.0)).collect();
    assert_eq!(task_checksum(0, 0, &long, &long), Double(36.0 + 164.0));
    assert_eq!(
        columns_checksum(&vec![hero.to_vec()], &vec![villain.to_vec()]),
        Double(5.0 + 2.0 * 20.0)
    );
    assert_eq!(call_checksum(&hero, &villain, 3), Double(1.0 + 2.0));
}

#[test]
fn workers_are_counted() {
    assert_eq!(worker_count(3, 8), 3);
    assert_eq!(worker_count(0, 8), 8);
    assert_eq!(worker_count(0, 0), 1);
    assert_eq!(workers_within(0, 8, 5), 5);
    assert_eq!(workers_within(3, 8, 5), 3);
    assert_eq!(workers_within(9, 8, 20), 8);
    assert_eq!(effective_worker_count(7), 7);
    assert!(effective_worker_count(0) > 0);
    assert_eq!(task_chunks(10, 4, 8), (4, 3));
    assert_eq!(task_chunks(3, 0, 8), (3, 1));
    assert_eq!(task_chunks(0, 5, 8), (1, 0));
    let mut first = TerminalWorkerProfile::none();
    first.tasks = 3;
    first.oop_nonzero_sum = 9;
    first.oop_nonzero_max = 4;
    first.side_cache_hits = 5;
    first.side_cache_misses = 2;
    first.output_states = 6;
    let mut second = TerminalWorkerProfile::none();
    second.tasks = 1;
    second.oop_nonzero_sum = 1;
    second.oop_nonzero_max = 1;
    second.worker_index = 1;
    second.side_cache_hits = 1;
    second.output_states = 3;
    let totals = terminal_profile_totals::<Double>(&[first, second]);
    assert_eq!(totals.added.tasks, 4);
    assert_eq!(totals.added.oop_nonzero_max, 4);
    assert_eq!(totals.added.side_cache_hits, 6);
    assert_eq!(totals.added.side_cache_misses, 2);
    assert_eq!(totals.added.output_states, 9);
    assert_eq!(totals.average_oop_nonzero, Double(2.5));
    assert_eq!(totals.average_ip_nonzero, Double(0.0));
}

#[test]
fn streets_are_solved_alike_in_one_shard_and_on_one_thread() {
    let spec = game(
        vec![c(14, 0), c(13, 1), c(2, 2), c(9, 3)],
        vec![pair(14), class(14, 13, true)],
        vec![pair(12), pair(11)],
        ActionAbstraction::default(),
    );
    let request = SubgameSolveRequest {
        iterations: 6,
        focused_oop_combo_mask: None,
        focused_ip_combo_mask: None,
        focused_sampling_rate: Double(0.0),
        variant: CfrVariant::DcfrPlus,
    };
    let solved = spec.solve_multistreet_cfr_in_shards(request, 1).unwrap();
    let pool = spec.deal_pool(request).unwrap();
    let shard = spec.train_shard(request, &pool, 0, 6);
    assert_eq!(solved.expected_value_oop, Double(shard.utility.0 / 6.0));
    assert!(!solved.strategies.is_empty());
    assert_eq!(solved.node_count, solved.strategies.len());
    let in_shards = spec.solve_multistreet_cfr_in_shards(request, 3).unwrap();
    assert_eq!(in_shards.iterations, 6);
    assert!(in_shards.expected_value_oop.0.is_finite());
    let mut merged = MultistreetCfrTrainer::new();
    for start in [0, 2, 4] {
        merged.merge_from(&spec.train_shard(request, &pool, start, start + 2));
    }
    assert_eq!(in_shards.expected_value_oop, Double(merged.utility.0 / 6.0));
}

#[test]
fn units_are_drawn_from_whole_numbers() {
    assert_eq!(deterministic_u64(3), 12340347552855549433);
    assert_eq!(deterministic_unit::<Double>(3), Double(12340347552855549433u64 as f64 / u64::MAX as f64));
    assert!((deterministic_unit::<Double>(3).0 - 0.6689715813016083).abs() < 1e-15);
}
