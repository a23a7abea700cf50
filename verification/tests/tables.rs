//! Scores, blinds, boards, runouts and hands: everything that counts in integers.
use pokedr_core::arith::capped_product;
use pokedr_core::blinds::BlindLevel;
use pokedr_core::cards::{Board, Card, Rank, Suit};
use pokedr_core::deals::index_pairs;
use pokedr_core::evaluator::evaluate_seven;
use pokedr_core::fixed::Fixed;
use pokedr_core::hand_class::{all_hand_classes, combo_class, HandClass};
use pokedr_core::index_map::KeyMap;
use pokedr_core::plan::{ceil_div, choose2};
use pokedr_core::river::{
    board_mask, card_label, node_key, river_blocker_reports, river_combos, river_deals, role_key,
    sampled_index, Combo, RiverNode, RiverRole,
};
use pokedr_core::runouts::{
    ordered_runouts, ordered_runouts_from_dead_mask, remaining_cards, unordered_runouts,
    unordered_runouts_from_dead_mask,
};
use pokedr_core::scalar::Scalar;
use pokedr_core::scoring::{rank_points, rating_adjustment, score, ScoringError};
use pokedr_core::short_stack::posted_amount;
use pokedr_core::sorting::{sorted_positions, SortKey};
use pokedr_core::structure::orbit_cost;
use pokedr_core::text::{around, decimal};

fn level(level: u8, small_blind: u32, big_blind: u32, per_player_ante: u32) -> BlindLevel {
    BlindLevel { level, small_blind, big_blind, per_player_ante }
}

fn card(text: &str) -> Card {
    Card::parse(text).unwrap()
}

fn flop() -> Board {
    Board::new(vec![
        Card::new(Rank::Ace, Suit::Spades),
        Card::new(Rank::Seven, Suit::Hearts),
        Card::new(Rank::Two, Suit::Clubs),
    ])
}

fn river_board() -> [Card; 5] {
    [card("Ac"), card("Kc"), card("Qc"), card("Jc"), card("2d")]
}

#[test]
fn rank_points_match_six_player_table() {
    assert_eq!(rank_points(1), Ok(40));
    assert_eq!(rank_points(2), Ok(15));
    assert_eq!(rank_points(3), Ok(3));
    assert_eq!(rank_points(4), Ok(0));
    assert_eq!(rank_points(5), Ok(-18));
    assert_eq!(rank_points(6), Ok(-40));
}

#[test]
fn rank_outside_six_player_table_is_invalid() {
    assert_eq!(rank_points(0), Err(ScoringError::InvalidRank { rank: 0 }));
    assert_eq!(rank_points(7), Err(ScoringError::InvalidRank { rank: 7 }));
}

#[test]
fn rating_adjustment_truncates_toward_zero() {
    let opponents = [1480, 1480, 1480, 1480, 1480];

    assert_eq!(rating_adjustment(1500, &opponents), Ok(0));
    assert_eq!(rating_adjustment(1519, &opponents), Ok(0));
    assert_eq!(rating_adjustment(1560, &opponents), Ok(-2));
}

#[test]
fn score_adds_rank_points_and_rating_adjustment() {
    let opponents = [1600, 1600, 1600, 1600, 1600];

    assert_eq!(score(1, 1500, &opponents), Ok(42));
    assert_eq!(score(3, 1500, &opponents), Ok(5));
    assert_eq!(score(6, 1500, &opponents), Ok(-38));
}

#[test]
fn top_three_non_positive_scores_are_clamped_to_one() {
    let opponents = [1500, 1500, 1500, 1500, 1500];

    assert_eq!(score(3, 1620, &opponents), Ok(1));
    assert_eq!(score(2, 2100, &opponents), Ok(1));
    assert_eq!(score(1, 3100, &opponents), Ok(1));
}

#[test]
fn bottom_three_non_positive_scores_are_not_clamped() {
    let opponents = [1500, 1500, 1500, 1500, 1500];

    assert_eq!(score(4, 1500, &opponents), Ok(0));
    assert_eq!(score(5, 1500, &opponents), Ok(-18));
    assert_eq!(score(6, 1500, &opponents), Ok(-40));
}

#[test]
fn a_score_without_opponents_is_an_error() {
    assert!(rating_adjustment(1500, &[]).is_err());
    assert!(score(1, 1500, &[]).is_err());
}

#[test]
fn orbit_cost_uses_per_player_ante() {
    assert_eq!(orbit_cost(level(1, 100, 200, 50), 6), 600);
}

#[test]
fn posted_amount_accounts_for_blinds_and_antes() {
    let level = level(11, 4_300, 8_600, 2_200);

    assert_eq!(posted_amount(level, 6, 0), 2_200);
    assert_eq!(posted_amount(level, 6, 4), 6_500);
    assert_eq!(posted_amount(level, 6, 5), 10_800);
}

#[test]
fn flop_runout_counts_cover_all_turn_river_cards() {
    assert_eq!(ordered_runouts(&flop()).len(), 49 * 48);
    assert_eq!(unordered_runouts(&flop()).len(), 49 * 48 / 2);
}

#[test]
fn combo_specific_runout_counts_exclude_private_cards() {
    let board = flop();
    let hero_combo = Card::new(Rank::King, Suit::Spades).deck_mask()
        | Card::new(Rank::Queen, Suit::Spades).deck_mask();
    let dead_mask = board.deck_mask() | hero_combo;

    assert_eq!(ordered_runouts_from_dead_mask(dead_mask).len(), 47 * 46);
    assert_eq!(
        unordered_runouts_from_dead_mask(dead_mask).len(),
        47 * 46 / 2
    );
}

#[test]
fn runouts_hold_no_dead_card() {
    let dead_mask = flop().deck_mask();
    assert_eq!(remaining_cards(dead_mask).len(), 49);
    for (turn, river) in ordered_runouts_from_dead_mask(dead_mask) {
        assert_eq!((turn.deck_mask() | river.deck_mask()) & dead_mask, 0);
        assert_ne!(turn, river);
    }
}

#[test]
fn river_combos_exclude_board_cards() {
    let board = river_board();
    let combos = river_combos(board);

    assert_eq!(combos.len(), 1081);
    assert!(combos.iter().all(|combo| combo.mask & board_mask(board) == 0));
}

#[test]
fn river_combos_order_stronger_hands_first() {
    let combos = river_combos(river_board());

    assert!(combos[0].value >= combos[1].value);
    assert_eq!(combos[0].label(), "2cTc");
}

#[test]
fn a_repeated_card_of_a_river_leaves_more_hands() {
    let board = [card("Ac"), card("Kc"), card("Qc"), card("Ac"), card("2d")];
    let combos = river_combos(board);
    assert_eq!(combos.len(), 48 * 47 / 2);
    assert!(combos.iter().all(|combo| combo.mask & board_mask(board) == 0));
    assert!(combos.windows(2).all(|pair| {
        let cards = [0, 1].map(|at| (pair[at].combo.first.index(), pair[at].combo.second.index()));
        pair[0].value > pair[1].value || pair[0].value == pair[1].value && cards[0] < cards[1]
    }));
    let mut masks: Vec<u64> = combos.iter().map(|combo| combo.mask).collect();
    masks.sort_unstable();
    masks.dedup();
    assert_eq!(masks.len(), combos.len());
}

#[test]
fn a_repeated_card_counts_once() {
    let once = evaluate_seven([
        card("Ac"), card("Kd"), card("Qs"), card("9h"), card("7d"), card("3c"), card("2s"),
    ]);
    let twice = evaluate_seven([
        card("Ac"), card("Ac"), card("Kd"), card("Qs"), card("9h"), card("7d"), card("3c"),
    ]);
    assert_eq!(once.packed, twice.packed);
}

#[test]
fn river_deals_share_no_card() {
    let combos = river_combos(river_board());
    let deals = river_deals(&combos);
    assert_eq!(deals.len(), 1081 * 990);
    assert!(deals.iter().take(5_000).all(|deal| combos[deal.0].mask & combos[deal.1].mask == 0));
    for iteration in 0..100 {
        assert!(sampled_index(iteration, deals.len()) < deals.len());
    }
    assert_ne!(sampled_index(0, deals.len()), sampled_index(1, deals.len()));
}

#[test]
fn a_combo_needs_two_cards() {
    assert!(Combo::new(card("As"), card("As")).is_none());
    let combo = Combo::new(card("As"), card("Kd")).unwrap();
    assert_eq!(combo.label(), "AsKd");
    assert_eq!(card_label(card("Td")), "Td");
    assert_eq!(combo.mask(), card("As").deck_mask() | card("Kd").deck_mask());
}

#[test]
fn roles_and_nodes_have_places() {
    assert_eq!(role_key(RiverRole::Oop), node_key(RiverNode::FacingBet));
    assert_eq!(role_key(RiverRole::Ip), node_key(RiverNode::AfterCheck));
    assert_ne!(role_key(RiverRole::Oop), role_key(RiverRole::Ip));
}

#[test]
fn blockers_are_counted_in_fixed_point() {
    let board = river_board();
    let combos = river_combos(board);
    let reports = river_blocker_reports(board, &combos[..1], &combos, Fixed::one());
    assert_eq!(reports.len(), 1);
    assert_eq!(reports[0].top_villain_combos, 1081);
    assert_eq!(reports[0].blocked_villain_combos, 1081 - 990);
    assert_eq!(reports[0].blocked_top_combos, 1081 - 990);
}

#[test]
fn seven_cards_compare_as_hands_do() {
    let board = [card("Ac"), card("Kc"), card("Qc"), card("Jc"), card("2d")];
    let hand = |first: &str, second: &str| {
        evaluate_seven([
            card(first), card(second), board[0], board[1], board[2], board[3], board[4],
        ])
        .packed
    };
    let royal_flush = hand("Tc", "3d");
    let flush = hand("3c", "4d");
    let straight = hand("Td", "4h");
    let three = hand("As", "Ah");
    let pair = hand("As", "4h");
    assert!(royal_flush > flush);
    assert!(flush > straight);
    assert!(straight > three);
    assert!(three > pair);
    assert_eq!(hand("Td", "4h"), hand("Ts", "5h"));
}

#[test]
fn classes_have_six_four_or_twelve_hands() {
    let classes = all_hand_classes();
    assert_eq!(classes.len(), 169);
    let hands: usize = classes.iter().map(|class| class.combos().len()).sum();
    assert_eq!(hands, 1326);
    assert_eq!(HandClass::new(14, 14, false).combos().len(), 6);
    assert_eq!(HandClass::new(14, 13, true).combos().len(), 4);
    assert_eq!(HandClass::new(14, 13, false).combos().len(), 12);
    assert_eq!(HandClass::new(14, 14, false).label(), "AA");
    assert_eq!(HandClass::new(10, 9, true).label(), "T9s");
    assert_eq!(HandClass::new(10, 3, false).label(), "T3o");
    for class in classes {
        for combo in class.combos() {
            assert_eq!(combo_class(combo), class);
        }
    }
}

#[test]
fn cards_and_boards_read_what_they_write() {
    for card in Card::deck() {
        assert_eq!(Card::parse(&card.text()).unwrap(), card);
        assert_eq!(Card::from_index(card.index() as u8), card);
    }
    assert!(Card::parse("Ax").is_err());
    assert!(Card::parse("1s").is_err());
    assert!(Board::parse("As7h2c").is_ok());
    assert!(Board::parse("AsAs2c").is_err());
    let board = Board::parse("As7h2c").unwrap();
    assert_eq!(board.len(), 3);
    assert!(board.contains(card("7h")));
    assert!(board.push(card("7h")).is_err());
    assert_eq!(board.push(card("7d")).unwrap().len(), 4);
    assert_eq!(board.remaining_deck().len(), 49);
}

#[test]
fn sorting_is_stable_and_compares_from_the_first_part_on() {
    let key = |first: u64, second: u64| SortKey { first, second, third: 0, fourth: 0 };
    let keys = [key(2, 0), key(1, 9), key(1, 3), key(2, 0), key(0, 0)];
    assert_eq!(sorted_positions(&keys), vec![4, 2, 1, 0, 3]);
    assert!(key(1, 3).is_less(key(1, 9)));
}

#[test]
fn keys_map_to_the_last_value() {
    let mut map: KeyMap<u32> = KeyMap::new();
    map.insert(7, 1);
    map.insert(7, 2);
    map.insert(9, 3);
    assert_eq!(map.get(7), Some(&2));
    assert_eq!(map.get(8), None);
    assert_eq!(map.len(), 2);
}

#[test]
fn pairs_ascend() {
    assert_eq!(index_pairs(3), vec![(0, 1), (0, 2), (1, 2)]);
    assert_eq!(index_pairs(52).len(), 1326);
    assert_eq!(choose2(52), 1326);
    assert_eq!(choose2(1), 0);
    assert_eq!(ceil_div(7, 2), 4);
    assert_eq!(ceil_div(8, 2), 4);
    assert_eq!(capped_product(u32::MAX, 2), u32::MAX);
}

#[test]
fn numbers_are_written_in_decimal() {
    assert_eq!(decimal(0), "0");
    assert_eq!(decimal(1_203), "1203");
    assert_eq!(around("a ", 42, " b"), "a 42 b");
}

#[test]
fn fixed_point_numbers_keep_sums_and_order() {
    let half = Fixed { raw: 32_768 };
    assert_eq!(half.plus(half), Fixed::one());
    assert_eq!(half.times(half), Fixed { raw: 16_384 });
    assert_eq!(Fixed::one().over(Fixed::from_u32(4)), Fixed { raw: 16_384 });
    assert!(Fixed::one().exceeds(half));
    assert!(Fixed::one().place() > half.place());
    assert!(Fixed::zero().minus(half).place() < Fixed::zero().place());
    assert_eq!(Fixed::from_u32(7).round_u32(), 7);
    assert_eq!(half.round_u32(), 1);
    assert_eq!(half.ceil_u32(), 1);
}
