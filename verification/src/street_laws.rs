//! What visits of a subgame are worth and teach, on one street and on several, in whole numbers of steps.
use vstd::prelude::*;
use crate::cards::Card;
use crate::chance_laws::quotients_by_counts;
use crate::measure::{share_in_steps, MeasuredScalar};
use crate::mixture_laws::{can_be_mixed, mixed_steps};
use crate::pot_laws::{is_amount, is_pot};
use crate::subgame::{Player, PotState, Sides};
use crate::subgame_actions::{next_street_spec, ActionKind};
use crate::subgame_cfr::{actions_visited, entered, ending_value, tree_facts, tree_key, visited, Walk};
use crate::subgame_laws::players_favour_what_is_theirs;
use crate::subgame_nodes::{discount_spec, latest, strategy_spec, Entry};
use crate::subgame_streets::{
    action_visited, cards_visited, choices_visited, coming, fitted, spot_visited, street_ended, street_start,
    Road, Spot,
};
use crate::subgame_tree::{EdgeView, TerminalKind};
use crate::update_laws::{comparable, is_share};

verus! {

/// At a decision of a subgame, of two actions with one regret, the one that gives the player out of position more ends
/// with at least as much regret if that player decides, and with at most as much if the other does.
pub proof fn decisions_favour_their_player<S: MeasuredScalar>(
    walk: Walk<S>,
    id: int,
    reach: Sides<S>,
    entries: Seq<Entry<S>>,
    less: int,
    more: int,
)
    requires
        walk.tree[id] is Decision,
        is_share(reach.oop),
        is_share(reach.ip),
        ({
            let (player, history, actions) = (
                walk.tree[id]->Decision_player,
                walk.tree[id]->Decision_history,
                walk.tree[id]->Decision_actions,
            );
            let key = tree_key(id, player, walk.hands.hand(player).mask);
            let known = entered(entries, key, tree_facts(walk, id, player, history, actions));
            let place = latest(known, key, known.len());
            let strategy = strategy_spec(known[place].regrets);
            let visits = actions_visited(
                walk,
                id,
                player,
                actions,
                strategy,
                reach,
                known,
                actions.len(),
            );
            let old = visits.entries[place].regrets;
            &&& 0 <= place < visits.entries.len()
            &&& 0 <= less < old.len()
            &&& 0 <= more < old.len()
            &&& less < visits.values.len()
            &&& more < visits.values.len()
            &&& old[less] == old[more]
            &&& old[less].steps() >= 0
            &&& comparable::<S>(old[less].steps())
            &&& comparable::<S>(visits.value.steps())
            &&& comparable::<S>(visits.values[less].steps())
            &&& comparable::<S>(visits.values[more].steps())
            &&& visits.values[less].steps() <= visits.values[more].steps()
            &&& is_share(discount_spec(old[less], walk.turn.iteration, walk.turn.variant))
        }),
    ensures
        ({
            let (player, history, actions) = (
                walk.tree[id]->Decision_player,
                walk.tree[id]->Decision_history,
                walk.tree[id]->Decision_actions,
            );
            let key = tree_key(id, player, walk.hands.hand(player).mask);
            let known = entered(entries, key, tree_facts(walk, id, player, history, actions));
            let place = latest(known, key, known.len());
            let after = visited(walk, id, reach, entries).entries[place].regrets;
            match player {
                Player::Oop => after[less].steps() <= after[more].steps(),
                Player::Ip => after[less].steps() >= after[more].steps(),
            }
        }),
{
    let (player, history, actions) = (
        walk.tree[id]->Decision_player,
        walk.tree[id]->Decision_history,
        walk.tree[id]->Decision_actions,
    );
    let key = tree_key(id, player, walk.hands.hand(player).mask);
    let known = entered(entries, key, tree_facts(walk, id, player, history, actions));
    let place = latest(known, key, known.len());
    let strategy = strategy_spec(known[place].regrets);
    let visits = actions_visited(walk, id, player, actions, strategy, reach, known, actions.len());
    players_favour_what_is_theirs(
        visits.entries[place],
        reach,
        strategy,
        visits.values,
        visits.value,
        walk.turn,
        less,
        more,
    );
}

/// On several streets, too: of two actions with one regret, the one that gives the player out of position more ends with
/// at least as much regret if that player decides, and with at most as much if the other does.
pub proof fn street_decisions_favour_their_player<S: MeasuredScalar>(
    road: Road<S>,
    spot: Spot<S>,
    reach: Sides<S>,
    entries: Seq<Entry<S>>,
    less: int,
    more: int,
)
    requires
        is_share(reach.oop),
        is_share(reach.ip),
        ({
            let actions = road.actions_at(spot);
            let key = road.key_at(spot);
            let known = entered(entries, key, road.facts_at(spot));
            let place = latest(known, key, known.len());
            let strategy = fitted(strategy_spec(known[place].regrets), actions.len());
            let visits = choices_visited(road, spot, actions, strategy, reach, known, actions.len());
            let old = visits.entries[place].regrets;
            &&& 0 <= place < visits.entries.len()
            &&& 0 <= less < old.len()
            &&& 0 <= more < old.len()
            &&& less < visits.values.len()
            &&& more < visits.values.len()
            &&& old[less] == old[more]
            &&& old[less].steps() >= 0
            &&& comparable::<S>(old[less].steps())
            &&& comparable::<S>(visits.value.steps())
            &&& comparable::<S>(visits.values[less].steps())
            &&& comparable::<S>(visits.values[more].steps())
            &&& visits.values[less].steps() <= visits.values[more].steps()
            &&& is_share(discount_spec(old[less], road.turn.iteration, road.turn.variant))
        }),
    ensures
        ({
            let key = road.key_at(spot);
            let known = entered(entries, key, road.facts_at(spot));
            let place = latest(known, key, known.len());
            let after = spot_visited(road, spot, reach, entries).entries[place].regrets;
            match spot.player {
                Player::Oop => after[less].steps() <= after[more].steps(),
                Player::Ip => after[less].steps() >= after[more].steps(),
            }
        }),
{
    let actions = road.actions_at(spot);
    let key = road.key_at(spot);
    let known = entered(entries, key, road.facts_at(spot));
    let place = latest(known, key, known.len());
    let strategy = fitted(strategy_spec(known[place].regrets), actions.len());
    let visits = choices_visited(road, spot, actions, strategy, reach, known, actions.len());
    players_favour_what_is_theirs(
        visits.entries[place],
        reach,
        strategy,
        visits.values,
        visits.value,
        road.turn,
        less,
        more,
    );
}

/// A player who folds on any street loses what was put in since the start, and the other wins the pot.
pub proof fn folding_ends_the_hand<S: MeasuredScalar>(
    road: Road<S>,
    spot: Spot<S>,
    index: int,
    reach: Sides<S>,
    entries: Seq<Entry<S>>,
)
    requires
        is_pot(spot.pot),
        is_amount(road.invested),
        road.invested.steps() <= spot.pot.invested.oop.steps(),
    ensures
        ({
            let visit = action_visited(road, spot, ActionKind::Fold, index, reach, entries);
            let put_in = spot.pot.invested.oop.steps() - road.invested.steps();
            &&& visit.entries == entries
            &&& spot.player == Player::Oop ==> visit.value.steps() == -put_in
            &&& spot.player == Player::Ip ==> visit.value.steps() == spot.pot.pot.steps() - put_in
        }),
{
    S::measured_units();
    S::measured_sum(spot.pot.invested.oop, road.invested);
    let put_in = spot.pot.invested.oop.minus_spec(road.invested);
    S::measured_sum(put_in, put_in);
    S::measured_sum(spot.pot.pot, put_in);
}

/// A decision on any street is worth its actions to the player out of position by how often each is taken.
pub proof fn street_decisions_are_mixed<S: MeasuredScalar>(
    road: Road<S>,
    spot: Spot<S>,
    actions: Seq<ActionKind<S>>,
    strategy: Seq<S>,
    reach: Sides<S>,
    entries: Seq<Entry<S>>,
    bound: int,
    k: nat,
)
    requires
        k <= actions.len(),
        k <= strategy.len(),
        ({
            let visits = choices_visited(road, spot, actions, strategy, reach, entries, k);
            can_be_mixed(
                Seq::new(strategy.len(), |i: int| strategy[i].steps()),
                Seq::new(visits.values.len(), |i: int| visits.values[i].steps()),
                S::unit(),
                bound,
                k,
            )
        }),
        bound >= 0,
        bound * (k + 1) <= S::limit(),
    ensures
        ({
            let visits = choices_visited(road, spot, actions, strategy, reach, entries, k);
            let mixed = mixed_steps(
                Seq::new(strategy.len(), |i: int| strategy[i].steps()),
                Seq::new(visits.values.len(), |i: int| visits.values[i].steps()),
                S::unit(),
                k,
            );
            &&& visits.values.len() == k
            &&& visits.value.steps() == mixed
            &&& -bound * k <= mixed <= bound * k
        }),
    decreases k,
{
    S::measured_units();
    let shares = Seq::new(strategy.len(), |i: int| strategy[i].steps());
    let visits = choices_visited(road, spot, actions, strategy, reach, entries, k);
    lemma_choice_count(road, spot, actions, strategy, reach, entries, k);
    if k > 0 {
        let m = (k - 1) as nat;
        let front = choices_visited(road, spot, actions, strategy, reach, entries, m);
        lemma_choice_count(road, spot, actions, strategy, reach, entries, m);
        assert(bound * (m + 1) <= bound * (k + 1) && bound * k == bound * m + bound && -bound * k == -bound * m
            - bound && bound * (k + 1) == bound * m + 2 * bound && -bound * m == -(bound * m) && bound * m >= 0)
            by (nonlinear_arith)
            requires
                bound >= 0,
                k == m + 1,
        ;
        let values = Seq::new(visits.values.len(), |i: int| visits.values[i].steps());
        let earlier = Seq::new(front.values.len(), |i: int| front.values[i].steps());
        assert forall|i: int| 0 <= i < m implies #[trigger] earlier[i] == values[i] by {
            assert(front.values[i] == visits.values[i]);
        }
        assert forall|i: int| 0 <= i < m implies -bound <= #[trigger] earlier[i] <= bound by {
            assert(earlier[i] == values[i]);
        }
        street_decisions_are_mixed(road, spot, actions, strategy, reach, entries, bound, m);
        lemma_same_mix(shares, earlier, values, S::unit(), m);
        let share = strategy[k - 1];
        let value = visits.values[k - 1];
        assert(shares[k - 1] == share.steps());
        assert(values[k - 1] == value.steps());
        share_in_steps(share, value);
        S::measured_sum(front.value, share.times_spec(value));
    } else {
        assert(bound * 0 == 0 && -bound * 0 == 0);
    }
}

proof fn lemma_same_mix(shares: Seq<int>, a: Seq<int>, b: Seq<int>, unit: int, n: nat)
    requires
        forall|i: int| 0 <= i < n ==> #[trigger] a[i] == b[i],
    ensures
        mixed_steps(shares, a, unit, n) == mixed_steps(shares, b, unit, n),
    decreases n,
{
    if n > 0 {
        lemma_same_mix(shares, a, b, unit, (n - 1) as nat);
        assert(a[n - 1] == b[n - 1]);
    }
}

proof fn lemma_choice_count<S: MeasuredScalar>(
    road: Road<S>,
    spot: Spot<S>,
    actions: Seq<ActionKind<S>>,
    strategy: Seq<S>,
    reach: Sides<S>,
    entries: Seq<Entry<S>>,
    k: nat,
)
    ensures
        choices_visited(road, spot, actions, strategy, reach, entries, k).values.len() == k,
    decreases k,
{
    if k > 0 {
        lemma_choice_count(road, spot, actions, strategy, reach, entries, (k - 1) as nat);
    }
}

/// Each card of the next street adds what the street that it starts gives, and leaves what was learned before it.
pub proof fn cards_add_what_they_give<S: MeasuredScalar>(
    road: Road<S>,
    board: Seq<Card>,
    pot: PotState<S>,
    reach: Sides<S>,
    cards: Seq<Card>,
    entries: Seq<Entry<S>>,
    k: nat,
)
    requires
        0 < k <= cards.len(),
        board.len() < 5,
        ({
            let front = cards_visited(road, board, pot, reach, cards, entries, (k - 1) as nat);
            let below = spot_visited(
                road,
                street_start(board.push(cards[k - 1]), pot),
                reach,
                front.entries,
            );
            -S::limit() <= front.value.steps() + below.value.steps() <= S::limit()
        }),
    ensures
        ({
            let front = cards_visited(road, board, pot, reach, cards, entries, (k - 1) as nat);
            let below = spot_visited(
                road,
                street_start(board.push(cards[k - 1]), pot),
                reach,
                front.entries,
            );
            let all = cards_visited(road, board, pot, reach, cards, entries, k);
            &&& all.value.steps() - front.value.steps() == below.value.steps()
            &&& all.entries == below.entries
        }),
{
    let front = cards_visited(road, board, pot, reach, cards, entries, (k - 1) as nat);
    let below = spot_visited(road, street_start(board.push(cards[k - 1]), pot), reach, front.entries);
    S::measured_sum(front.value, below.value);
}

/// The end of a street is worth the mean over the cards that come, each as likely; both players come to each of them as
/// often. On the river, or if no card can come, it is a showdown.
pub proof fn streets_end_in_the_mean<S: MeasuredScalar>(
    road: Road<S>,
    board: Seq<Card>,
    pot: PotState<S>,
    reach: Sides<S>,
    entries: Seq<Entry<S>>,
)
    requires
        coming(road, board).len() <= usize::MAX,
        coming(road, board).len() * S::unit() <= S::limit(),
    ensures
        board.len() >= 5 || coming(road, board).len() == 0 ==> street_ended(
            road,
            board,
            pot,
            reach,
            entries,
        ).value == ending_value(
            TerminalKind::Showdown,
            pot,
            road.invested,
            road.hands_on(board).equity,
        ),
        board.len() < 5 && coming(road, board).len() > 0 ==> exists|chance: S|
            {
                let cards = coming(road, board);
                let sum = cards_visited(
                    road,
                    board,
                    next_street_spec(pot),
                    Sides { oop: reach.oop.times_spec(chance), ip: reach.ip.times_spec(chance) },
                    cards,
                    entries,
                    cards.len(),
                );
                let end = street_ended(road, board, pot, reach, entries);
                &&& #[trigger] is_chance(chance, coming(road, board).len())
                &&& -S::limit() <= sum.value.steps() <= S::limit() ==> end.value.steps() == (
                chance.steps() * sum.value.steps()) / S::unit()
                &&& end.entries == sum.entries
            },
{
    S::measured_units();
    let cards = coming(road, board);
    if board.len() < 5 && cards.len() > 0 {
        let u = S::unit();
        assert(u <= S::limit()) by (nonlinear_arith)
            requires
                u * 0x1_0000_0000 <= S::limit(),
                u >= 2,
        ;
        quotients_by_counts(S::one_spec(), cards.len() as usize);
        let chance = S::one_spec().over_spec(S::from_count_spec(cards.len() as usize));
        let (q, n) = (chance.steps(), cards.len() as int);
        assert(0 <= q <= u) by (nonlinear_arith)
            requires
                q * n <= u,
                u < q * n + n,
                n >= 1,
                u > 0,
        ;
        assert(is_chance(chance, cards.len()));
        let sum = cards_visited(
            road,
            board,
            next_street_spec(pot),
            Sides { oop: reach.oop.times_spec(chance), ip: reach.ip.times_spec(chance) },
            cards,
            entries,
            cards.len(),
        );
        if -S::limit() <= sum.value.steps() <= S::limit() {
            share_in_steps(chance, sum.value);
        }
    }
}

/// Whether a number is the chance of each of so many cards, rounded down to a step.
pub open spec fn is_chance<S: MeasuredScalar>(chance: S, cards: nat) -> bool {
    chance.steps() * cards <= S::unit() < chance.steps() * cards + cards
}

/// An action is visited with the other player's reach as before, and with that of the player who acts as often as the action is
/// taken: not at all if it never is, as before if it surely is. On one street and on several.
pub proof fn actions_are_visited_as_often_as_taken<S: MeasuredScalar>(
    walk: Walk<S>,
    id: int,
    edges: Seq<EdgeView<S>>,
    road: Road<S>,
    spot: Spot<S>,
    actions: Seq<ActionKind<S>>,
    player: Player,
    strategy: Seq<S>,
    reach: Sides<S>,
    entries: Seq<Entry<S>>,
    k: nat,
)
    requires
        0 < k,
        spot.player == player,
        id < edges[k - 1].to < walk.tree.len(),
        is_share(reach.oop),
        is_share(reach.ip),
        strategy[k - 1].steps() == 0 || strategy[k - 1].steps() == S::unit(),
    ensures
        ({
            let after = if strategy[k - 1].steps() == 0 {
                reach.with_spec(player, S::zero_spec())
            } else {
                reach
            };
            let front = actions_visited(
                walk,
                id,
                player,
                edges,
                strategy,
                reach,
                entries,
                (k - 1) as nat,
            );
            let all = actions_visited(walk, id, player, edges, strategy, reach, entries, k);
            let below = visited(walk, edges[k - 1].to, after, front.entries);
            let street_front = choices_visited(
                road,
                spot,
                actions,
                strategy,
                reach,
                entries,
                (k - 1) as nat,
            );
            let street_all = choices_visited(road, spot, actions, strategy, reach, entries, k);
            let street_below = action_visited(
                road,
                spot,
                actions[k - 1],
                k - 1,
                after,
                street_front.entries,
            );
            &&& all.values == front.values.push(below.value)
            &&& all.entries == below.entries
            &&& street_all.values == street_front.values.push(street_below.value)
            &&& street_all.entries == street_below.entries
        }),
{
    S::measured_units();
    let share = strategy[k - 1];
    let own = reach.of_spec(player);
    let u = S::unit();
    assert(u <= S::limit()) by (nonlinear_arith)
        requires
            u * 0x1_0000_0000 <= S::limit(),
            u >= 2,
    ;
    share_in_steps(share, own);
    S::measured_order(own.times_spec(share), S::zero_spec());
    S::measured_order(own.times_spec(share), own);
}

} // verus!
