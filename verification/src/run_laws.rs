//! What iterations and shards of a run add up to, in whole numbers of steps.
use vstd::prelude::*;
use crate::measure::MeasuredScalar;
use crate::river::{sampled, RiverCombo};
use crate::river_cfr::{after_check, trained};
use crate::subgame::{Sides, SubgameSpec};
use crate::subgame_cfr::{dealt_hands, iterated, turn_of, visited, SubgameSolveRequest, Walk};
use crate::subgame_nodes::{entry_added, fresh, latest, lemma_latest, merged, Entry};
use crate::subgame_solve::{first_spot, road_of, shard_run, shard_start, shards_run};
use crate::subgame_streets::spot_visited;
use crate::subgame_tree::tree_spec;

verus! {

/// An iteration more adds what its visit of the tree is worth, with both players sure to come there and what was learned
/// before it, and hands on what it learned.
pub proof fn iterations_add_up<S: MeasuredScalar>(
    game: SubgameSpec<S>,
    request: SubgameSolveRequest<S>,
    n: nat,
)
    requires
        n > 0,
    ensures
        iterated(game, request, 0).value.steps() == 0,
        ({
            let front = iterated(game, request, (n - 1) as nat);
            let done = iterated(game, request, n);
            let visit = visited(
                Walk {
                    tree: tree_spec(game.actions@, game.root_player, game.pot),
                    board: game.board@,
                    invested: game.pot.invested.oop,
                    hands: dealt_hands(game, request, n - 1),
                    turn: turn_of(request.variant, n - 1),
                },
                0,
                Sides { oop: S::one_spec(), ip: S::one_spec() },
                front.entries,
            );
            &&& done.entries == visit.entries
            &&& -S::limit() <= front.value.steps() + visit.value.steps() <= S::limit()
                ==> done.value.steps() - front.value.steps() == visit.value.steps()
        }),
{
    S::measured_units();
    let front = iterated(game, request, (n - 1) as nat);
    let visit = visited(
        Walk {
            tree: tree_spec(game.actions@, game.root_player, game.pot),
            board: game.board@,
            invested: game.pot.invested.oop,
            hands: dealt_hands(game, request, n - 1),
            turn: turn_of(request.variant, n - 1),
        },
        0,
        Sides { oop: S::one_spec(), ip: S::one_spec() },
        front.entries,
    );
    S::measured_sum(front.value, visit.value);
}

/// An iteration more of a shard adds what its visit of the streets is worth, and hands on what it learned. A shard more adds
/// what it is worth to the others.
pub proof fn shards_add_up<S: MeasuredScalar>(
    game: SubgameSpec<S>,
    request: SubgameSolveRequest<S>,
    threads: nat,
    start: int,
    n: nat,
)
    requires
        n > 0,
    ensures
        shard_run(game, request, start, 0).value.steps() == 0,
        ({
            let front = shard_run(game, request, start, (n - 1) as nat);
            let done = shard_run(game, request, start, n);
            let visit = spot_visited(
                road_of(game, request, start + n - 1),
                first_spot(game),
                Sides { oop: S::one_spec(), ip: S::one_spec() },
                front.entries,
            );
            &&& done.entries == visit.entries
            &&& -S::limit() <= front.value.steps() + visit.value.steps() <= S::limit()
                ==> done.value.steps() - front.value.steps() == visit.value.steps()
        }),
        ({
            let front = shards_run(game, request, threads, (n - 1) as nat);
            let first = shard_start(threads, request.iterations as nat, n - 1);
            let end = shard_start(threads, request.iterations as nat, n as int);
            let shard = shard_run(game, request, first, (end - first) as nat);
            let done = shards_run(game, request, threads, n);
            -S::limit() <= front.value.steps() + shard.value.steps() <= S::limit() ==> done.value.steps()
                - front.value.steps() == shard.value.steps()
        }),
{
    S::measured_units();
    let front = shard_run(game, request, start, (n - 1) as nat);
    let visit = spot_visited(
        road_of(game, request, start + n - 1),
        first_spot(game),
        Sides { oop: S::one_spec(), ip: S::one_spec() },
        front.entries,
    );
    S::measured_sum(front.value, visit.value);
    let before = shards_run(game, request, threads, (n - 1) as nat);
    let first = shard_start(threads, request.iterations as nat, n - 1);
    let end = shard_start(threads, request.iterations as nat, n as int);
    let shard = shard_run(game, request, first, (end - first) as nat);
    S::measured_sum(before.value, shard.value);
}

/// An iteration more on a river adds what the drawn deal is worth after a check, with both players sure to come there.
pub proof fn river_iterations_add_up<S: MeasuredScalar>(
    combos: Seq<RiverCombo>,
    pot: S,
    bet: S,
    deals: Seq<(usize, usize)>,
    n: nat,
)
    requires
        n > 0,
    ensures
        trained(combos, pot, bet, deals, 0).value.steps() == 0,
        ({
            let front = trained(combos, pot, bet, deals, (n - 1) as nat);
            let done = trained(combos, pot, bet, deals, n);
            let deal = deals[sampled(n - 1, deals.len() as int)];
            let step = after_check(
                combos,
                pot,
                bet,
                front.tables,
                deal.0 as int,
                deal.1 as int,
                (S::one_spec(), S::one_spec()),
            );
            &&& done.tables == step.tables
            &&& -S::limit() <= front.value.steps() + step.value.steps() <= S::limit()
                ==> done.value.steps() - front.value.steps() == step.value.steps()
        }),
{
    S::measured_units();
    let front = trained(combos, pot, bet, deals, (n - 1) as nat);
    let deal = deals[sampled(n - 1, deals.len() as int)];
    let step = after_check(
        combos,
        pot,
        bet,
        front.tables,
        deal.0 as int,
        deal.1 as int,
        (S::one_spec(), S::one_spec()),
    );
    S::measured_sum(front.value, step.value);
}

/// What two shards learned of a decision is what they learned together; what only one knows is kept.
pub proof fn shards_learn_together<S: MeasuredScalar>(left: Entry<S>, right: Entry<S>, i: int)
    requires
        0 <= i < left.regrets.len(),
        left.regrets.len() == left.sums.len() == right.regrets.len() == right.sums.len(),
        -S::limit() <= left.regrets[i].steps() + right.regrets[i].steps() <= S::limit(),
        -S::limit() <= left.sums[i].steps() + right.sums[i].steps() <= S::limit(),
    ensures
        ({
            let both = entry_added(left, right);
            &&& both.regrets.len() == left.regrets.len()
            &&& both.sums.len() == left.sums.len()
            &&& both.regrets[i].steps() == left.regrets[i].steps() + right.regrets[i].steps()
            &&& both.sums[i].steps() == left.sums[i].steps() + right.sums[i].steps()
            &&& both.key == left.key
            &&& both.facts == left.facts
        }),
{
    S::measured_sum(left.regrets[i], right.regrets[i]);
    S::measured_sum(left.sums[i], right.sums[i]);
}

/// Merging in an entry more changes the latest entry of its key only, or brings in a new one behind the others.
pub proof fn merging_keeps_other_entries<S: MeasuredScalar>(
    left: Seq<Entry<S>>,
    right: Seq<Entry<S>>,
    n: nat,
    i: int,
)
    requires
        0 < n <= right.len(),
        0 <= i < merged(left, right, (n - 1) as nat).len(),
    ensures
        ({
            let front = merged(left, right, (n - 1) as nat);
            let after = merged(left, right, n);
            let place = latest(front, right[n - 1].key, front.len());
            &&& place < 0 ==> after.len() == front.len() + 1 && after[i] == front[i]
            &&& place >= 0 && i != place ==> after[i] == front[i]
            &&& place == i ==> after[i] == entry_added(front[i], right[n - 1])
            &&& place < 0 ==> after.last() == entry_added(
                fresh(right[n - 1].key, right[n - 1].facts),
                right[n - 1],
            )
        }),
{
    let front = merged(left, right, (n - 1) as nat);
    lemma_latest(front, right[n - 1].key, front.len());
}

} // verus!
