//! Solving a subgame over all streets in shards, and adding up what they learned.
use vstd::prelude::*;
use crate::cards::mask_of;
use crate::parallel::{map_in_parallel, thread_count};
use crate::scalar::Scalar;
use crate::subgame::{fault_of, Sides, SubgameBuildError, SubgameSpec};
use crate::subgame_cfr::{
    hands_of, mean_value, obstacle, turn_of, Hands, SubgameSolveRequest, Visit,
};
use crate::subgame_deals::{
    are_deals, are_live, deal_for, deals_spec, dealt, focused_deals, focused_spec, legal_deals,
    weighted_postflop_combos, LegalDeal, WeightedPostflopCombo, DRAW_START,
};
use crate::subgame_equity::is_live;
use crate::subgame_nodes::{average_strategy_weight, merged, Entry, InfoTable, Turn};
use crate::subgame_report::{
    combo_strategies, copy_cards, on_board, places_on_board, reported, strategies_match,
    SubgameCfrResult, SubgameComboStrategy,
};
use crate::subgame_streets::{
    spot_visited, street_start, visit_spot, ActionHistory, Road, RoadFacts, Spot, StreetSpot,
};
use crate::subgame_tree::NodeId;

verus! {

/// The hands of a game and the deals that are drawn from.
#[derive(Clone, Debug)]
pub struct DealPool<S> {
    pub oop_range: Vec<WeightedPostflopCombo<S>>,
    pub ip_range: Vec<WeightedPostflopCombo<S>>,
    pub deals: Vec<LegalDeal<S>>,
    pub focused: Vec<LegalDeal<S>>,
}

impl<S: Scalar> DealPool<S> {
    /// Whether the pool is that of a game and a request.
    pub open spec fn is_of(self, game: SubgameSpec<S>, request: SubgameSolveRequest<S>) -> bool {
        &&& hands_of(game) == (Hands { oop: self.oop_range@, ip: self.ip_range@ })
        &&& are_live(self.oop_range@, mask_of(game.board@))
        &&& are_live(self.ip_range@, mask_of(game.board@))
        &&& self.deals@ == deals_spec(self.oop_range@, self.ip_range@)
        &&& self.deals@.len() > 0
        &&& are_deals(self.oop_range@, self.ip_range@, self.deals@)
        &&& self.focused@ == focused_spec(
            self.oop_range@,
            self.ip_range@,
            self.deals@,
            request.focused_oop_combo_mask,
            request.focused_ip_combo_mask,
        )
        &&& are_deals(self.oop_range@, self.ip_range@, self.focused@)
    }
}

/// What a shard learned, and the values of its iterations added up.
#[derive(Clone, Debug)]
pub struct MultistreetCfrTrainer<S> {
    pub table: InfoTable<S>,
    pub utility: S,
}

/// The road of an iteration.
pub open spec fn road_of<S: Scalar>(
    game: SubgameSpec<S>,
    request: SubgameSolveRequest<S>,
    iteration: int,
) -> Road<S> {
    let hands = hands_of(game);
    let deals = deals_spec(hands.oop, hands.ip);
    let focused = focused_spec(
        hands.oop,
        hands.ip,
        deals,
        request.focused_oop_combo_mask,
        request.focused_ip_combo_mask,
    );
    let deal = dealt(deals, focused, request.focused_sampling_rate, iteration);
    Road {
        sizes: game.actions@,
        invested: game.pot.invested.oop,
        max_runouts: game.chance.max_runouts_spec() as nat,
        oop: hands.oop[deal.0 as int].combo,
        ip: hands.ip[deal.1 as int].combo,
        turn: turn_of(request.variant, iteration),
    }
}

/// The first decision of a game.
pub open spec fn first_spot<S: Scalar>(game: SubgameSpec<S>) -> Spot<S> {
    Spot { player: game.root_player, ..street_start(game.board@, game.pot) }
}

/// What `n` iterations from a start on give, their values added up.
pub open spec fn shard_run<S: Scalar>(
    game: SubgameSpec<S>,
    request: SubgameSolveRequest<S>,
    start: int,
    n: nat,
) -> Visit<S>
    decreases n,
{
    if n == 0 {
        Visit { value: S::zero_spec(), entries: Seq::empty() }
    } else {
        let front = shard_run(game, request, start, (n - 1) as nat);
        let visit = spot_visited(
            road_of(game, request, start + n - 1),
            first_spot(game),
            Sides { oop: S::one_spec(), ip: S::one_spec() },
            front.entries,
        );
        Visit { value: front.value.plus_spec(visit.value), entries: visit.entries }
    }
}

/// How many shards there are: one for each thread, no more than there are iterations.
pub open spec fn shard_count(threads: nat, iterations: nat) -> nat {
    let most = if iterations == 0 {
        1
    } else {
        iterations
    };
    if threads < most {
        threads
    } else {
        most
    }
}

/// How many iterations a shard has.
pub open spec fn shard_size(threads: nat, iterations: nat) -> int {
    let count = shard_count(threads, iterations) as int;
    (iterations + count - 1) / count
}

/// The first iteration of a shard.
pub open spec fn shard_start(threads: nat, iterations: nat, shard: int) -> int {
    let start = shard * shard_size(threads, iterations);
    if start < iterations {
        start
    } else {
        iterations as int
    }
}

/// What the first `n` shards give, added up.
pub open spec fn shards_run<S: Scalar>(
    game: SubgameSpec<S>,
    request: SubgameSolveRequest<S>,
    threads: nat,
    n: nat,
) -> Visit<S>
    decreases n,
{
    if n == 0 {
        Visit { value: S::zero_spec(), entries: Seq::empty() }
    } else {
        let front = shards_run(game, request, threads, (n - 1) as nat);
        let start = shard_start(threads, request.iterations as nat, n - 1);
        let end = shard_start(threads, request.iterations as nat, n as int);
        let shard = shard_run(game, request, start, (end - start) as nat);
        Visit {
            value: front.value.plus_spec(shard.value),
            entries: merged(front.entries, shard.entries, shard.entries.len()),
        }
    }
}

/// Whether a result is what solving a game over all streets gives.
pub open spec fn solves_streets<S: Scalar>(
    game: SubgameSpec<S>,
    request: SubgameSolveRequest<S>,
    done: Visit<S>,
    result: SubgameCfrResult<S>,
) -> bool {
    &&& result.iterations == request.iterations
    &&& result.expected_value_oop == mean_value(done.value, request.iterations)
    &&& result.root == NodeId(0)
    &&& result.node_count == on_board(done.entries, game.board@, done.entries.len()).len()
    &&& result.oop_combo_count == hands_of(game).oop.len()
    &&& result.ip_combo_count == hands_of(game).ip.len()
    &&& strategies_match(result.strategies@, reported(done.entries, game.board@, false))
}

impl<S: Scalar> MultistreetCfrTrainer<S> {
    /// What was learned, by value.
    pub open spec fn run(self) -> Visit<S> {
        Visit { value: self.utility, entries: self.table@ }
    }

    /// Nothing learned yet.
    pub fn new() -> (r: Self)
        ensures
            r.table.wf(),
            r.run() == (Visit { value: S::zero_spec(), entries: Seq::<Entry<S>>::empty() }),
    {
        MultistreetCfrTrainer { table: InfoTable::new(), utility: S::zero() }
    }

    /// Adds what another shard learned.
    pub fn merge_from(&mut self, other: &Self)
        requires
            old(self).table.wf(),
            other.table.wf(),
        ensures
            final(self).table.wf(),
            final(self).run() == (Visit {
                value: old(self).utility.plus_spec(other.utility),
                entries: merged(old(self).table@, other.table@, other.table@.len()),
            }),
    {
        self.table.merge_from(&other.table);
        self.utility = self.utility.plus(other.utility);
    }
}

impl<S: Scalar> SubgameSpec<S> {
    /// The hands and deals of the game, or why it cannot be solved.
    pub fn deal_pool(&self, request: SubgameSolveRequest<S>) -> (r: Result<
        DealPool<S>,
        SubgameBuildError,
    >)
        requires
            self.wf(),
        ensures
            match r {
                Ok(pool) => obstacle(*self) is None && fault_of(*self) is None && pool.is_of(
                    *self,
                    request,
                ),
                Err(error) => obstacle(*self) == Some(error),
            },
    {
        match self.validate() {
            Ok(_) => {},
            Err(fault) => {
                return Err(SubgameBuildError::Validation(fault));
            },
        }
        let oop_range: Vec<WeightedPostflopCombo<S>> = weighted_postflop_combos(
            &self.ranges.oop,
            &self.board,
        );
        let ip_range: Vec<WeightedPostflopCombo<S>> = weighted_postflop_combos(
            &self.ranges.ip,
            &self.board,
        );
        if oop_range.len() == 0 || ip_range.len() == 0 {
            return Err(SubgameBuildError::NoLegalDeals);
        }
        let deals: Vec<LegalDeal<S>> = legal_deals(&oop_range, &ip_range);
        if deals.len() == 0 {
            return Err(SubgameBuildError::NoLegalDeals);
        }
        let focused: Vec<LegalDeal<S>> = focused_deals(
            &oop_range,
            &ip_range,
            &deals,
            request.focused_oop_combo_mask,
            request.focused_ip_combo_mask,
        );
        Ok(DealPool { oop_range, ip_range, deals, focused })
    }

    /// Runs the iterations of a shard.
    pub fn train_shard(
        &self,
        request: SubgameSolveRequest<S>,
        pool: &DealPool<S>,
        start: usize,
        end: usize,
    ) -> (r: MultistreetCfrTrainer<S>)
        requires
            fault_of(*self) is None,
            pool.is_of(*self, request),
            start <= end,
            end + 64 <= usize::MAX,
            end + 64 + DRAW_START <= u64::MAX,
        ensures
            r.table.wf(),
            r.run() == shard_run(*self, request, start as int, (end - start) as nat),
    {
        let mut trainer: MultistreetCfrTrainer<S> = MultistreetCfrTrainer::new();
        let spot: StreetSpot<S> = StreetSpot {
            player: self.root_player,
            board: copy_cards(&self.board),
            pot: self.pot,
            raises: 0,
            history: ActionHistory::new(),
            left: usize::MAX,
        };
        assert(spot@ == first_spot(*self));
        for iteration in start..end
            invariant
                fault_of(*self) is None,
                pool.is_of(*self, request),
                start <= end,
                end + 64 <= usize::MAX,
                end + 64 + DRAW_START <= u64::MAX,
                spot@ == first_spot(*self),
                trainer.table.wf(),
                trainer.run() == shard_run(
                    *self,
                    request,
                    start as int,
                    (iteration - start) as nat,
                ),
        {
            let deal: (usize, usize) = deal_for(
                &pool.deals,
                &pool.focused,
                request.focused_sampling_rate,
                iteration,
                &pool.oop_range,
                &pool.ip_range,
            );
            let turn: Turn<S> = Turn {
                iteration: iteration + 1,
                average_weight: average_strategy_weight(request.variant, iteration + 1),
                variant: request.variant,
            };
            let road: RoadFacts<'_, S> = RoadFacts {
                sizes: &self.actions,
                invested: self.pot.invested.oop,
                max_runouts: self.chance.max_runouts(),
                oop: pool.oop_range[deal.0].combo,
                ip: pool.ip_range[deal.1].combo,
                turn,
            };
            proof {
                assert(is_live(self.board@, pool.oop_range@[deal.0 as int].combo));
                assert(is_live(self.board@, pool.ip_range@[deal.1 as int].combo));
                assert(road.road() == road_of(*self, request, iteration as int));
            }
            let value: S = visit_spot(
                &road,
                &spot,
                Sides::new(S::one(), S::one()),
                &mut trainer.table,
            );
            trainer.utility = trainer.utility.plus(value);
        }
        trainer
    }

    /// The result of what was learned over all streets.
    pub fn multistreet_result(
        &self,
        request: SubgameSolveRequest<S>,
        pool: &DealPool<S>,
        trainer: &MultistreetCfrTrainer<S>,
    ) -> (r: SubgameCfrResult<S>)
        requires
            pool.is_of(*self, request),
            trainer.table.wf(),
        ensures
            solves_streets(*self, request, trainer.run(), r),
    {
        let places: Vec<usize> = places_on_board(&trainer.table, &self.board);
        let strategies: Vec<SubgameComboStrategy<S>> = combo_strategies(
            &trainer.table,
            &self.board,
            false,
        );
        SubgameCfrResult {
            iterations: request.iterations,
            expected_value_oop: if request.iterations == 0 {
                S::zero()
            } else {
                trainer.utility.over(S::from_count(request.iterations))
            },
            root: NodeId(0),
            node_count: places.len(),
            oop_combo_count: pool.oop_range.len(),
            ip_combo_count: pool.ip_range.len(),
            strategies,
        }
    }

    /// Solves the subgame over all streets, in as many shards as there are threads.
    pub fn solve_multistreet_cfr_with_request(&self, request: SubgameSolveRequest<S>) -> (r: Result<
        SubgameCfrResult<S>,
        SubgameBuildError,
    >)
        requires
            self.wf(),
            request.iterations + 64 <= usize::MAX,
            request.iterations + 64 + DRAW_START <= u64::MAX,
        ensures
            match r {
                Ok(result) => obstacle(*self) is None && exists|threads: nat|
                    threads > 0 && #[trigger] solves_in_shards(*self, request, threads, result),
                Err(error) => obstacle(*self) == Some(error),
            },
    {
        let threads: usize = thread_count();
        let solved: Result<SubgameCfrResult<S>, SubgameBuildError> =
            self.solve_multistreet_cfr_in_shards(request, threads);
        assert(solved is Ok ==> solves_in_shards(*self, request, threads as nat, solved->Ok_0));
        solved
    }

    /// Solves the subgame over all streets for a number of threads. The shards run in parallel; what
    /// they learned is added up in their order.
    pub fn solve_multistreet_cfr_in_shards(&self, request: SubgameSolveRequest<S>, threads: usize) -> (r:
        Result<SubgameCfrResult<S>, SubgameBuildError>)
        requires
            self.wf(),
            threads > 0,
            request.iterations + 64 <= usize::MAX,
            request.iterations + 64 + DRAW_START <= u64::MAX,
        ensures
            match r {
                Ok(result) => obstacle(*self) is None && solves_in_shards(
                    *self,
                    request,
                    threads as nat,
                    result,
                ),
                Err(error) => obstacle(*self) == Some(error),
            },
    {
        let pool: DealPool<S> = match self.deal_pool(request) {
            Ok(pool) => pool,
            Err(error) => {
                return Err(error);
            },
        };
        let iterations: usize = request.iterations;
        let bounds: Vec<(usize, usize)> = shard_bounds(threads, iterations);
        let ghost all = bounds@;
        let train = |bound: (usize, usize)| -> (part: MultistreetCfrTrainer<S>)
            requires
                bound.0 <= bound.1 <= iterations,
            ensures
                part.table.wf(),
                part.run() == shard_run(
                    *self,
                    request,
                    bound.0 as int,
                    (bound.1 - bound.0) as nat,
                ),
            { self.train_shard(request, &pool, bound.0, bound.1) };
        let parts: Vec<MultistreetCfrTrainer<S>> = map_in_parallel(bounds, train);
        let mut trainer: MultistreetCfrTrainer<S> = MultistreetCfrTrainer::new();
        for n in 0..parts.len()
            invariant
                parts@.len() == all.len(),
                all == bounds_spec(threads as nat, iterations as nat),
                iterations == request.iterations,
                forall|i: int|
                    0 <= i < parts@.len() ==> (#[trigger] parts@[i]).table.wf() && parts@[i].run()
                        == shard_run(
                        *self,
                        request,
                        all[i].0 as int,
                        (all[i].1 - all[i].0) as nat,
                    ),
                forall|i: int|
                    0 <= i < all.len() ==> (#[trigger] all[i]).0 <= all[i].1 <= iterations,
                trainer.table.wf(),
                trainer.run() == shards_run(*self, request, threads as nat, n as nat),
        {
            assert(all[n as int].0 <= all[n as int].1);
            trainer.merge_from(&parts[n]);
        }
        Ok(self.multistreet_result(request, &pool, &trainer))
    }
}

/// Whether a result is what solving a game over all streets in shards gives.
pub open spec fn solves_in_shards<S: Scalar>(
    game: SubgameSpec<S>,
    request: SubgameSolveRequest<S>,
    threads: nat,
    result: SubgameCfrResult<S>,
) -> bool {
    solves_streets(
        game,
        request,
        shards_run(game, request, threads, shard_count(threads, request.iterations as nat)),
        result,
    )
}

/// The iterations of all shards, each from its first to before its last.
pub open spec fn bounds_spec(threads: nat, iterations: nat) -> Seq<(usize, usize)> {
    Seq::new(
        shard_count(threads, iterations),
        |i: int|
            (
                shard_start(threads, iterations, i) as usize,
                shard_start(threads, iterations, i + 1) as usize,
            ),
    )
}

/// The iterations of all shards, each from its first to before its last.
pub fn shard_bounds(threads: usize, iterations: usize) -> (r: Vec<(usize, usize)>)
    requires
        threads > 0,
    ensures
        r@ == bounds_spec(threads as nat, iterations as nat),
        forall|i: int| 0 <= i < r@.len() ==> (#[trigger] r@[i]).0 <= r@[i].1 <= iterations,
{
    let most: usize = if iterations == 0 {
        1
    } else {
        iterations
    };
    let count: usize = if threads < most {
        threads
    } else {
        most
    };
    let size: usize = if iterations % count == 0 {
        iterations / count
    } else {
        proof {
            vstd::arithmetic::div_mod::lemma_div_decreases(iterations as int, count as int);
        }
        iterations / count + 1
    };
    proof {
        lemma_rounded_up(iterations as int, count as int);
        assert(size == shard_size(threads as nat, iterations as nat));
        assert(0 * (size as int) == 0);
    }
    let mut bounds: Vec<(usize, usize)> = Vec::new();
    let mut start: usize = 0;
    for shard in 0..count
        invariant
            size == shard_size(threads as nat, iterations as nat),
            count == shard_count(threads as nat, iterations as nat),
            start <= iterations,
            start == shard_start(threads as nat, iterations as nat, shard as int),
            bounds@ =~= bounds_spec(threads as nat, iterations as nat).take(shard as int),
            forall|i: int|
                0 <= i < bounds@.len() ==> (#[trigger] bounds@[i]).0 <= bounds@[i].1 <= iterations,
    {
        let end: usize = if iterations - start > size {
            start + size
        } else {
            iterations
        };
        proof {
            assert((shard + 1) * size == shard * size + size) by (nonlinear_arith);
            assert(shard * size >= 0) by (nonlinear_arith);
            assert(end == shard_start(threads as nat, iterations as nat, shard + 1));
            let whole = bounds_spec(threads as nat, iterations as nat);
            assert(whole.take(shard + 1) =~= whole.take(shard as int).push(whole[shard as int]));
        }
        bounds.push((start, end));
        start = end;
    }
    assert(bounds@ =~= bounds_spec(threads as nat, iterations as nat));
    bounds
}

proof fn lemma_rounded_up(total: int, count: int)
    requires
        0 <= total,
        0 < count,
    ensures
        (total + count - 1) / count == (if total % count == 0 {
            total / count
        } else {
            total / count + 1
        }),
{
    let q = total / count;
    let r = total % count;
    vstd::arithmetic::div_mod::lemma_fundamental_div_mod(total, count);
    if r == 0 {
        vstd::arithmetic::div_mod::lemma_fundamental_div_mod_converse(
            total + count - 1,
            count,
            q,
            count - 1,
        );
    } else {
        assert((q + 1) * count == q * count + count) by (nonlinear_arith);
        assert(q * count == count * q) by (nonlinear_arith);
        vstd::arithmetic::div_mod::lemma_fundamental_div_mod_converse(
            total + count - 1,
            count,
            q + 1,
            r - 1,
        );
    }
}

/// The shards of a run follow one another and end with the last iteration.
pub proof fn shards_cover_the_run(threads: nat, iterations: nat, shard: int)
    requires
        threads > 0,
        0 <= shard,
    ensures
        shard_start(threads, iterations, 0) == 0,
        shard_start(threads, iterations, shard) <= shard_start(threads, iterations, shard + 1),
        shard_start(threads, iterations, shard_count(threads, iterations) as int) == iterations,
{
    let count = shard_count(threads, iterations) as int;
    let size = shard_size(threads, iterations);
    lemma_rounded_up(iterations as int, count);
    vstd::arithmetic::div_mod::lemma_fundamental_div_mod(iterations as int, count);
    let q = iterations as int / count;
    assert(q >= 0) by {
        vstd::arithmetic::div_mod::lemma_div_pos_is_pos(iterations as int, count);
    }
    assert((shard + 1) * size == shard * size + size) by (nonlinear_arith);
    assert(0 * size == 0);
    assert(count * (q + 1) == count * q + count) by (nonlinear_arith);
    assert(count * size >= iterations);
}

} // verus!
