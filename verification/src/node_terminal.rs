//! What the ends of a tree are worth to one player, against the other player's reach.
use vstd::prelude::*;
use crate::cards::Card;
use crate::cfr_math::{zeros, zeros_spec};
use crate::fold_weights::{live_indices, opponent_weights_for_live, scaled_weights};
use crate::node_setup::{
    folds, payoff, runouts, terminal_runout_count_for_live_combo, NodeLocalFoldCache,
    NodeLocalTerminalCache, NodeSetup,
};
use crate::node_sweep::{
    swept_values, terminal_side_range_targets_sorted_accumulate,
    terminal_side_river_targets_sorted_accumulate,
};
use crate::range::ComboWeight;
use crate::scalar::Scalar;
use crate::side_cache::{places_apart_from_zero, terminal_side_cached_values, TerminalSideValueCache};
use crate::terminal_cache::{
    board_added, compact_values, finished, no_sums, LiveReach, PreparedComboTarget, SideAccumulator,
    SideSums, TerminalEvalCache,
};
use crate::tree::{Player, PublicNode, PublicNodeKind, TerminalReason};

verus! {

/// The reach of the first `n` targets, by their places on the board.
pub open spec fn assigned_reach<S: Scalar>(
    targets: Seq<PreparedComboTarget>,
    reach: Seq<S>,
    count: nat,
    n: nat,
) -> Seq<S>
    decreases n,
{
    if n == 0 {
        zeros_spec::<S>(count)
    } else {
        assigned_reach(targets, reach, count, (n - 1) as nat).update(
            targets[n - 1].board_index as int,
            reach[targets[n - 1].range_index as int],
        )
    }
}

/// The reach of a range's hands, by their places on the board.
pub fn reach_on_targets<S: Scalar>(targets: &[PreparedComboTarget], reach: &[S], count: usize) -> (r: Vec<
    S,
>)
    requires
        forall|k: int|
            0 <= k < targets@.len() ==> {
                let target = #[trigger] targets@[k];
                target.range_index < reach@.len() && target.board_index < count
            },
    ensures
        r@ == assigned_reach(targets@, reach@, count as nat, targets@.len()),
        r@.len() == count,
{
    let mut out: Vec<S> = zeros(count);
    for k in 0..targets.len()
        invariant
            forall|j: int|
                0 <= j < targets@.len() ==> {
                    let target = #[trigger] targets@[j];
                    target.range_index < reach@.len() && target.board_index < count
                },
            out@ == assigned_reach(targets@, reach@, count as nat, k as nat),
            out@.len() == count,
    {
        let target: PreparedComboTarget = targets[k];
        proof {
            assert(targets@[k as int].range_index < reach@.len());
        }
        out.set(target.board_index as usize, reach[target.range_index]);
    }
    out
}

/// Values, each divided.
pub open spec fn divided<S: Scalar>(values: Seq<S>, divisor: S) -> Seq<S> {
    Seq::new(values.len(), |i: int| values[i].over_spec(divisor))
}

fn divide<S: Scalar>(values: &Vec<S>, divisor: S) -> (r: Vec<S>)
    ensures
        r@ == divided(values@, divisor),
{
    let mut out: Vec<S> = Vec::new();
    for i in 0..values.len()
        invariant
            out@ =~= divided(values@, divisor).take(i as int),
    {
        out.push(values[i].over(divisor));
    }
    proof {
        assert(divided(values@, divisor).take(values@.len() as int) =~= divided(values@, divisor));
    }
    out
}

/// The places of so many hands.
pub open spec fn own_places(count: nat) -> Seq<usize> {
    Seq::new(count, |i: int| i as usize)
}

fn places_of(count: usize) -> (r: Vec<usize>)
    ensures
        r@ == own_places(count as nat),
{
    let mut list: Vec<usize> = Vec::new();
    for i in 0..count
        invariant
            list@ =~= own_places(i as nat),
    {
        list.push(i);
    }
    list
}

/// What a hand gets from the first `n` of the other player's hands off the flop.
pub open spec fn payoff_sum<S: Scalar>(row: Seq<S>, reach: Seq<S>, live: Seq<usize>, n: nat) -> S
    decreases n,
{
    if n == 0 {
        S::zero_spec()
    } else {
        payoff_sum(row, reach, live, (n - 1) as nat).plus_spec(
            row[live[n - 1] as int].times_spec(reach[live[n - 1] as int]),
        )
    }
}

/// What the first `n` hands off the flop get, scaled; the others get nothing.
pub open spec fn payoffs_filled<S: Scalar>(
    rows: Seq<Seq<S>>,
    reach: Seq<S>,
    own_live: Seq<usize>,
    opponent_live: Seq<usize>,
    scale: S,
    n: nat,
) -> Seq<S>
    decreases n,
{
    if n == 0 {
        zeros_spec::<S>(rows.len())
    } else {
        let own = own_live[n - 1] as int;
        payoffs_filled(rows, reach, own_live, opponent_live, scale, (n - 1) as nat).update(
            own,
            payoff_sum(rows[own], reach, opponent_live, opponent_live.len()).times_spec(scale),
        )
    }
}

/// What each hand off the flop gets, scaled; the others get nothing.
fn allin_oracle_matrix_vector<S: Scalar>(
    payoffs: &Vec<Vec<S>>,
    opponent_reach: &[S],
    own_live_indices: &[usize],
    opponent_live_indices: &[usize],
    scale: S,
    Ghost(rows): Ghost<Seq<Seq<S>>>,
) -> (r: Vec<S>)
    requires
        rows.len() == payoffs@.len(),
        forall|i: int|
            0 <= i < rows.len() ==> (#[trigger] payoffs@[i])@ == rows[i] && rows[i].len()
                == opponent_reach@.len(),
        forall|k: int|
            0 <= k < own_live_indices@.len() ==> #[trigger] own_live_indices@[k] < payoffs@.len(),
        forall|k: int|
            0 <= k < opponent_live_indices@.len() ==> #[trigger] opponent_live_indices@[k]
                < opponent_reach@.len(),
    ensures
        r@ == payoffs_filled(
            rows,
            opponent_reach@,
            own_live_indices@,
            opponent_live_indices@,
            scale,
            own_live_indices@.len(),
        ),
        r@.len() == rows.len(),
{
    let mut out: Vec<S> = zeros(payoffs.len());
    for k in 0..own_live_indices.len()
        invariant
            rows.len() == payoffs@.len(),
            forall|i: int|
                0 <= i < rows.len() ==> (#[trigger] payoffs@[i])@ == rows[i] && rows[i].len()
                    == opponent_reach@.len(),
            forall|k: int|
                0 <= k < own_live_indices@.len() ==> #[trigger] own_live_indices@[k] < payoffs@.len(),
            forall|k: int|
                0 <= k < opponent_live_indices@.len() ==> #[trigger] opponent_live_indices@[k]
                    < opponent_reach@.len(),
            out@ == payoffs_filled(
                rows,
                opponent_reach@,
                own_live_indices@,
                opponent_live_indices@,
                scale,
                k as nat,
            ),
            out@.len() == rows.len(),
    {
        let own: usize = own_live_indices[k];
        proof {
            assert(own_live_indices@[k as int] < payoffs@.len());
            assert(payoffs@[own as int]@ == rows[own as int]);
        }
        let row: &Vec<S> = &payoffs[own];
        let mut value: S = S::zero();
        for m in 0..opponent_live_indices.len()
            invariant
                row@ == rows[own as int],
                row@.len() == opponent_reach@.len(),
                forall|k: int|
                    0 <= k < opponent_live_indices@.len() ==> #[trigger] opponent_live_indices@[k]
                        < opponent_reach@.len(),
                value == payoff_sum(row@, opponent_reach@, opponent_live_indices@, m as nat),
        {
            let opponent: usize = opponent_live_indices[m];
            proof {
                assert(opponent_live_indices@[m as int] < opponent_reach@.len());
            }
            value = value.plus(row[opponent].times(opponent_reach[opponent]));
        }
        out.set(own, value.times(scale));
    }
    out
}

/// The payoffs of a player's hands against those of the other over finished boards.
pub open spec fn payoff_grid<S: Scalar>(
    caches: Seq<TerminalEvalCache>,
    player: Player,
    own: nat,
    opponents: nat,
) -> Seq<Seq<S>> {
    Seq::new(
        own,
        |i: int|
            Seq::new(opponents, |j: int| payoff::<S>(caches, player, i, j, caches.len())),
    )
}

impl<S: Scalar> NodeSetup<S> {
    /// The hands of a player.
    pub open spec fn hands(self, player: Player) -> Seq<ComboWeight<S>> {
        match player {
            Player::Oop => self.base.oop(),
            Player::Ip => self.base.ip(),
        }
    }

    /// What a fold is worth to a player's hands: the pot for each hand of the other player that they can
    /// be up against, lost by the player who folded.
    pub open spec fn node_fold(self, board: Seq<Card>, pot: u32, folding: Player, player: Player, reach: Seq<S>) -> Seq<
        S,
    > {
        let chips = S::from_u32_spec(pot);
        scaled_weights(
            self.hands(player),
            self.hands(player.other_spec()),
            reach,
            board,
            if folding == player {
                chips.negate_spec()
            } else {
                chips
            },
        )
    }

    /// Values summed over the first `n` of finished boards, each board by sweeps.
    pub open spec fn boards_swept(self, player: Player, boards: Seq<usize>, reach: Seq<S>, pot: S, n: nat) -> Seq<
        S,
    >
        decreases n,
    {
        if n == 0 {
            zeros_spec::<S>(self.base.combos(player))
        } else {
            let k = boards[n - 1] as int;
            let cache = self.base.terminal_cache@[k];
            swept_values(
                self.terminal_targets@[k].hands(cache, player.other_spec()),
                reach,
                self.terminal_targets@[k].hands(cache, player),
                pot,
                self.boards_swept(player, boards, reach, pot, (n - 1) as nat),
            )
        }
    }

    /// The other player's reach on a finished board.
    pub open spec fn reach_on(self, k: int, player: Player, reach: Seq<S>) -> Seq<S> {
        let cache = self.base.terminal_cache@[k];
        let targets = cache.targets(player.other_spec());
        assigned_reach(targets, reach, cache.prepared.count(), targets.len())
    }

    /// Values summed over the first `n` of finished boards, each board by prefix sums, with how often
    /// each hand can be held.
    pub open spec fn boards_gathered(self, player: Player, boards: Seq<usize>, reach: Seq<S>, pot: S, n: nat) -> SideSums<
        S,
    >
        decreases n,
    {
        if n == 0 {
            no_sums(self.base.combos(player))
        } else {
            let k = boards[n - 1] as int;
            let cache = self.base.terminal_cache@[k];
            board_added(
                self.boards_gathered(player, boards, reach, pot, (n - 1) as nat),
                Some(
                    compact_values(
                        cache.prepared,
                        cache.indices(player),
                        self.reach_on(k, player, reach),
                        Seq::empty(),
                        false,
                    ),
                ),
                cache.indices(player),
                own_places(self.base.combos(player)),
                pot,
            )
        }
    }

    /// What a comparison of hands is worth to a player's hands: by sweeps over every board that the
    /// state's can become, divided by how many of these a hand leaves; or by prefix sums over them,
    /// divided by how many were counted.
    pub open spec fn node_showdown(self, i: int, player: Player, reach: Seq<S>, by_prefix: bool) -> Seq<S> {
        let boards = self.boards_of(i);
        let pot = S::from_u32_spec(self.node(i).state.pot);
        if by_prefix {
            finished(self.boards_gathered(player, boards, reach, pot, boards.len()))
        } else {
            divided(
                self.boards_swept(player, boards, reach, pot, boards.len()),
                runouts::<S>(self.states@[i].board@.len()),
            )
        }
    }

    /// What an all-in on the flop is worth to a player's hands, by payoffs that were worked out before.
    pub open spec fn node_allin(self, i: int, player: Player, reach: Seq<S>) -> Seq<S> {
        let (own, opponents) = (self.hands(player), self.hands(player.other_spec()));
        let board = self.base.flop_board@;
        let live = live_indices(own, board, own.len());
        payoffs_filled(
            payoff_grid::<S>(self.base.terminal_cache@, player, own.len(), opponents.len()),
            reach,
            live,
            live_indices(opponents, board, opponents.len()),
            S::from_u32_spec(self.node(i).state.pot).over_spec(runouts::<S>(3)),
            live.len(),
        )
    }

    /// What a state without followers is worth to a player's hands.
    pub open spec fn node_end(self, i: int, player: Player, reach: Seq<S>, by_prefix: bool) -> Seq<S> {
        if folds(self.node(i)) {
            self.node_fold(
                self.states@[i].board@,
                self.node(i).state.pot,
                self.node(i).state.player,
                player,
                reach,
            )
        } else if self.asks_oracle(i) {
            self.node_allin(i, player, reach)
        } else {
            self.node_showdown(i, player, reach, by_prefix)
        }
    }

    fn fold_side(&self, i: usize, player: Player, reach: &Vec<S>) -> (r: Vec<S>)
        requires
            self.wf(),
            i < self.states@.len(),
            folds(self.node(i as int)),
            reach@.len() == self.hands(player.other_spec()).len(),
        ensures
            r@ == self.node_fold(
                self.states@[i as int].board@,
                self.node(i as int).state.pot,
                self.node(i as int).state.player,
                player,
                reach@,
            ),
            r@.len() == self.base.combos(player),
    {
        proof {
            assert(self.state_fits(i as int));
        }
        let node: &PublicNode = &self.base.tree.nodes[self.states[i].node_id];
        let place: usize = match self.fold_cache_index[i] {
            Some(place) => place,
            None => 0,
        };
        let lists: &NodeLocalFoldCache = &self.fold_cache[place];
        let chips: S = S::from_u32(node.state.pot);
        let scale: S = if node.state.player == player {
            chips.negate()
        } else {
            chips
        };
        match player {
            Player::Oop => opponent_weights_for_live(
                reach,
                &self.base.oop_same_ip_combo_indices,
                &lists.oop_live_targets,
                &lists.ip_live_targets,
                scale,
                self.base.oop_range.combos(),
                self.base.ip_range.combos(),
                &self.states[i].board,
            ),
            Player::Ip => opponent_weights_for_live(
                reach,
                &self.base.ip_same_oop_combo_indices,
                &lists.ip_live_targets,
                &lists.oop_live_targets,
                scale,
                self.base.ip_range.combos(),
                self.base.oop_range.combos(),
                &self.states[i].board,
            ),
        }
    }

    fn allin_oracle_side(&self, i: usize, player: Player, reach: &Vec<S>) -> (r: Vec<S>)
        requires
            self.wf(),
            i < self.states@.len(),
            self.asks_oracle(i as int),
            reach@.len() == self.hands(player.other_spec()).len(),
        ensures
            r@ == self.node_allin(i as int, player, reach@),
            r@.len() == self.base.combos(player),
    {
        proof {
            assert(self.state_fits(i as int));
        }
        let node: &PublicNode = &self.base.tree.nodes[self.states[i].node_id];
        let ghost rows = payoff_grid::<S>(
            self.base.terminal_cache@,
            player,
            self.hands(player).len(),
            self.hands(player.other_spec()).len(),
        );
        match &self.allin_oracle {
            Some(oracle) => {
                let scale: S = S::from_u32(node.state.pot).over(oracle.divisor);
                match player {
                    Player::Oop => {
                        proof {
                            assert forall|m: int| 0 <= m < rows.len() implies (
                            #[trigger] oracle.oop_payoffs@[m])@ == rows[m] && rows[m].len()
                                == reach@.len() by {
                                assert(oracle.oop_payoffs@[m]@ =~= rows[m]);
                            }
                        }
                        allin_oracle_matrix_vector(
                            &oracle.oop_payoffs,
                            reach,
                            &oracle.oop_live_indices,
                            &oracle.ip_live_indices,
                            scale,
                            Ghost(rows),
                        )
                    },
                    Player::Ip => {
                        proof {
                            assert forall|m: int| 0 <= m < rows.len() implies (
                            #[trigger] oracle.ip_payoffs@[m])@ == rows[m] && rows[m].len()
                                == reach@.len() by {
                                assert(oracle.ip_payoffs@[m]@ =~= rows[m]);
                            }
                        }
                        allin_oracle_matrix_vector(
                            &oracle.ip_payoffs,
                            reach,
                            &oracle.ip_live_indices,
                            &oracle.oop_live_indices,
                            scale,
                            Ghost(rows),
                        )
                    },
                }
            },
            None => Vec::new(),
        }
    }

    #[verifier::spinoff_prover]
    #[verifier::rlimit(100)]
    fn showdown_by_sweeps(&self, i: usize, player: Player, reach: &Vec<S>) -> (r: Vec<S>)
        requires
            self.wf(),
            i < self.states@.len(),
            reach@.len() == self.hands(player.other_spec()).len(),
        ensures
            r@ == self.node_showdown(i as int, player, reach@, false),
            r@.len() == self.base.combos(player),
    {
        proof {
            assert(self.state_fits(i as int));
        }
        let node: &PublicNode = &self.base.tree.nodes[self.states[i].node_id];
        let pot: S = S::from_u32(node.state.pot);
        let boards: &Vec<usize> = &self.terminal_cache_indices[i];
        let count: usize = match player {
            Player::Oop => self.base.oop_range.combos().len(),
            Player::Ip => self.base.ip_range.combos().len(),
        };
        let is_river: bool = self.states[i].board.len() == 5;
        let mut out: Vec<S> = zeros(count);
        for n in 0..boards.len()
            invariant
                self.wf(),
                boards@ == self.boards_of(i as int),
                forall|k: int|
                    0 <= k < boards@.len() ==> #[trigger] boards@[k] < self.base.terminal_cache@.len(),
                reach@.len() == self.hands(player.other_spec()).len(),
                out@.len() == self.base.combos(player),
                out@ == self.boards_swept(player, boards@, reach@, pot, n as nat),
        {
            let k: usize = boards[n];
            proof {
                assert(boards@[n as int] < self.base.terminal_cache@.len());
            }
            let cache: &TerminalEvalCache = &self.base.terminal_cache[k];
            let lists: &NodeLocalTerminalCache = &self.terminal_targets[k];
            proof {
                assert(self.base.terminal_cache@[k as int].fits(self.base.oop(), self.base.ip()));
                assert(self.terminal_targets@[k as int].fits(
                    self.base.terminal_cache@[k as int],
                    self.base.oop().len(),
                    self.base.ip().len(),
                ));
            }
            if is_river {
                match player {
                    Player::Oop => terminal_side_river_targets_sorted_accumulate(
                        &lists.ip_river_targets_sorted,
                        reach,
                        &lists.oop_river_targets_sorted,
                        pot,
                        &mut out,
                    ),
                    Player::Ip => terminal_side_river_targets_sorted_accumulate(
                        &lists.oop_river_targets_sorted,
                        reach,
                        &lists.ip_river_targets_sorted,
                        pot,
                        &mut out,
                    ),
                }
            } else {
                match player {
                    Player::Oop => terminal_side_range_targets_sorted_accumulate(
                        &cache.prepared,
                        &lists.ip_targets_sorted,
                        reach,
                        &lists.oop_targets_sorted,
                        pot,
                        &mut out,
                    ),
                    Player::Ip => terminal_side_range_targets_sorted_accumulate(
                        &cache.prepared,
                        &lists.oop_targets_sorted,
                        reach,
                        &lists.ip_targets_sorted,
                        pot,
                        &mut out,
                    ),
                }
            }
        }
        divide(&out, terminal_runout_count_for_live_combo(self.states[i].board.len()))
    }

    fn showdown_by_prefix(
        &self,
        i: usize,
        player: Player,
        reach: &Vec<S>,
        values: &mut TerminalSideValueCache<S>,
    ) -> (r: Vec<S>)
        requires
            self.wf(),
            i < self.states@.len(),
            reach@.len() == self.hands(player.other_spec()).len(),
            old(values).holds(self.base.terminal_cache@),
        ensures
            r@ == self.node_showdown(i as int, player, reach@, true),
            r@.len() == self.base.combos(player),
            final(values).holds(self.base.terminal_cache@),
    {
        proof {
            assert(self.state_fits(i as int));
        }
        let node: &PublicNode = &self.base.tree.nodes[self.states[i].node_id];
        let pot: S = S::from_u32(node.state.pot);
        let boards: &Vec<usize> = &self.terminal_cache_indices[i];
        let count: usize = match player {
            Player::Oop => self.base.oop_range.combos().len(),
            Player::Ip => self.base.ip_range.combos().len(),
        };
        let places: Vec<usize> = places_of(count);
        let mut sums: SideAccumulator<S> = SideAccumulator::zero(count);
        for n in 0..boards.len()
            invariant
                self.wf(),
                boards@ == self.boards_of(i as int),
                forall|k: int|
                    0 <= k < boards@.len() ==> #[trigger] boards@[k] < self.base.terminal_cache@.len(),
                reach@.len() == self.hands(player.other_spec()).len(),
                count == self.base.combos(player),
                places@ == own_places(count as nat),
                sums@.values.len() == count,
                sums@.counts.len() == count,
                values.holds(self.base.terminal_cache@),
                sums@ == self.boards_gathered(player, boards@, reach@, pot, n as nat),
        {
            let k: usize = boards[n];
            proof {
                assert(boards@[n as int] < self.base.terminal_cache@.len());
            }
            let cache: &TerminalEvalCache = &self.base.terminal_cache[k];
            proof {
                assert(self.base.terminal_cache@[k as int].fits(self.base.oop(), self.base.ip()));
                cache.prepared.wf_facts();
            }
            let live: Vec<S> = match player {
                Player::Oop => reach_on_targets(&cache.ip_targets, reach, cache.prepared.len()),
                Player::Ip => reach_on_targets(&cache.oop_targets, reach, cache.prepared.len()),
            };
            proof {
                cache.prepared.wf_facts();
            }
            let nonzero: Vec<u16> = places_apart_from_zero(&live);
            let opponent: LiveReach<S> = LiveReach { values: live, nonzero };
            proof {
                assert forall|m: int| 0 <= m < cache.indices(player).len() implies (
                #[trigger] cache.indices(player)[m] matches Some(b) ==> b < cache.prepared.count()) by {
                    match player {
                        Player::Oop => {
                            assert(cache.oop_combo_indices@[m] == cache.indices(player)[m]);
                        },
                        Player::Ip => {
                            assert(cache.ip_combo_indices@[m] == cache.indices(player)[m]);
                        },
                    }
                }
                assert(compact_values(
                    cache.prepared,
                    cache.indices(player),
                    opponent.values@,
                    opponent.nonzero@,
                    false,
                ) =~= compact_values(
                    cache.prepared,
                    cache.indices(player),
                    opponent.values@,
                    Seq::empty(),
                    false,
                ));
            }
            let side: Vec<S> = terminal_side_cached_values(
                values,
                &self.base.terminal_cache,
                k,
                player,
                &opponent,
                false,
            );
            match player {
                Player::Oop => sums.add_board(Some(&side), &cache.oop_combo_indices, &places, pot),
                Player::Ip => sums.add_board(Some(&side), &cache.ip_combo_indices, &places, pot),
            }
        }
        sums.finish()
    }

    /// What a comparison of hands is worth to a player's hands.
    fn showdown_side(
        &self,
        i: usize,
        player: Player,
        reach: &Vec<S>,
        by_prefix: bool,
        values: &mut TerminalSideValueCache<S>,
    ) -> (r: Vec<S>)
        requires
            self.wf(),
            i < self.states@.len(),
            reach@.len() == self.hands(player.other_spec()).len(),
            old(values).holds(self.base.terminal_cache@),
        ensures
            r@ == self.node_showdown(i as int, player, reach@, by_prefix),
            r@.len() == self.base.combos(player),
            final(values).holds(self.base.terminal_cache@),
    {
        if by_prefix {
            self.showdown_by_prefix(i, player, reach, values)
        } else {
            self.showdown_by_sweeps(i, player, reach)
        }
    }

    /// What a state without followers is worth to a player's hands, and how many finished boards were
    /// looked at.
    pub fn terminal_side(
        &self,
        i: usize,
        player: Player,
        reach: &Vec<S>,
        by_prefix: bool,
        values: &mut TerminalSideValueCache<S>,
    ) -> (r: (Vec<S>, usize))
        requires
            self.wf(),
            i < self.states@.len(),
            reach@.len() == self.hands(player.other_spec()).len(),
            old(values).holds(self.base.terminal_cache@),
        ensures
            r.0@ == self.node_end(i as int, player, reach@, by_prefix),
            r.0@.len() == self.base.combos(player),
            r.1 == self.boards_of(i as int).len(),
            final(values).holds(self.base.terminal_cache@),
    {
        proof {
            assert(self.state_fits(i as int));
        }
        let evals: usize = self.terminal_cache_indices[i].len();
        let state = &self.states[i];
        match &self.base.tree.nodes[state.node_id].kind {
            PublicNodeKind::Terminal { reason } => {
                if *reason == TerminalReason::Fold {
                    return (self.fold_side(i, player, reach), evals);
                }
                if *reason == TerminalReason::AllIn && state.board.len() == 3
                    && self.allin_oracle.is_some() {
                    return (self.allin_oracle_side(i, player, reach), evals);
                }
            },
            _ => {},
        }
        (self.showdown_side(i, player, reach, by_prefix, values), evals)
    }
}

} // verus!
