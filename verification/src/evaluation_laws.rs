//! What evaluating strategies gives at each state, in whole numbers of steps: average strategies are followed, or one
//! player answers as well as possible.
use vstd::prelude::*;
use crate::matching_laws::total_of;
use crate::measure::{share_in_steps, MeasuredScalar};
use crate::mixture_laws::{
    acting_values_are_mixed, best_responses_take_the_most, can_be_mixed, mixed_steps,
    nonacting_values_add_up, row_steps, worth_steps,
};
use crate::phase_reach::EvaluationMode;
use crate::phase_states::PhaseState;
use crate::real_cfr::TablesView;
use crate::real_phase::PhaseRows;
use crate::real_setup::RealSetup;
use crate::real_terminal::ValuesView;
use crate::tree::Player;

verus! {

/// What actions are worth to a player's hands.
pub open spec fn side_rows<S>(rows: PhaseRows<S>, player: Player) -> Seq<Seq<S>> {
    match player {
        Player::Oop => rows.oop,
        Player::Ip => rows.ip,
    }
}

/// Whether a player answers as well as possible.
pub open spec fn answers_best(mode: EvaluationMode, player: Player) -> bool {
    match player {
        Player::Oop => mode == EvaluationMode::OopBestResponse,
        Player::Ip => mode == EvaluationMode::IpBestResponse,
    }
}

impl<S: MeasuredScalar> RealSetup<S> {
    proof fn lemma_rows(self, state: PhaseState, values: Seq<ValuesView<S>>, player: Player, n: nat)
        requires
            n <= state.children@.len(),
        ensures
            side_rows(self.rows_from(state, values, n), player).len() == n,
            forall|a: int|
                0 <= a < n ==> #[trigger] side_rows(self.rows_from(state, values, n), player)[a]
                    == values[state.children@[a] as int].side(player),
        decreases n,
    {
        if n > 0 {
            self.lemma_rows(state, values, player, (n - 1) as nat);
        }
    }

    /// At a decision: to the player who does not act it is worth all that comes of the actions; to the player who acts and
    /// answers as well as possible, the most that an action is worth; to the player who acts as on average, the actions by
    /// how often each is taken.
    pub proof fn evaluations_follow_the_mode(
        self,
        state: PhaseState,
        tables: TablesView<S>,
        mode: EvaluationMode,
        values: Seq<ValuesView<S>>,
        own: ValuesView<S>,
        player: Player,
        bound: int,
        combo: int,
    )
        requires
            self.tree.nodes@[state.node_id as int].kind is Decision,
            self.tree.nodes@[state.node_id as int].kind->Decision_actions@.len() > 1,
            self.tree.nodes@[state.node_id as int].kind->Decision_actions@.len()
                == state.children@.len(),
            0 <= combo < self.combos(player),
            bound >= 0,
            bound * (state.children@.len() + 1) <= S::limit(),
            S::infinity_spec().negate_spec().steps() <= -bound,
            can_be_mixed(
                row_steps(
                    self.average_of_state(state, tables),
                    state.children@.len() as int,
                    combo,
                ),
                worth_steps(
                    side_rows(self.rows_from(state, values, state.children@.len()), player),
                    combo,
                ),
                S::unit(),
                bound,
                state.children@.len(),
            ),
        ensures
            ({
                let count = state.children@.len();
                let actor = self.tree.nodes@[state.node_id as int].kind->Decision_player;
                let worth = self.evaluated_from(state, tables, mode, values, own).side(
                    player,
                )[combo].steps();
                let below = Seq::new(
                    count,
                    |a: int| values[state.children@[a] as int].side(player)[combo].steps(),
                );
                &&& actor != player ==> worth == total_of(below, count)
                &&& actor == player && answers_best(mode, player) ==> {
                    &&& forall|a: int| 0 <= a < count ==> worth >= #[trigger] below[a]
                    &&& exists|a: int| 0 <= a < count && worth == #[trigger] below[a]
                }
                &&& actor == player && !answers_best(mode, player) ==> worth == mixed_steps(
                    row_steps(self.average_of_state(state, tables), count as int, combo),
                    below,
                    S::unit(),
                    count,
                )
            }),
    {
        let count = state.children@.len();
        let actor = self.tree.nodes@[state.node_id as int].kind->Decision_player;
        self.lemma_rows(state, values, player, count);
        let rows = side_rows(self.rows_from(state, values, count), player);
        let strategies = self.average_of_state(state, tables);
        let below = Seq::new(
            count,
            |a: int| values[state.children@[a] as int].side(player)[combo].steps(),
        );
        let worth = worth_steps(rows, combo);
        assert forall|a: int| 0 <= a < count implies #[trigger] below[a] == rows[a][combo].steps() by {
            assert(rows[a] == values[state.children@[a] as int].side(player));
        }
        assert(worth =~= below);
        let out = self.evaluated_from(state, tables, mode, values, own).side(player);
        if actor != player {
            assert forall|a: int| 0 <= a < count implies -bound <= (#[trigger] rows[a])[combo].steps()
                <= bound by {
                assert(worth[a] == rows[a][combo].steps());
            }
            nonacting_values_add_up(rows, combo, bound, count);
        } else if answers_best(mode, player) {
            assert forall|a: int| 0 <= a < count implies (#[trigger] rows[a])[combo].steps()
                >= S::infinity_spec().negate_spec().steps() by {
                assert(worth[a] == rows[a][combo].steps());
            }
            best_responses_take_the_most(rows, combo, count);
            assert forall|a: int| 0 <= a < count implies out[combo].steps() >= #[trigger] below[a] by {
                assert(below[a] == rows[a][combo].steps());
            }
            let a = choose|a: int| 0 <= a < count && out[combo] == (#[trigger] rows[a])[combo];
            assert(below[a] == out[combo].steps());
        } else {
            acting_values_are_mixed(rows, strategies, count as int, combo, bound, count);
        }
    }

    /// What the first `n` states that follow a chance are worth to a hand, added up, in steps.
    pub open spec fn followed_steps(
        self,
        state: PhaseState,
        values: Seq<ValuesView<S>>,
        player: Player,
        combo: int,
        n: nat,
    ) -> int
        decreases n,
    {
        if n == 0 {
            0
        } else {
            self.followed_steps(state, values, player, combo, (n - 1) as nat)
                + values[state.children@[n - 1] as int].side(player)[combo].steps()
        }
    }

    /// A chance is worth to a hand all that follows it, added up.
    pub proof fn chances_add_up(
        self,
        state: PhaseState,
        values: Seq<ValuesView<S>>,
        player: Player,
        bound: int,
        combo: int,
        n: nat,
    )
        requires
            n <= state.children@.len(),
            0 <= combo < self.combos(player),
            bound >= 0,
            bound * (n + 1) <= S::limit(),
            forall|a: int|
                0 <= a < n ==> -bound <= values[#[trigger] state.children@[a] as int].side(
                    player,
                )[combo].steps() <= bound,
        ensures
            self.sums_from(state, values, n).side(player).len() == self.combos(player),
            self.sums_from(state, values, n).side(player)[combo].steps() == self.followed_steps(
                state,
                values,
                player,
                combo,
                n,
            ),
            -bound * n <= self.followed_steps(state, values, player, combo, n) <= bound * n,
        decreases n,
    {
        S::measured_units();
        if n > 0 {
            let m = (n - 1) as nat;
            assert(bound * (m + 1) <= bound * (n + 1) && bound * n == bound * m + bound && -bound * n == -bound
                * m - bound && bound * (n + 1) == bound * m + 2 * bound && -bound * m == -(bound * m) && bound * m
                >= 0) by (nonlinear_arith)
                requires
                    bound >= 0,
                    n == m + 1,
            ;
            self.chances_add_up(state, values, player, bound, combo, m);
            let front = self.sums_from(state, values, m).side(player)[combo];
            let below = values[state.children@[n - 1] as int].side(player)[combo];
            assert(-bound <= below.steps() <= bound);
            share_in_steps(S::one_spec(), below);
            S::measured_sum(front, below.times_spec(S::one_spec()));
        } else {
            assert(bound * 0 == 0 && -bound * 0 == 0);
        }
    }
}

} // verus!
