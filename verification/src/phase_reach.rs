//! How often the hands of both players reach each state.
use vstd::prelude::*;
use crate::cfr_math::{
    add_slice, added, average_spec, average_strategies, combo_weights, copy_of, current_spec,
    current_strategies, positive_sum, row_sum, weights_of, zeros, zeros_spec,
};
use crate::grid::cell_place;
use crate::phase_states::{kids, PhaseState};
use crate::real_cfr::{CfrTables, TablesView};
use crate::real_setup::{infoset_of, RealSetup};
use crate::scalar::Scalar;
use crate::tree::{Player, PublicNodeKind};
use crate::tree_shape::is_shaped_at;

verus! {

/// Whether both players follow their strategies, or one answers the other's as well as possible.
#[derive(Clone, Copy, Debug, PartialEq, Eq, Structural)]
pub enum EvaluationMode {
    Profile,
    OopBestResponse,
    IpBestResponse,
}

/// Whether strategies are the current or the average ones.
#[derive(Clone, Copy, Debug, PartialEq, Eq, Structural)]
pub enum StrategySource {
    Current,
    Average,
}

/// How often hands reach each state.
#[derive(Clone, Debug)]
pub struct ReachTable<S> {
    pub oop: Vec<Vec<S>>,
    pub ip: Vec<Vec<S>>,
}

/// How often hands reach each state.
pub ghost struct Reaches<S> {
    pub oop: Seq<Seq<S>>,
    pub ip: Seq<Seq<S>>,
}

/// The contents of lists.
pub open spec fn lists_of<S>(rows: Seq<Vec<S>>) -> Seq<Seq<S>> {
    rows.map(|i: int, row: Vec<S>| row@)
}

impl<S> View for ReachTable<S> {
    type V = Reaches<S>;

    open spec fn view(&self) -> Reaches<S> {
        Reaches { oop: lists_of(self.oop@), ip: lists_of(self.ip@) }
    }
}

impl<S> Reaches<S> {
    /// Whether there is a number for each hand at each state.
    pub open spec fn sized(self, states: nat, oop: nat, ip: nat) -> bool {
        &&& self.oop.len() == states
        &&& self.ip.len() == states
        &&& forall|i: int| 0 <= i < states ==> (#[trigger] self.oop[i]).len() == oop
        &&& forall|i: int| 0 <= i < states ==> (#[trigger] self.ip[i]).len() == ip
    }
}

/// What a hand's reach is worth for an action when shared out in proportion to its numbers, alike for all
/// actions if these add up to nothing.
pub open spec fn share_of<S: Scalar>(
    out: S,
    input: S,
    row: Seq<S>,
    start: int,
    actions: int,
    action: int,
    source: StrategySource,
) -> S {
    let total = match source {
        StrategySource::Current => positive_sum(row, start, actions as nat),
        StrategySource::Average => row_sum(row, start, actions as nat),
    };
    let number = match source {
        StrategySource::Current => row[start + action].max_spec(S::zero_spec()),
        StrategySource::Average => row[start + action],
    };
    if input.same_spec(S::zero_spec()) {
        out
    } else if total.exceeds_spec(S::zero_spec()) {
        out.plus_spec(number.times_spec(input.over_spec(total)))
    } else {
        out.plus_spec(input.over_spec(S::from_count_spec(actions as usize)))
    }
}

/// Reach with an action's part of a parent's reach added: the reach times the action's probability, or
/// the action's share of it.
pub open spec fn acted<S: Scalar>(
    out: Seq<S>,
    parent: Seq<S>,
    row: Seq<S>,
    actions: int,
    action: int,
    source: StrategySource,
    scaled: bool,
) -> Seq<S> {
    let strategies = match source {
        StrategySource::Current => current_spec(row, parent.len() as int, actions),
        StrategySource::Average => average_spec(row, parent.len() as int, actions),
    };
    Seq::new(
        out.len(),
        |c: int|
            if scaled {
                share_of(out[c], parent[c], row, c * actions, actions, action, source)
            } else {
                out[c].plus_spec(parent[c].times_spec(strategies[c * actions + action]))
            },
    )
}

/// Adds an action's part of a parent's reach.
fn add_strategy_reach<S: Scalar>(
    out: &mut Vec<S>,
    parent: &Vec<S>,
    row: &[S],
    actions: usize,
    action: usize,
    source: StrategySource,
    scaled: bool,
)
    requires
        old(out)@.len() == parent@.len(),
        row@.len() == parent@.len() * actions,
        action < actions,
    ensures
        final(out)@ == acted(
            old(out)@,
            parent@,
            row@,
            actions as int,
            action as int,
            source,
            scaled,
        ),
{
    let ghost before = out@;
    let ghost goal = acted(before, parent@, row@, actions as int, action as int, source, scaled);
    let size: usize = row.len();
    let combos: usize = parent.len();
    let strategies: Vec<S> = if scaled {
        Vec::new()
    } else {
        match source {
            StrategySource::Current => current_strategies(row, combos, actions),
            StrategySource::Average => average_strategies(row, combos, actions),
        }
    };
    proof {
        assert(0int * (actions as int) == 0);
    }
    for c in 0..combos
        invariant
            before.len() == combos,
            combos == parent@.len(),
            row@.len() == combos * actions,
            size == combos * actions,
            action < actions,
            !scaled ==> strategies@.len() == combos * actions && strategies@ == (match source {
                StrategySource::Current => current_spec(row@, combos as int, actions as int),
                StrategySource::Average => average_spec(row@, combos as int, actions as int),
            }),
            goal == acted(before, parent@, row@, actions as int, action as int, source, scaled),
            out@.len() == combos,
            forall|k: int| 0 <= k < c ==> #[trigger] out@[k] == goal[k],
            forall|k: int| c <= k < combos ==> #[trigger] out@[k] == before[k],
    {
        proof {
            cell_place(combos as int, actions as int, c as int, action as int);
        }
        let value: S = if scaled {
            shared(out[c], parent[c], row, c, actions, action, source)
        } else {
            out[c].plus(parent[c].times(strategies[c * actions + action]))
        };
        out.set(c, value);
    }
    proof {
        assert(out@ =~= goal);
    }
}

fn shared<S: Scalar>(
    out: S,
    input: S,
    row: &[S],
    combo: usize,
    actions: usize,
    action: usize,
    source: StrategySource,
) -> (r: S)
    requires
        (combo + 1) * actions <= row@.len(),
        action < actions,
    ensures
        r == share_of(out, input, row@, combo * actions, actions as int, action as int, source),
{
    if input.same(S::zero()) {
        return out;
    }
    let size: usize = row.len();
    let mut total: S = S::zero();
    proof {
        assert((combo + 1) * actions == combo * actions + actions) by (nonlinear_arith);
        assert(0 <= combo * actions) by (nonlinear_arith);
    }
    let start: usize = combo * actions;
    for k in 0..actions
        invariant
            start + actions <= row@.len(),
            size == row@.len(),
            total == (match source {
                StrategySource::Current => positive_sum(row@, start as int, k as nat),
                StrategySource::Average => row_sum(row@, start as int, k as nat),
            }),
    {
        let value: S = row[start + k];
        match source {
            StrategySource::Current => {
                if value.exceeds(S::zero()) {
                    total = total.plus(value);
                }
            },
            StrategySource::Average => {
                total = total.plus(value);
            },
        }
    }
    if total.exceeds(S::zero()) {
        let number: S = match source {
            StrategySource::Current => row[start + action].max_of(S::zero()),
            StrategySource::Average => row[start + action],
        };
        out.plus(number.times(input.over(total)))
    } else {
        out.plus(input.over(S::from_count(actions)))
    }
}

impl<S: Scalar> RealSetup<S> {
    /// The reach at the root, nothing elsewhere.
    pub open spec fn root_reaches(self, states: nat) -> Reaches<S> {
        Reaches {
            oop: Seq::new(
                states,
                |i: int|
                    if i == 0 {
                        weights_of(self.oop())
                    } else {
                        zeros_spec(self.oop().len())
                    },
            ),
            ip: Seq::new(
                states,
                |i: int|
                    if i == 0 {
                        weights_of(self.ip())
                    } else {
                        zeros_spec(self.ip().len())
                    },
            ),
        }
    }

    /// The numbers of a state from which its strategy is read.
    pub open spec fn strategy_row(self, state: PhaseState, tables: TablesView<S>, source: StrategySource) -> Seq<S> {
        let start = self.row_start(state.node_id as int, state.board_slot as int);
        let numbers = match source {
            StrategySource::Current => tables.regrets,
            StrategySource::Average => tables.sums,
        };
        numbers.subrange(start, start + self.row_len(state.node_id as int))
    }

    /// The reaches after a state's reach was passed on to the first `m` states that follow it.
    pub open spec fn passed_on(
        self,
        states: Seq<PhaseState>,
        tables: TablesView<S>,
        mode: EvaluationMode,
        source: StrategySource,
        scaled: bool,
        i: int,
        reaches: Reaches<S>,
        m: nat,
    ) -> Reaches<S>
        decreases m,
    {
        if m == 0 {
            reaches
        } else {
            let front = self.passed_on(
                states,
                tables,
                mode,
                source,
                scaled,
                i,
                reaches,
                (m - 1) as nat,
            );
            let state = states[i];
            let child = state.children@[m - 1] as int;
            let oop_added = added(front.oop[child], reaches.oop[i]);
            let ip_added = added(front.ip[child], reaches.ip[i]);
            match self.tree.nodes@[state.node_id as int].kind {
                PublicNodeKind::Decision { player, actions } => {
                    let row = self.strategy_row(state, tables, source);
                    let count = actions@.len() as int;
                    let oop = if player == Player::Oop && count > 1 && mode
                        != EvaluationMode::OopBestResponse {
                        acted(front.oop[child], reaches.oop[i], row, count, m - 1, source, scaled)
                    } else {
                        oop_added
                    };
                    let ip = if player == Player::Ip && count > 1 && mode
                        != EvaluationMode::IpBestResponse {
                        acted(front.ip[child], reaches.ip[i], row, count, m - 1, source, scaled)
                    } else {
                        ip_added
                    };
                    Reaches { oop: front.oop.update(child, oop), ip: front.ip.update(child, ip) }
                },
                _ => Reaches {
                    oop: front.oop.update(child, oop_added),
                    ip: front.ip.update(child, ip_added),
                },
            }
        }
    }

    /// The reaches after the first `n` states passed theirs on.
    pub open spec fn reached(
        self,
        states: Seq<PhaseState>,
        tables: TablesView<S>,
        mode: EvaluationMode,
        source: StrategySource,
        scaled: bool,
        n: nat,
    ) -> Reaches<S>
        decreases n,
    {
        if n == 0 {
            self.root_reaches(states.len())
        } else {
            self.passed_on(
                states,
                tables,
                mode,
                source,
                scaled,
                n - 1,
                self.reached(states, tables, mode, source, scaled, (n - 1) as nat),
                states[n - 1].children@.len(),
            )
        }
    }

    /// How often hands reach each state when strategies are followed, from the root on.
    pub fn forward_reaches(
        &self,
        states: &Vec<PhaseState>,
        tables: &CfrTables<S>,
        mode: EvaluationMode,
        source: StrategySource,
        scaled: bool,
    ) -> (r: ReachTable<S>)
        requires
            self.wf(),
            self.is_phase(states@),
            tables@.sized(self.action_slots as nat),
        ensures
            r@ == self.reached(states@, tables@, mode, source, scaled, states@.len()),
            r@.sized(states@.len(), self.oop().len(), self.ip().len()),
    {
        let count: usize = states.len();
        let mut table: ReachTable<S> = self.root_table(count);
        for i in 0..count
            invariant
                self.wf(),
                self.is_phase(states@),
                tables@.sized(self.action_slots as nat),
                count == states@.len(),
                table@ == self.reached(states@, tables@, mode, source, scaled, i as nat),
                table@.sized(count as nat, self.oop().len(), self.ip().len()),
        {
            self.pass_on(states, tables, mode, source, scaled, i, &mut table);
        }
        table
    }

    fn root_table(&self, count: usize) -> (r: ReachTable<S>)
        ensures
            r@ == self.root_reaches(count as nat),
            r@.sized(count as nat, self.oop().len(), self.ip().len()),
    {
        let mut oop: Vec<Vec<S>> = Vec::new();
        let mut ip: Vec<Vec<S>> = Vec::new();
        let oop_len: usize = self.oop_range.combos().len();
        let ip_len: usize = self.ip_range.combos().len();
        for i in 0..count
            invariant
                oop_len == self.oop().len(),
                ip_len == self.ip().len(),
                oop@.len() == i,
                ip@.len() == i,
                forall|k: int|
                    0 <= k < i ==> (#[trigger] oop@[k])@ == self.root_reaches(count as nat).oop[k],
                forall|k: int|
                    0 <= k < i ==> (#[trigger] ip@[k])@ == self.root_reaches(count as nat).ip[k],
        {
            if i == 0 {
                oop.push(combo_weights(self.oop_range.combos()));
                ip.push(combo_weights(self.ip_range.combos()));
            } else {
                oop.push(zeros(oop_len));
                ip.push(zeros(ip_len));
            }
        }
        proof {
            assert(lists_of(oop@) =~= self.root_reaches(count as nat).oop);
            assert(lists_of(ip@) =~= self.root_reaches(count as nat).ip);
        }
        ReachTable { oop, ip }
    }

    /// Passes a state's reach on to all that follow it.
    fn pass_on(
        &self,
        states: &Vec<PhaseState>,
        tables: &CfrTables<S>,
        mode: EvaluationMode,
        source: StrategySource,
        scaled: bool,
        i: usize,
        table: &mut ReachTable<S>,
    )
        requires
            self.wf(),
            self.is_phase(states@),
            tables@.sized(self.action_slots as nat),
            i < states@.len(),
            old(table)@.sized(states@.len(), self.oop().len(), self.ip().len()),
        ensures
            final(table)@ == self.passed_on(
                states@,
                tables@,
                mode,
                source,
                scaled,
                i as int,
                old(table)@,
                states@[i as int].children@.len(),
            ),
            final(table)@.sized(states@.len(), self.oop().len(), self.ip().len()),
    {
        let ghost before = table@;
        let state: &PhaseState = &states[i];
        proof {
            assert(self.is_phase_state(states@, i as int));
            assert(is_shaped_at(self.tree.nodes@, state.node_id as int));
            self.knows_has_slot(state.board@);
            assert(before.oop[i as int] == table.oop@[i as int]@);
            assert(before.ip[i as int] == table.ip@[i as int]@);
            assert(before.oop[i as int].len() == self.oop().len());
            assert(before.ip[i as int].len() == self.ip().len());
        }
        let parent_oop: Vec<S> = copy_of(&table.oop[i]);
        let parent_ip: Vec<S> = copy_of(&table.ip[i]);
        let (acting, count): (Option<Player>, usize) = match &self.tree.nodes[state.node_id].kind {
            PublicNodeKind::Decision { player, actions } => (Some(*player), actions.len()),
            _ => (None, 0),
        };
        let ghost node = self.tree.nodes@[state.node_id as int];
        let (start, len): (usize, usize) = if acting.is_some() && count > 1 {
            proof {
                assert(self.infosets@[state.node_id as int] == infoset_of(
                    self.tree.nodes@,
                    self.oop().len(),
                    self.ip().len(),
                    self.turns().len(),
                    self.rivers().len(),
                    state.node_id as int,
                ));
                self.row_fits(state.node_id as int, state.board_slot as int);
            }
            self.row_of(state.node_id, state.board_slot)
        } else {
            (0, 0)
        };
        let numbers: &Vec<S> = match source {
            StrategySource::Current => &tables.regrets,
            StrategySource::Average => &tables.strategy_sum,
        };
        let row: &[S] = vstd::slice::slice_subrange(numbers.as_slice(), start, start + len);
        let oop_acts: bool = acting == Some(Player::Oop) && count > 1 && mode
            != EvaluationMode::OopBestResponse;
        let ip_acts: bool = acting == Some(Player::Ip) && count > 1 && mode
            != EvaluationMode::IpBestResponse;
        for k in 0..state.children.len()
            invariant
                self.wf(),
                self.is_phase(states@),
                i < states@.len(),
                *state == states@[i as int],
                node == self.tree.nodes@[state.node_id as int],
                parent_oop@ == before.oop[i as int],
                parent_ip@ == before.ip[i as int],
                parent_oop@.len() == self.oop().len(),
                parent_ip@.len() == self.ip().len(),
                match node.kind {
                    PublicNodeKind::Decision { player, actions } => {
                        &&& count == actions@.len()
                        &&& state.children@.len() == count
                        &&& oop_acts == (player == Player::Oop && count > 1 && mode
                            != EvaluationMode::OopBestResponse)
                        &&& ip_acts == (player == Player::Ip && count > 1 && mode
                            != EvaluationMode::IpBestResponse)
                    },
                    _ => !oop_acts && !ip_acts,
                },
                oop_acts || ip_acts ==> row@ == self.strategy_row(*state, tables@, source),
                oop_acts ==> row@.len() == self.oop().len() * count,
                ip_acts ==> row@.len() == self.ip().len() * count,
                table@.sized(states@.len(), self.oop().len(), self.ip().len()),
                table@ == self.passed_on(
                    states@,
                    tables@,
                    mode,
                    source,
                    scaled,
                    i as int,
                    before,
                    k as nat,
                ),
        {
            let child: usize = state.children[k];
            let ghost was = table@;
            let ghost was_oop = table.oop@;
            let ghost was_ip = table.ip@;
            proof {
                assert(kids(states@)[i as int][k as int] == child);
                assert(i < kids(states@)[i as int][k as int] < kids(states@).len());
                assert(was.oop[child as int] == table.oop@[child as int]@);
                assert(was.ip[child as int] == table.ip@[child as int]@);
                assert(was.oop[child as int].len() == self.oop().len());
                assert(was.ip[child as int].len() == self.ip().len());
            }
            if oop_acts {
                add_strategy_reach(&mut table.oop[child], &parent_oop, row, count, k, source, scaled);
            } else {
                add_slice(&mut table.oop[child], &parent_oop);
            }
            if ip_acts {
                add_strategy_reach(&mut table.ip[child], &parent_ip, row, count, k, source, scaled);
            } else {
                add_slice(&mut table.ip[child], &parent_ip);
            }
            proof {
                let goal = self.passed_on(
                    states@,
                    tables@,
                    mode,
                    source,
                    scaled,
                    i as int,
                    before,
                    (k + 1) as nat,
                );
                assert(table@.oop =~= was.oop.update(child as int, table.oop@[child as int]@));
                assert(table@.ip =~= was.ip.update(child as int, table.ip@[child as int]@));
                assert(table@.oop =~= goal.oop);
                assert(table@.ip =~= goal.ip);
                assert forall|n: int| 0 <= n < states@.len() implies (#[trigger] table@.oop[n]).len()
                    == self.oop().len() by {
                    assert(was.oop[n].len() == self.oop().len());
                }
                assert forall|n: int| 0 <= n < states@.len() implies (#[trigger] table@.ip[n]).len()
                    == self.ip().len() by {
                    assert(was.ip[n].len() == self.ip().len());
                }
            }
        }
    }
}

} // verus!
