//! How often a run with tables at every node comes to finished hands.
use vstd::prelude::*;
use crate::arith::{bounded, bounded_sum};
use crate::node_setup::NodeSetup;
use crate::scalar::Scalar;
use crate::state_graph::{is_expanded, GraphState};
use crate::tree::{PublicNodeKind, TerminalReason};

verus! {

/// How often a run came to finished hands: to all of them, to folds, to those in which hands are compared,
/// and of these to showdowns and to all-ins, by the street of the all-in.
#[derive(Clone, Copy, Debug, PartialEq, Eq, Structural)]
pub struct NodeLocalCalls {
    pub terminal_calls: usize,
    pub fold_calls: usize,
    pub showdown_calls: usize,
    pub showdown_only_calls: usize,
    pub allin_calls: usize,
    pub allin_flop_calls: usize,
    pub allin_turn_calls: usize,
    pub allin_river_calls: usize,
}

/// A kind of finished hands.
#[derive(Clone, Copy, Debug, PartialEq, Eq, Structural)]
pub enum CallKind {
    Any,
    Fold,
    Compared,
    Showdown,
    AllIn,
    AllInFlop,
    AllInTurn,
    AllInRiver,
}

impl CallKind {
    /// Whether a hand that is finished for a reason on a board of so many cards is of the kind.
    pub open spec fn includes(self, reason: TerminalReason, cards: nat) -> bool {
        match self {
            CallKind::Any => true,
            CallKind::Fold => reason == TerminalReason::Fold,
            CallKind::Compared => reason != TerminalReason::Fold,
            CallKind::Showdown => reason == TerminalReason::Showdown,
            CallKind::AllIn => reason == TerminalReason::AllIn,
            CallKind::AllInFlop => reason == TerminalReason::AllIn && cards == 3,
            CallKind::AllInTurn => reason == TerminalReason::AllIn && cards == 4,
            CallKind::AllInRiver => reason == TerminalReason::AllIn && cards == 5,
        }
    }

    /// Whether a hand that is finished for a reason on a board of so many cards is of the kind.
    pub fn counts(self, reason: TerminalReason, cards: usize) -> (r: bool)
        ensures
            r == self.includes(reason, cards as nat),
    {
        match self {
            CallKind::Any => true,
            CallKind::Fold => reason == TerminalReason::Fold,
            CallKind::Compared => reason != TerminalReason::Fold,
            CallKind::Showdown => reason == TerminalReason::Showdown,
            CallKind::AllIn => reason == TerminalReason::AllIn,
            CallKind::AllInFlop => reason == TerminalReason::AllIn && cards == 3,
            CallKind::AllInTurn => reason == TerminalReason::AllIn && cards == 4,
            CallKind::AllInRiver => reason == TerminalReason::AllIn && cards == 5,
        }
    }
}

impl<S: Scalar> NodeSetup<S> {
    /// How often one pass from a state on comes to finished hands of a kind.
    pub open spec fn calls_from(self, kind: CallKind, i: int) -> usize
        decreases self.states@.len() - i, 1int, 0int,
    {
        match self.node(i).kind {
            PublicNodeKind::Terminal { reason } => if kind.includes(
                reason,
                self.states@[i].board@.len(),
            ) {
                1
            } else {
                0
            },
            _ => self.calls_below(kind, i, self.states@[i].children@.len()),
        }
    }

    /// How often one pass from the first `n` states on that follow a state comes to finished hands of a
    /// kind.
    pub open spec fn calls_below(self, kind: CallKind, i: int, n: nat) -> usize
        decreases self.states@.len() - i, 0int, n,
    {
        if n == 0 {
            0
        } else {
            let front = self.calls_below(kind, i, (n - 1) as nat);
            let child = self.states@[i].children@[n - 1] as int;
            if i < child < self.states@.len() {
                bounded(front + self.calls_from(kind, child)) as usize
            } else {
                front
            }
        }
    }

    /// How often one pass from a state on comes to finished hands of a kind.
    pub fn count_calls(&self, kind: CallKind, i: usize) -> (r: usize)
        requires
            self.wf(),
            i < self.states@.len(),
        ensures
            r == self.calls_from(kind, i as int),
        decreases self.states@.len() - i,
    {
        proof {
            self.kids_stand_behind(i as int);
            assert(self.state_fits(i as int));
            assert(is_expanded(
                true,
                self.base.tree.nodes@,
                self.base.oop(),
                self.base.ip(),
                self.states@,
                i as int,
            ));
        }
        let state: &GraphState = &self.states[i];
        if let PublicNodeKind::Terminal { reason } = &self.base.tree.nodes[state.node_id].kind {
            return if kind.counts(*reason, state.board.len()) {
                1
            } else {
                0
            };
        }
        let mut total: usize = 0;
        for k in 0..state.children.len()
            invariant
                self.wf(),
                i < self.states@.len(),
                *state == self.states@[i as int],
                forall|k: int|
                    0 <= k < self.states@[i as int].children@.len() ==> i
                        < #[trigger] self.states@[i as int].children@[k] < self.states@.len(),
                total == self.calls_below(kind, i as int, k as nat),
        {
            let child: usize = state.children[k];
            proof {
                assert(i < self.states@[i as int].children@[k as int] < self.states@.len());
            }
            total = bounded_sum(total, self.count_calls(kind, child));
        }
        total
    }

    /// How often so many iterations, with a pass for either player each, come to finished hands of a kind.
    pub open spec fn run_calls_of(self, kind: CallKind, iterations: u32) -> usize {
        bounded(2 * iterations * self.calls_from(kind, 0)) as usize
    }

    fn count_run_calls(&self, kind: CallKind, iterations: u32) -> (r: usize)
        requires
            self.wf(),
            self.states@.len() > 0,
        ensures
            r == self.run_calls_of(kind, iterations),
    {
        let once: usize = self.count_calls(kind, 0);
        let wide: u128 = 2 * (iterations as u128);
        proof {
            assert(0 <= wide * once <= 0x1_ffff_ffff * 0xffff_ffff_ffff_ffff) by (nonlinear_arith)
                requires
                    0 <= wide <= 0x1_ffff_ffff,
                    0 <= once <= 0xffff_ffff_ffff_ffff,
            ;
            assert(wide * once == 2 * iterations * once) by (nonlinear_arith)
                requires
                    wide == 2 * iterations,
            ;
        }
        let all: u128 = wide * (once as u128);
        if all > usize::MAX as u128 {
            usize::MAX
        } else {
            all as usize
        }
    }

    /// How often so many iterations come to finished hands.
    pub open spec fn run_calls(self, iterations: u32) -> NodeLocalCalls {
        NodeLocalCalls {
            terminal_calls: self.run_calls_of(CallKind::Any, iterations),
            fold_calls: self.run_calls_of(CallKind::Fold, iterations),
            showdown_calls: self.run_calls_of(CallKind::Compared, iterations),
            showdown_only_calls: self.run_calls_of(CallKind::Showdown, iterations),
            allin_calls: self.run_calls_of(CallKind::AllIn, iterations),
            allin_flop_calls: self.run_calls_of(CallKind::AllInFlop, iterations),
            allin_turn_calls: self.run_calls_of(CallKind::AllInTurn, iterations),
            allin_river_calls: self.run_calls_of(CallKind::AllInRiver, iterations),
        }
    }

    /// How often so many iterations come to finished hands; nothing if that is not asked for.
    pub fn profiled_calls(&self, iterations: u32, profile: bool) -> (r: NodeLocalCalls)
        requires
            self.wf(),
            self.states@.len() > 0,
        ensures
            r == (if profile {
                self.run_calls(iterations)
            } else {
                NodeLocalCalls::none_spec()
            }),
    {
        if !profile {
            return NodeLocalCalls::none();
        }
        NodeLocalCalls {
            terminal_calls: self.count_run_calls(CallKind::Any, iterations),
            fold_calls: self.count_run_calls(CallKind::Fold, iterations),
            showdown_calls: self.count_run_calls(CallKind::Compared, iterations),
            showdown_only_calls: self.count_run_calls(CallKind::Showdown, iterations),
            allin_calls: self.count_run_calls(CallKind::AllIn, iterations),
            allin_flop_calls: self.count_run_calls(CallKind::AllInFlop, iterations),
            allin_turn_calls: self.count_run_calls(CallKind::AllInTurn, iterations),
            allin_river_calls: self.count_run_calls(CallKind::AllInRiver, iterations),
        }
    }
}

impl NodeLocalCalls {
    /// No calls.
    pub open spec fn none_spec() -> Self {
        NodeLocalCalls {
            terminal_calls: 0,
            fold_calls: 0,
            showdown_calls: 0,
            showdown_only_calls: 0,
            allin_calls: 0,
            allin_flop_calls: 0,
            allin_turn_calls: 0,
            allin_river_calls: 0,
        }
    }

    /// No calls.
    pub fn none() -> (r: Self)
        ensures
            r == Self::none_spec(),
    {
        NodeLocalCalls {
            terminal_calls: 0,
            fold_calls: 0,
            showdown_calls: 0,
            showdown_only_calls: 0,
            allin_calls: 0,
            allin_flop_calls: 0,
            allin_turn_calls: 0,
            allin_river_calls: 0,
        }
    }
}

} // verus!
