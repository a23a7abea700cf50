//! What a solver's work consists of: how many finished hands there are, on which boards, and how often
//! the same work comes up again.
use vstd::prelude::*;
use crate::arith::{bounded, bounded_product, bounded_sum, greater, lesser, max_usize, min_usize};
use crate::boards::{boards_are, completions, terminal_boards};
use crate::cards::{all_different, deck_without, mask_of, Board, Card};
use crate::deals::{deck_without_facts, pairs, pairs_are_all};
use crate::index_map::KeyMap;
use crate::phase_reach::{EvaluationMode, ReachTable, Reaches, StrategySource};
use crate::phase_states::PhaseState;
use crate::real_setup::RealSetup;
use crate::real_solver::RealCfrSolver;
use crate::real_terminal::{live_on, places_on};
use crate::scalar::Scalar;
use crate::sorting::{is_sorting, sorted_positions, SortKey};
use crate::terminal_cache::{
    mix_hash, mixed, reach_hash, reach_on_prepared_board_targets_sparse, hash_sparse_reach,
    LiveReach, TerminalEvalCache,
};
use crate::tree::{Player, PublicNode, PublicNodeKind, TerminalReason};
use crate::tree_shape::is_shaped_at;

verus! {

/// How many finished hands there are over all boards, and how many boards they are evaluated on.
#[derive(Clone, Copy, Debug, PartialEq, Eq, Structural)]
pub struct TerminalEvalBreakdown {
    pub fold_terminals: usize,
    pub showdown_terminals: usize,
    pub all_in_terminals: usize,
    pub river_showdown_evals: usize,
    pub flop_all_in_runout_evals: usize,
    pub turn_all_in_runout_evals: usize,
    pub river_all_in_evals: usize,
}

impl TerminalEvalBreakdown {
    /// Nothing.
    pub open spec fn none_spec() -> Self {
        TerminalEvalBreakdown {
            fold_terminals: 0,
            showdown_terminals: 0,
            all_in_terminals: 0,
            river_showdown_evals: 0,
            flop_all_in_runout_evals: 0,
            turn_all_in_runout_evals: 0,
            river_all_in_evals: 0,
        }
    }

    /// Two breakdowns together, once and so many times.
    pub open spec fn with(self, other: Self, times: nat) -> Self {
        TerminalEvalBreakdown {
            fold_terminals: counted(self.fold_terminals, other.fold_terminals, times),
            showdown_terminals: counted(self.showdown_terminals, other.showdown_terminals, times),
            all_in_terminals: counted(self.all_in_terminals, other.all_in_terminals, times),
            river_showdown_evals: counted(
                self.river_showdown_evals,
                other.river_showdown_evals,
                times,
            ),
            flop_all_in_runout_evals: counted(
                self.flop_all_in_runout_evals,
                other.flop_all_in_runout_evals,
                times,
            ),
            turn_all_in_runout_evals: counted(
                self.turn_all_in_runout_evals,
                other.turn_all_in_runout_evals,
                times,
            ),
            river_all_in_evals: counted(self.river_all_in_evals, other.river_all_in_evals, times),
        }
    }

    /// Adds another breakdown so many times.
    fn add(&mut self, other: &Self, times: usize)
        ensures
            *final(self) == old(self).with(*other, times as nat),
    {
        self.fold_terminals = count_up(self.fold_terminals, other.fold_terminals, times);
        self.showdown_terminals = count_up(self.showdown_terminals, other.showdown_terminals, times);
        self.all_in_terminals = count_up(self.all_in_terminals, other.all_in_terminals, times);
        self.river_showdown_evals =
        count_up(self.river_showdown_evals, other.river_showdown_evals, times);
        self.flop_all_in_runout_evals =
        count_up(self.flop_all_in_runout_evals, other.flop_all_in_runout_evals, times);
        self.turn_all_in_runout_evals =
        count_up(self.turn_all_in_runout_evals, other.turn_all_in_runout_evals, times);
        self.river_all_in_evals = count_up(self.river_all_in_evals, other.river_all_in_evals, times);
    }
}

impl Default for TerminalEvalBreakdown {
    fn default() -> (r: Self)
        ensures
            r == TerminalEvalBreakdown::none_spec(),
    {
        TerminalEvalBreakdown {
            fold_terminals: 0,
            showdown_terminals: 0,
            all_in_terminals: 0,
            river_showdown_evals: 0,
            flop_all_in_runout_evals: 0,
            turn_all_in_runout_evals: 0,
            river_all_in_evals: 0,
        }
    }
}

/// A count and so many times another.
pub open spec fn counted(count: usize, more: usize, times: nat) -> usize {
    bounded(count + bounded(more * times)) as usize
}

fn count_up(count: usize, more: usize, times: usize) -> (r: usize)
    ensures
        r == counted(count, more, times as nat),
{
    bounded_sum(count, bounded_product(more, times))
}

impl<S: Scalar> RealSetup<S> {
    /// The finished hands below a node that is played on boards of so many cards: at chance nodes every
    /// card to come counts on its own.
    pub open spec fn breakdown_spec(self, node_id: int, cards: nat) -> TerminalEvalBreakdown
        decreases self.tree.nodes@.len() - node_id, 1int, 0int,
    {
        let node = self.tree.nodes@[node_id];
        let none = TerminalEvalBreakdown::none_spec();
        match node.kind {
            PublicNodeKind::Terminal { reason } => match reason {
                TerminalReason::Fold => TerminalEvalBreakdown { fold_terminals: 1, ..none },
                TerminalReason::Showdown => TerminalEvalBreakdown {
                    showdown_terminals: 1,
                    river_showdown_evals: 1,
                    ..none
                },
                TerminalReason::AllIn => TerminalEvalBreakdown {
                    all_in_terminals: 1,
                    flop_all_in_runout_evals: if cards == 3 {
                        1176
                    } else {
                        0
                    },
                    turn_all_in_runout_evals: if cards == 4 {
                        48
                    } else {
                        0
                    },
                    river_all_in_evals: if cards == 5 {
                        1
                    } else {
                        0
                    },
                    ..none
                },
            },
            PublicNodeKind::Chance(chance) => if node.children@.len() == 0 {
                none
            } else {
                let child = node.children@[0] as int;
                if node_id < child < self.tree.nodes@.len() {
                    none.with(self.breakdown_spec(child, cards + 1), (52 - cards) as nat)
                } else {
                    none
                }
            },
            PublicNodeKind::Decision { player, actions } => self.breakdown_below(
                node_id,
                cards,
                node.children@.len(),
            ),
        }
    }

    /// The finished hands below the first `n` actions of a node.
    pub open spec fn breakdown_below(self, node_id: int, cards: nat, n: nat) -> TerminalEvalBreakdown
        decreases self.tree.nodes@.len() - node_id, 0int, n,
    {
        if n == 0 {
            TerminalEvalBreakdown::none_spec()
        } else {
            let front = self.breakdown_below(node_id, cards, (n - 1) as nat);
            let child = self.tree.nodes@[node_id].children@[n - 1] as int;
            if node_id < child < self.tree.nodes@.len() {
                front.with(self.breakdown_spec(child, cards), 1)
            } else {
                front
            }
        }
    }

    /// Whether hands are compared somewhere below a node before the river.
    pub open spec fn compares_early(self, node_id: int, cards: nat) -> bool
        decreases self.tree.nodes@.len() - node_id, 1int, 0int,
    {
        let node = self.tree.nodes@[node_id];
        match node.kind {
            PublicNodeKind::Terminal { reason } => reason == TerminalReason::Showdown && cards != 5,
            PublicNodeKind::Chance(chance) => {
                let child = node.children@[0] as int;
                &&& node.children@.len() > 0
                &&& node_id < child < self.tree.nodes@.len()
                &&& self.compares_early(child, cards + 1)
            },
            PublicNodeKind::Decision { player, actions } => self.compares_early_below(
                node_id,
                cards,
                node.children@.len(),
            ),
        }
    }

    /// Whether hands are compared before the river below one of the first `n` actions of a node.
    pub open spec fn compares_early_below(self, node_id: int, cards: nat, n: nat) -> bool
        decreases self.tree.nodes@.len() - node_id, 0int, n,
    {
        if n == 0 {
            false
        } else {
            let child = self.tree.nodes@[node_id].children@[n - 1] as int;
            self.compares_early_below(node_id, cards, (n - 1) as nat) || (node_id < child
                < self.tree.nodes@.len() && self.compares_early(child, cards))
        }
    }

    fn breakdown_from(&self, node_id: usize, cards: usize) -> (r: Result<TerminalEvalBreakdown, String>)
        requires
            self.wf(),
            node_id < self.tree.nodes@.len(),
            3 <= cards <= 5,
            cards == self.tree.nodes@[node_id as int].state.board@.len(),
        ensures
            match r {
                Ok(breakdown) => breakdown == self.breakdown_spec(node_id as int, cards as nat),
                Err(message) => message@ == "showdown terminal before river is invalid"@,
            },
            r is Err == self.compares_early(node_id as int, cards as nat),
        decreases self.tree.nodes@.len() - node_id,
    {
        proof {
            assert(is_shaped_at(self.tree.nodes@, node_id as int));
        }
        let node: &PublicNode = &self.tree.nodes[node_id];
        let mut breakdown: TerminalEvalBreakdown = TerminalEvalBreakdown::default();
        match &node.kind {
            PublicNodeKind::Terminal { reason } => {
                match reason {
                    TerminalReason::Fold => {
                        breakdown.fold_terminals = 1;
                    },
                    TerminalReason::Showdown => {
                        if cards != 5 {
                            return Err("showdown terminal before river is invalid".to_owned());
                        }
                        breakdown.showdown_terminals = 1;
                        breakdown.river_showdown_evals = 1;
                    },
                    TerminalReason::AllIn => {
                        breakdown.all_in_terminals = 1;
                        if cards == 3 {
                            breakdown.flop_all_in_runout_evals = 1176;
                        } else if cards == 4 {
                            breakdown.turn_all_in_runout_evals = 48;
                        } else {
                            breakdown.river_all_in_evals = 1;
                        }
                    },
                }
            },
            PublicNodeKind::Chance(_) => {
                if node.children.len() > 0 {
                    let child: usize = node.children[0];
                    proof {
                        assert(node_id < node.children@[0] < self.tree.nodes@.len());
                    }
                    let below: TerminalEvalBreakdown = match self.breakdown_from(child, cards + 1) {
                        Ok(below) => below,
                        Err(message) => return Err(message),
                    };
                    breakdown.add(&below, 52 - cards);
                }
            },
            PublicNodeKind::Decision { player, actions } => {
                for n in 0..node.children.len()
                    invariant
                        self.wf(),
                        node_id < self.tree.nodes@.len(),
                        *node == self.tree.nodes@[node_id as int],
                        node.kind is Decision,
                        is_shaped_at(self.tree.nodes@, node_id as int),
                        3 <= cards <= 5,
                        cards == node.state.board@.len(),
                        breakdown == self.breakdown_below(node_id as int, cards as nat, n as nat),
                        !self.compares_early_below(node_id as int, cards as nat, n as nat),
                {
                    let child: usize = node.children[n];
                    proof {
                        assert(node_id < node.children@[n as int] < self.tree.nodes@.len());
                        assert(self.tree.nodes@[node.children@[n as int] as int].state.board@.len()
                            == node.state.board@.len());
                    }
                    match self.breakdown_from(child, cards) {
                        Ok(below) => {
                            breakdown.add(&below, 1);
                        },
                        Err(message) => {
                            proof {
                                assert(self.compares_early_below(
                                    node_id as int,
                                    cards as nat,
                                    (n + 1) as nat,
                                ));
                                self.lemma_early_grows(
                                    node_id as int,
                                    cards as nat,
                                    (n + 1) as nat,
                                    node.children@.len(),
                                );
                            }
                            return Err(message);
                        },
                    }
                }
            },
        }
        Ok(breakdown)
    }

    proof fn lemma_early_grows(self, node_id: int, cards: nat, m: nat, n: nat)
        requires
            m <= n,
            self.compares_early_below(node_id, cards, m),
        ensures
            self.compares_early_below(node_id, cards, n),
        decreases n,
    {
        if m < n {
            self.lemma_early_grows(node_id, cards, m, (n - 1) as nat);
        }
    }
}

/// A finished hand on a finished board.
#[derive(Clone, Copy, Debug)]
pub struct TerminalBoardTask {
    pub terminal_node: usize,
    pub board: Board,
    pub cache_index: usize,
}

/// A finished hand on a finished board.
pub ghost struct TaskView {
    pub terminal_node: int,
    pub board: Seq<Card>,
    pub cache_index: int,
}

/// What tasks hold.
pub open spec fn task_views(tasks: Seq<TerminalBoardTask>) -> Seq<TaskView> {
    tasks.map(
        |i: int, task: TerminalBoardTask|
            TaskView {
                terminal_node: task.terminal_node as int,
                board: task.board@,
                cache_index: task.cache_index as int,
            },
    )
}

impl<S: Scalar> RealSetup<S> {
    /// The finished hands below a node on a board, each on every board that can come.
    pub open spec fn tasks_spec(self, node_id: int, board: Seq<Card>) -> Seq<TaskView>
        decreases self.tree.nodes@.len() - node_id, 1int, 0int,
    {
        let node = self.tree.nodes@[node_id];
        match node.kind {
            PublicNodeKind::Terminal { reason } => if reason == TerminalReason::Fold {
                Seq::empty()
            } else {
                completions(board).map(
                    |k: int, finished: Seq<Card>|
                        TaskView {
                            terminal_node: node_id,
                            board: finished,
                            cache_index: self.terminal_cache_index_by_key@[mask_of(finished)] as int,
                        },
                )
            },
            PublicNodeKind::Chance(chance) => if node.children@.len() == 0 {
                Seq::empty()
            } else {
                self.tasks_of_cards(node_id, board, deck_without(board).len())
            },
            PublicNodeKind::Decision { player, actions } => self.tasks_of_actions(
                node_id,
                board,
                node.children@.len(),
            ),
        }
    }

    /// The finished hands below a node with the first `n` cards to come.
    pub open spec fn tasks_of_cards(self, node_id: int, board: Seq<Card>, n: nat) -> Seq<TaskView>
        decreases self.tree.nodes@.len() - node_id, 0int, n,
    {
        if n == 0 {
            Seq::empty()
        } else {
            let front = self.tasks_of_cards(node_id, board, (n - 1) as nat);
            let child = self.tree.nodes@[node_id].children@[0] as int;
            if node_id < child < self.tree.nodes@.len() {
                front + self.tasks_spec(child, board.push(deck_without(board)[n - 1]))
            } else {
                front
            }
        }
    }

    /// The finished hands below the first `n` actions of a node.
    pub open spec fn tasks_of_actions(self, node_id: int, board: Seq<Card>, n: nat) -> Seq<TaskView>
        decreases self.tree.nodes@.len() - node_id, 0int, n,
    {
        if n == 0 {
            Seq::empty()
        } else {
            let front = self.tasks_of_actions(node_id, board, (n - 1) as nat);
            let child = self.tree.nodes@[node_id].children@[n - 1] as int;
            if node_id < child < self.tree.nodes@.len() {
                front + self.tasks_spec(child, board)
            } else {
                front
            }
        }
    }

    /// Whether a board can be where a node is played, whatever cards came.
    pub open spec fn extends_flop(self, node_id: int, board: Board) -> bool {
        &&& 0 <= node_id < self.tree.nodes@.len()
        &&& board.wf()
        &&& 3 <= board@.len()
        &&& board@.take(3) == self.flop_board@
        &&& board@.len() == self.tree.nodes@[node_id].state.board@.len()
    }

    fn collect_tasks_from(&self, node_id: usize, board: &Board, tasks: &mut Vec<TerminalBoardTask>)
        requires
            self.wf(),
            self.extends_flop(node_id as int, *board),
            tasks_fit(*self, old(tasks)@),
        ensures
            task_views(final(tasks)@) == task_views(old(tasks)@) + self.tasks_spec(
                node_id as int,
                board@,
            ),
            tasks_fit(*self, final(tasks)@),
        decreases self.tree.nodes@.len() - node_id,
    {
        let ghost before = task_views(tasks@);
        proof {
            assert(is_shaped_at(self.tree.nodes@, node_id as int));
            board.wf_facts();
        }
        let node: &PublicNode = &self.tree.nodes[node_id];
        match &node.kind {
            PublicNodeKind::Terminal { reason } => {
                if *reason != TerminalReason::Fold {
                    let boards: Vec<Board> = match terminal_boards(board) {
                        Ok(boards) => boards,
                        Err(_) => Vec::new(),
                    };
                    let ghost goal = self.tasks_spec(node_id as int, board@);
                    proof {
                        assert(before + goal.take(0) =~= before);
                    }
                    for k in 0..boards.len()
                        invariant
                            self.wf(),
                            self.extends_flop(node_id as int, *board),
                            board@.len() <= 5,
                            boards_are(boards@, completions(board@)),
                            goal == completions(board@).map(
                                |k: int, finished: Seq<Card>|
                                    TaskView {
                                        terminal_node: node_id as int,
                                        board: finished,
                                        cache_index: self.terminal_cache_index_by_key@[mask_of(
                                            finished,
                                        )] as int,
                                    },
                            ),
                            task_views(tasks@) == before + goal.take(k as int),
                            tasks_fit(*self, tasks@),
                    {
                        let ghost was = tasks@;
                        let finished: Board = boards[k];
                        proof {
                            assert(boards@[k as int].wf());
                            assert(finished@ == completions(board@)[k as int]);
                            finished.wf_facts();
                            assert(finished@.len() == 5 && finished@.take(3) =~= board@.take(3));
                            self.finished_is_cached(finished@);
                        }
                        let cache_index: usize = match self.terminal_cache_index(&finished) {
                            Ok(index) => index,
                            Err(_) => 0,
                        };
                        let task = TerminalBoardTask {
                            terminal_node: node_id,
                            board: finished,
                            cache_index,
                        };
                        tasks.push(task);
                        proof {
                            assert(goal[k as int] == TaskView {
                                terminal_node: node_id as int,
                                board: finished@,
                                cache_index: cache_index as int,
                            });
                            assert(task_views(tasks@) =~= task_views(was).push(goal[k as int]));
                            assert(goal.take(k + 1) =~= goal.take(k as int).push(goal[k as int]));
                            assert(task_views(tasks@) =~= before + goal.take(k + 1));
                        }
                    }
                    proof {
                        assert(goal.take(goal.len() as int) =~= goal);
                    }
                } else {
                    proof {
                        assert(before + Seq::<TaskView>::empty() =~= before);
                    }
                }
            },
            PublicNodeKind::Chance(_) => {
                if node.children.len() > 0 {
                    let child: usize = node.children[0];
                    let deck: Vec<Card> = board.remaining_deck();
                    proof {
                        assert(node_id < node.children@[0] < self.tree.nodes@.len());
                        deck_without_facts(board@);
                        assert(before + Seq::<TaskView>::empty() =~= before);
                    }
                    for k in 0..deck.len()
                        invariant
                            self.wf(),
                            self.extends_flop(node_id as int, *board),
                            board@.len() < 5,
                            *node == self.tree.nodes@[node_id as int],
                            node.children@.len() > 0,
                            child == node.children@[0],
                            node_id < child < self.tree.nodes@.len(),
                            self.tree.nodes@[child as int].state.board@.len() == board@.len() + 1,
                            deck@ == deck_without(board@),
                            forall|i: int|
                                0 <= i < deck@.len() ==> !board@.contains(#[trigger] deck@[i]),
                            task_views(tasks@) == before + self.tasks_of_cards(
                                node_id as int,
                                board@,
                                k as nat,
                            ),
                            tasks_fit(*self, tasks@),
                    {
                        let ghost was = task_views(tasks@);
                        proof {
                            assert(!board@.contains(deck@[k as int]));
                        }
                        let next: Board = board.with_card(deck[k]);
                        proof {
                            assert(next@.take(3) =~= board@.take(3));
                        }
                        self.collect_tasks_from(child, &next, tasks);
                        proof {
                            assert(task_views(tasks@) =~= before + self.tasks_of_cards(
                                node_id as int,
                                board@,
                                (k + 1) as nat,
                            ));
                        }
                    }
                } else {
                    proof {
                        assert(before + Seq::<TaskView>::empty() =~= before);
                    }
                }
            },
            PublicNodeKind::Decision { player, actions } => {
                proof {
                    assert(before + Seq::<TaskView>::empty() =~= before);
                }
                for k in 0..node.children.len()
                    invariant
                        self.wf(),
                        self.extends_flop(node_id as int, *board),
                        *node == self.tree.nodes@[node_id as int],
                        node.kind is Decision,
                        is_shaped_at(self.tree.nodes@, node_id as int),
                        task_views(tasks@) == before + self.tasks_of_actions(
                            node_id as int,
                            board@,
                            k as nat,
                        ),
                        tasks_fit(*self, tasks@),
                {
                    let child: usize = node.children[k];
                    proof {
                        assert(node_id < node.children@[k as int] < self.tree.nodes@.len());
                        assert(self.tree.nodes@[node.children@[k as int] as int].state.board@.len()
                            == node.state.board@.len());
                    }
                    self.collect_tasks_from(child, board, tasks);
                    proof {
                        assert(task_views(tasks@) =~= before + self.tasks_of_actions(
                            node_id as int,
                            board@,
                            (k + 1) as nat,
                        ));
                    }
                }
            },
        }
    }

    /// All finished hands, each on every board that can come.
    pub fn collect_terminal_board_tasks(&self) -> (r: Vec<TerminalBoardTask>)
        requires
            self.wf(),
        ensures
            task_views(r@) == self.tasks_spec(0, self.flop_board@),
            tasks_fit(*self, r@),
    {
        let mut tasks: Vec<TerminalBoardTask> = Vec::new();
        proof {
            assert(self.flop_board@.take(3) =~= self.flop_board@);
            assert(task_views(tasks@) + self.tasks_spec(0, self.flop_board@) =~= self.tasks_spec(
                0,
                self.flop_board@,
            ));
        }
        self.collect_tasks_from(0, &self.flop_board, &mut tasks);
        tasks
    }
}

/// Whether the boards of tasks were prepared.
pub open spec fn tasks_fit<S: Scalar>(setup: RealSetup<S>, tasks: Seq<TerminalBoardTask>) -> bool {
    forall|i: int|
        0 <= i < tasks.len() ==> (#[trigger] tasks[i]).cache_index < setup.terminal_cache@.len()
            && tasks[i].board.wf()
}

/// By what tasks are ordered board by board.
pub open spec fn task_key(task: TerminalBoardTask) -> SortKey {
    SortKey {
        first: task.cache_index as u64,
        second: task.terminal_node as u64,
        third: 0,
        fourth: 0,
    }
}

/// By what tasks are ordered board by board.
pub open spec fn task_keys(tasks: Seq<TerminalBoardTask>) -> Seq<SortKey> {
    tasks.map(|i: int, task: TerminalBoardTask| task_key(task))
}

/// Tasks board by board, and on each board by node.
pub fn board_major_tasks(tasks: &Vec<TerminalBoardTask>) -> (r: Vec<TerminalBoardTask>)
    ensures
        exists|order: Seq<usize>| #[trigger]
            is_sorting(task_keys(tasks@), 0, tasks@.len() as int, order) && r@ == Seq::new(
                tasks@.len(),
                |i: int| tasks@[order[i] as int],
            ),
{
    let mut keys: Vec<SortKey> = Vec::new();
    let ghost goal = task_keys(tasks@);
    for i in 0..tasks.len()
        invariant
            goal == task_keys(tasks@),
            keys@ =~= goal.take(i as int),
    {
        keys.push(
            SortKey {
                first: tasks[i].cache_index as u64,
                second: tasks[i].terminal_node as u64,
                third: 0,
                fourth: 0,
            },
        );
    }
    proof {
        assert(goal.take(goal.len() as int) =~= goal);
    }
    let order: Vec<usize> = sorted_positions(&keys);
    let mut sorted: Vec<TerminalBoardTask> = Vec::new();
    for i in 0..order.len()
        invariant
            is_sorting(goal, 0, goal.len() as int, order@),
            goal.len() == tasks@.len(),
            sorted@.len() == i,
            forall|k: int| 0 <= k < i ==> #[trigger] sorted@[k] == tasks@[order@[k] as int],
    {
        proof {
            assert(0 <= order@[i as int] < tasks@.len());
        }
        sorted.push(tasks[order[i]]);
    }
    proof {
        assert(sorted@ =~= Seq::new(tasks@.len(), |i: int| tasks@[order@[i] as int]));
        assert(is_sorting(task_keys(tasks@), 0, tasks@.len() as int, order@));
    }
    sorted
}

/// How tasks lie together by board.
#[derive(Clone, Copy, Debug)]
pub struct TerminalBoardLocality<S> {
    pub tasks: usize,
    pub unique_boards: usize,
    pub current_order_runs: usize,
    pub average_run_len: S,
    pub max_run_len: usize,
    pub min_tasks_per_board: usize,
    pub max_tasks_per_board: usize,
    pub average_tasks_per_board: S,
    pub board_major_task_bytes: usize,
}

/// How many of the first `n` tasks end on a board that the one before did: the run that ends there.
pub open spec fn run_at(tasks: Seq<TerminalBoardTask>, n: nat) -> nat
    decreases n,
{
    if n == 0 {
        0
    } else if n > 1 && tasks[n - 1].cache_index == tasks[n - 2].cache_index {
        run_at(tasks, (n - 1) as nat) + 1
    } else {
        1
    }
}

/// How many runs of tasks on one board the first `n` tasks make.
pub open spec fn runs_of(tasks: Seq<TerminalBoardTask>, n: nat) -> nat
    decreases n,
{
    if n == 0 {
        0
    } else {
        runs_of(tasks, (n - 1) as nat) + if n > 1 && tasks[n - 1].cache_index == tasks[n - 2].cache_index {
            0nat
        } else {
            1
        }
    }
}

/// How long the longest run among the first `n` tasks is.
pub open spec fn longest_run(tasks: Seq<TerminalBoardTask>, n: nat) -> nat
    decreases n,
{
    if n == 0 {
        0
    } else {
        greater(longest_run(tasks, (n - 1) as nat) as int, run_at(tasks, n) as int) as nat
    }
}

/// How many of the first `n` tasks are on a board.
pub open spec fn tasks_on(tasks: Seq<TerminalBoardTask>, board: int, n: nat) -> nat
    decreases n,
{
    if n == 0 {
        0
    } else {
        tasks_on(tasks, board, (n - 1) as nat) + if tasks[n - 1].cache_index == board {
            1nat
        } else {
            0
        }
    }
}

/// How many of the first `n` counts are not zero.
pub open spec fn used_below(counts: Seq<usize>, n: nat) -> nat
    decreases n,
{
    if n == 0 {
        0
    } else {
        used_below(counts, (n - 1) as nat) + if counts[n - 1] > 0 {
            1nat
        } else {
            0
        }
    }
}

/// The least of the first `n` counts that are not zero, zero if there is none.
pub open spec fn least_used(counts: Seq<usize>, n: nat) -> usize
    decreases n,
{
    if n == 0 {
        0
    } else {
        let front = least_used(counts, (n - 1) as nat);
        let count = counts[n - 1];
        if count > 0 && (front == 0 || count < front) {
            count
        } else {
            front
        }
    }
}

/// The largest of the first `n` counts, zero if there is none.
pub open spec fn most_used(counts: Seq<usize>, n: nat) -> usize
    decreases n,
{
    if n == 0 {
        0
    } else {
        let front = most_used(counts, (n - 1) as nat);
        if counts[n - 1] > front {
            counts[n - 1]
        } else {
            front
        }
    }
}

/// The average of a sum over a count, zero over none.
pub open spec fn average_spec_of<S: Scalar>(sum: usize, count: usize) -> S {
    if count > 0 {
        S::from_count_spec(sum).over_spec(S::from_count_spec(count))
    } else {
        S::zero_spec()
    }
}

/// The average of a sum over a count, zero over none.
pub fn average_usize<S: Scalar>(sum: usize, count: usize) -> (r: S)
    ensures
        r == average_spec_of::<S>(sum, count),
{
    if count > 0 {
        S::from_count(sum).over(S::from_count(count))
    } else {
        S::zero()
    }
}

/// Whether a report says how tasks lie together by board.
pub open spec fn is_locality<S: Scalar>(
    tasks: Seq<TerminalBoardTask>,
    counts: Seq<usize>,
    report: TerminalBoardLocality<S>,
) -> bool {
    &&& forall|b: int|
        0 <= b < counts.len() ==> #[trigger] counts[b] == tasks_on(tasks, b, tasks.len())
    &&& report.tasks == tasks.len()
    &&& report.unique_boards == used_below(counts, counts.len())
    &&& report.current_order_runs == runs_of(tasks, tasks.len())
    &&& report.max_run_len == longest_run(tasks, tasks.len())
    &&& report.min_tasks_per_board == least_used(counts, counts.len())
    &&& report.max_tasks_per_board == most_used(counts, counts.len())
    &&& report.average_run_len == average_spec_of::<S>(report.tasks, report.current_order_runs)
    &&& report.average_tasks_per_board == average_spec_of::<S>(report.tasks, report.unique_boards)
    &&& report.board_major_task_bytes == bounded(
        report.tasks * vstd::layout::size_of::<TerminalBoardTask>(),
    )
}

impl<S: Scalar> RealSetup<S> {
    /// How tasks lie together by board.
    pub fn locality_of<W: Scalar>(&self, tasks: &Vec<TerminalBoardTask>) -> (r: TerminalBoardLocality<W>)
        requires
            tasks_fit(*self, tasks@),
        ensures
            exists|counts: Seq<usize>|
                counts.len() == self.terminal_cache@.len() && #[trigger] is_locality(
                    tasks@,
                    counts,
                    r,
                ),
    {
        let boards: usize = self.terminal_cache.len();
        let mut counts: Vec<usize> = Vec::new();
        for b in 0..boards
            invariant
                counts@.len() == b,
                forall|k: int| 0 <= k < b ==> #[trigger] counts@[k] == 0,
        {
            counts.push(0);
        }
        let mut runs: usize = 0;
        let mut longest: usize = 0;
        let mut current: usize = 0;
        for n in 0..tasks.len()
            invariant
                tasks_fit(*self, tasks@),
                boards == self.terminal_cache@.len(),
                counts@.len() == boards,
                forall|b: int|
                    0 <= b < boards ==> #[trigger] counts@[b] == tasks_on(tasks@, b, n as nat)
                        && counts@[b] <= n,
                runs == runs_of(tasks@, n as nat),
                runs <= n,
                longest == longest_run(tasks@, n as nat),
                longest <= n,
                current == run_at(tasks@, n as nat),
                current <= n,
        {
            let board: usize = tasks[n].cache_index;
            let count: usize = counts[board] + 1;
            counts.set(board, count);
            if n > 0 && tasks[n - 1].cache_index == board {
                current = current + 1;
            } else {
                runs = runs + 1;
                current = 1;
            }
            longest = max_usize(longest, current);
        }
        let mut unique: usize = 0;
        let mut least: usize = 0;
        let mut most: usize = 0;
        for b in 0..boards
            invariant
                counts@.len() == boards,
                unique == used_below(counts@, b as nat),
                unique <= b,
                least == least_used(counts@, b as nat),
                most == most_used(counts@, b as nat),
        {
            let count: usize = counts[b];
            if count > 0 {
                unique = unique + 1;
                if least == 0 || count < least {
                    least = count;
                }
            }
            if count > most {
                most = count;
            }
        }
        let report = TerminalBoardLocality {
            tasks: tasks.len(),
            unique_boards: unique,
            current_order_runs: runs,
            average_run_len: average_usize(tasks.len(), runs),
            max_run_len: longest,
            min_tasks_per_board: least,
            max_tasks_per_board: most,
            average_tasks_per_board: average_usize(tasks.len(), unique),
            board_major_task_bytes: bounded_product(
                tasks.len(),
                core::mem::size_of::<TerminalBoardTask>(),
            ),
        };
        proof {
            assert(is_locality(tasks@, counts@, report));
        }
        report
    }
}

/// A finished hand that is evaluated on a board: what its work depends on.
#[derive(Clone, Copy, Debug, PartialEq, Eq)]
pub struct BoardVisit {
    pub state_index: usize,
    pub pot: u32,
    pub oop_hash: u64,
    pub ip_hash: u64,
    pub oop_nonzero: usize,
    pub ip_nonzero: usize,
}

/// The hash of two hashes.
pub open spec fn pair_hash(oop: u64, ip: u64) -> u64 {
    mixed(mixed(0xcbf29ce484222325, oop), ip)
}

impl<S: Scalar> RealSetup<S> {
    /// What the work for a state on a prepared board depends on.
    pub open spec fn visit_of(self, states: Seq<PhaseState>, reaches: Reaches<S>, i: int, board: int) -> BoardVisit {
        let cache = self.terminal_cache@[board];
        let oop_places = places_on(cache, Player::Oop, reaches.oop[i]);
        let ip_places = places_on(cache, Player::Ip, reaches.ip[i]);
        BoardVisit {
            state_index: i as usize,
            pot: self.tree.nodes@[states[i].node_id as int].state.pot,
            oop_hash: reach_hash(
                live_on(cache, Player::Oop, reaches.oop[i]),
                oop_places,
                oop_places.len(),
            ),
            ip_hash: reach_hash(
                live_on(cache, Player::Ip, reaches.ip[i]),
                ip_places,
                ip_places.len(),
            ),
            oop_nonzero: oop_places.len() as usize,
            ip_nonzero: ip_places.len() as usize,
        }
    }

    /// The visits to a board by a state's first `n` boards.
    pub open spec fn visits_of_state(
        self,
        states: Seq<PhaseState>,
        reaches: Reaches<S>,
        i: int,
        board: int,
        n: nat,
    ) -> Seq<BoardVisit>
        decreases n,
    {
        if n == 0 {
            Seq::empty()
        } else {
            let front = self.visits_of_state(states, reaches, i, board, (n - 1) as nat);
            if states[i].terminal_cache_indices@[n - 1] == board {
                front.push(self.visit_of(states, reaches, i, board))
            } else {
                front
            }
        }
    }

    /// The visits to a board by the first `n` states.
    pub open spec fn visits_to(
        self,
        states: Seq<PhaseState>,
        reaches: Reaches<S>,
        board: int,
        n: nat,
    ) -> Seq<BoardVisit>
        decreases n,
    {
        if n == 0 {
            Seq::empty()
        } else {
            self.visits_to(states, reaches, board, (n - 1) as nat) + self.visits_of_state(
                states,
                reaches,
                n - 1,
                board,
                states[n - 1].terminal_cache_indices@.len(),
            )
        }
    }

    /// What the work for a state on a prepared board depends on.
    fn board_visit(
        &self,
        states: &Vec<PhaseState>,
        reaches: &ReachTable<S>,
        i: usize,
        board: usize,
    ) -> (r: BoardVisit)
        requires
            self.wf(),
            self.is_phase(states@),
            reaches@.sized(states@.len(), self.oop().len(), self.ip().len()),
            i < states@.len(),
            board < self.terminal_cache@.len(),
        ensures
            r == self.visit_of(states@, reaches@, i as int, board as int),
    {
        proof {
            assert(self.is_phase_state(states@, i as int));
            assert(self.terminal_cache@[board as int].fits(self.oop(), self.ip()));
            assert(reaches@.oop[i as int] == reaches.oop@[i as int]@);
            assert(reaches@.ip[i as int] == reaches.ip@[i as int]@);
            assert(reaches@.oop[i as int].len() == self.oop().len());
            assert(reaches@.ip[i as int].len() == self.ip().len());
        }
        let cache: &TerminalEvalCache = &self.terminal_cache[board];
        let count: usize = cache.prepared.len();
        let oop: LiveReach<S> = reach_on_prepared_board_targets_sparse(
            &cache.oop_targets,
            &reaches.oop[i],
            count,
        );
        let ip: LiveReach<S> = reach_on_prepared_board_targets_sparse(
            &cache.ip_targets,
            &reaches.ip[i],
            count,
        );
        BoardVisit {
            state_index: i,
            pot: self.tree.nodes[states[i].node_id].state.pot,
            oop_hash: hash_sparse_reach(&oop.values, &oop.nonzero),
            ip_hash: hash_sparse_reach(&ip.values, &ip.nonzero),
            oop_nonzero: oop.nonzero.len(),
            ip_nonzero: ip.nonzero.len(),
        }
    }

    /// The visits to each prepared board by all states.
    pub fn board_visits(&self, states: &Vec<PhaseState>, reaches: &ReachTable<S>) -> (r: Vec<Vec<BoardVisit>>)
        requires
            self.wf(),
            self.is_phase(states@),
            reaches@.sized(states@.len(), self.oop().len(), self.ip().len()),
        ensures
            r@.len() == self.terminal_cache@.len(),
            forall|b: int|
                0 <= b < r@.len() ==> (#[trigger] r@[b])@ == self.visits_to(
                    states@,
                    reaches@,
                    b,
                    states@.len(),
                ),
    {
        let boards: usize = self.terminal_cache.len();
        let mut visits: Vec<Vec<BoardVisit>> = Vec::new();
        for b in 0..boards
            invariant
                visits@.len() == b,
                forall|k: int| 0 <= k < b ==> (#[trigger] visits@[k])@ == Seq::<BoardVisit>::empty(),
        {
            visits.push(Vec::new());
        }
        for i in 0..states.len()
            invariant
                self.wf(),
                self.is_phase(states@),
                reaches@.sized(states@.len(), self.oop().len(), self.ip().len()),
                boards == self.terminal_cache@.len(),
                visits@.len() == boards,
                forall|b: int|
                    0 <= b < boards ==> (#[trigger] visits@[b])@ == self.visits_to(
                        states@,
                        reaches@,
                        b,
                        i as nat,
                    ),
        {
            let state: &PhaseState = &states[i];
            proof {
                assert(self.is_phase_state(states@, i as int));
                assert forall|b: int| 0 <= b < boards implies (#[trigger] visits@[b])@
                    == self.visits_to(states@, reaches@, b, i as nat) + self.visits_of_state(
                    states@,
                    reaches@,
                    i as int,
                    b,
                    0,
                ) by {
                    assert(visits@[b]@ =~= self.visits_to(states@, reaches@, b, i as nat)
                        + Seq::<BoardVisit>::empty());
                }
            }
            for n in 0..state.terminal_cache_indices.len()
                invariant
                    self.wf(),
                    self.is_phase(states@),
                    reaches@.sized(states@.len(), self.oop().len(), self.ip().len()),
                    boards == self.terminal_cache@.len(),
                    i < states@.len(),
                    *state == states@[i as int],
                    self.is_phase_state(states@, i as int),
                    visits@.len() == boards,
                    forall|b: int|
                        0 <= b < boards ==> (#[trigger] visits@[b])@ == self.visits_to(
                            states@,
                            reaches@,
                            b,
                            i as nat,
                        ) + self.visits_of_state(states@, reaches@, i as int, b, n as nat),
            {
                let board: usize = state.terminal_cache_indices[n];
                proof {
                    self.lemma_cache_indices(state.board, n as int);
                }
                let visit: BoardVisit = self.board_visit(states, reaches, i, board);
                let ghost was = visits@;
                visits[board].push(visit);
                proof {
                    assert forall|b: int| 0 <= b < boards implies (#[trigger] visits@[b])@
                        == self.visits_to(states@, reaches@, b, i as nat) + self.visits_of_state(
                        states@,
                        reaches@,
                        i as int,
                        b,
                        (n + 1) as nat,
                    ) by {
                        if b == board {
                            assert(visits@[b]@ =~= was[b]@.push(visit));
                            assert(was[b]@.push(visit) =~= self.visits_to(
                                states@,
                                reaches@,
                                b,
                                i as nat,
                            ) + self.visits_of_state(states@, reaches@, i as int, b, n as nat).push(
                                visit,
                            ));
                        } else {
                            assert(visits@[b] == was[b]);
                        }
                    }
                }
            }
        }
        visits
    }

    proof fn lemma_cache_indices(self, board: Board, n: int)
        requires
            self.wf(),
            board.wf(),
            self.knows(board@),
            0 <= n < self.cache_indices(board@).len(),
        ensures
            self.cache_indices(board@)[n] < self.terminal_cache@.len(),
    {
        self.knows_starts_with_flop(board@);
        board.wf_facts();
        let finished = completions(board@)[n];
        let deck = deck_without(board@);
        deck_without_facts(board@);
        assert(finished.len() == 5 && all_different(finished) && finished.take(3) =~= board@.take(3)) by {
            if board@.len() == 5 {
            } else if board@.len() == 4 {
                assert(!board@.contains(deck[n]));
                assert(finished == board@.push(deck[n]));
            } else {
                pairs_are_all(deck.len());
                let (a, b) = pairs(deck.len())[n];
                assert(a < b < deck.len());
                assert(!board@.contains(deck[a as int]) && !board@.contains(deck[b as int]));
                assert(deck[a as int].id() < deck[b as int].id());
            }
        }
        self.finished_is_cached(finished);
    }
}

/// What lists of visits hold.
pub open spec fn visit_lists(visits: Seq<Vec<BoardVisit>>) -> Seq<Seq<BoardVisit>> {
    visits.map(|b: int, list: Vec<BoardVisit>| list@)
}

/// How often the same work comes up again on one board.
#[derive(Clone, Copy, Debug)]
pub struct TerminalBoardReuseRow<S> {
    pub board_index: usize,
    pub board: Board,
    pub state_board_pairs: usize,
    pub unique_terminal_states: usize,
    pub pot_buckets: usize,
    pub oop_unique_reaches: usize,
    pub ip_unique_reaches: usize,
    pub pair_unique_reaches: usize,
    pub oop_value_side_reuse_factor: S,
    pub ip_value_side_reuse_factor: S,
    pub average_oop_nonzero: S,
    pub average_ip_nonzero: S,
    pub max_oop_nonzero: usize,
    pub max_ip_nonzero: usize,
}

/// How often the same work comes up again on all boards.
#[derive(Clone, Debug)]
pub struct TerminalBoardReuseReport<S> {
    pub state_board_pairs: usize,
    pub unique_boards: usize,
    pub average_state_board_pairs_per_board: S,
    pub min_state_board_pairs_per_board: usize,
    pub max_state_board_pairs_per_board: usize,
    pub average_unique_terminal_states_per_board: S,
    pub average_oop_unique_reaches_per_board: S,
    pub average_ip_unique_reaches_per_board: S,
    pub average_pair_unique_reaches_per_board: S,
    pub average_oop_value_side_reuse_factor: S,
    pub average_ip_value_side_reuse_factor: S,
    pub rows: Vec<TerminalBoardReuseRow<S>>,
}

/// How many different numbers a list holds.
pub fn distinct_count(numbers: &Vec<u64>) -> (r: usize)
    ensures
        r == numbers@.to_set().len(),
{
    let mut seen: KeyMap<bool> = KeyMap::new();
    for i in 0..numbers.len()
        invariant
            seen@.dom() =~= numbers@.take(i as int).to_set(),
    {
        let ghost front = numbers@.take(i as int);
        let ghost whole = numbers@.take(i + 1);
        seen.insert(numbers[i], true);
        proof {
            assert(whole =~= front.push(numbers@[i as int]));
            assert forall|x: u64| whole.to_set().contains(x) == (front.to_set().contains(x) || x
                == numbers@[i as int]) by {
                if front.contains(x) {
                    let k = choose|k: int| 0 <= k < front.len() && front[k] == x;
                    assert(whole[k] == x);
                }
                if x == numbers@[i as int] {
                    assert(whole[i as int] == x);
                }
                if whole.contains(x) {
                    let k = choose|k: int| 0 <= k < whole.len() && whole[k] == x;
                    if k < i {
                        assert(front[k] == x);
                    }
                }
            }
        }
    }
    proof {
        assert(numbers@.take(numbers@.len() as int) =~= numbers@);
    }
    seen.len()
}

/// What a visit is told apart by.
#[derive(Clone, Copy, Debug, PartialEq, Eq, Structural)]
pub enum VisitField {
    State,
    Pot,
    OopReach,
    IpReach,
    Pair,
}

/// What a visit is told apart by.
pub open spec fn field_of(visit: BoardVisit, field: VisitField) -> u64 {
    match field {
        VisitField::State => visit.state_index as u64,
        VisitField::Pot => visit.pot as u64,
        VisitField::OopReach => visit.oop_hash,
        VisitField::IpReach => visit.ip_hash,
        VisitField::Pair => pair_hash(visit.oop_hash, visit.ip_hash),
    }
}

/// How many visits are different.
pub open spec fn different(visits: Seq<BoardVisit>, field: VisitField) -> nat {
    visits.map(|i: int, visit: BoardVisit| field_of(visit, field)).to_set().len()
}

fn count_different(visits: &Vec<BoardVisit>, field: VisitField) -> (r: usize)
    ensures
        r == different(visits@, field),
{
    let ghost goal = visits@.map(|i: int, visit: BoardVisit| field_of(visit, field));
    let mut numbers: Vec<u64> = Vec::new();
    for i in 0..visits.len()
        invariant
            goal == visits@.map(|i: int, visit: BoardVisit| field_of(visit, field)),
            numbers@ =~= goal.take(i as int),
    {
        let visit: BoardVisit = visits[i];
        let number: u64 = match field {
            VisitField::State => visit.state_index as u64,
            VisitField::Pot => visit.pot as u64,
            VisitField::OopReach => visit.oop_hash,
            VisitField::IpReach => visit.ip_hash,
            VisitField::Pair => mix_hash(mix_hash(0xcbf29ce484222325, visit.oop_hash), visit.ip_hash),
        };
        numbers.push(number);
    }
    proof {
        assert(goal.take(goal.len() as int) =~= goal);
    }
    distinct_count(&numbers)
}

/// The sum of how many hands of a player the first `n` visits have.
pub open spec fn nonzero_sum(visits: Seq<BoardVisit>, player: Player, n: nat) -> usize
    decreases n,
{
    if n == 0 {
        0
    } else {
        bounded(
            nonzero_sum(visits, player, (n - 1) as nat) + (match player {
                Player::Oop => visits[n - 1].oop_nonzero,
                Player::Ip => visits[n - 1].ip_nonzero,
            }),
        ) as usize
    }
}

/// The most hands of a player that one of the first `n` visits has.
pub open spec fn nonzero_max(visits: Seq<BoardVisit>, player: Player, n: nat) -> usize
    decreases n,
{
    if n == 0 {
        0
    } else {
        greater(
            nonzero_max(visits, player, (n - 1) as nat) as int,
            (match player {
                Player::Oop => visits[n - 1].oop_nonzero,
                Player::Ip => visits[n - 1].ip_nonzero,
            }) as int,
        ) as usize
    }
}

/// Whether a row says how often the same work comes up again in visits.
pub open spec fn is_reuse_row<S: Scalar>(visits: Seq<BoardVisit>, row: TerminalBoardReuseRow<S>) -> bool {
    let tasks = visits.len() as usize;
    let n = visits.len();
    &&& row.state_board_pairs == n
    &&& row.unique_terminal_states == different(visits, VisitField::State)
    &&& row.pot_buckets == different(visits, VisitField::Pot)
    &&& row.oop_unique_reaches == different(visits, VisitField::OopReach)
    &&& row.ip_unique_reaches == different(visits, VisitField::IpReach)
    &&& row.pair_unique_reaches == different(visits, VisitField::Pair)
    &&& row.oop_value_side_reuse_factor == average_spec_of::<S>(tasks, row.ip_unique_reaches)
    &&& row.ip_value_side_reuse_factor == average_spec_of::<S>(tasks, row.oop_unique_reaches)
    &&& row.average_oop_nonzero == average_spec_of::<S>(nonzero_sum(visits, Player::Oop, n), tasks)
    &&& row.average_ip_nonzero == average_spec_of::<S>(nonzero_sum(visits, Player::Ip, n), tasks)
    &&& row.max_oop_nonzero == nonzero_max(visits, Player::Oop, n)
    &&& row.max_ip_nonzero == nonzero_max(visits, Player::Ip, n)
}

fn reuse_row<S: Scalar>(board_index: usize, board: Board, visits: &Vec<BoardVisit>) -> (r:
    TerminalBoardReuseRow<S>)
    ensures
        is_reuse_row(visits@, r),
        r.board_index == board_index,
        r.board == board,
{
    let tasks: usize = visits.len();
    let mut oop_sum: usize = 0;
    let mut ip_sum: usize = 0;
    let mut oop_max: usize = 0;
    let mut ip_max: usize = 0;
    for n in 0..tasks
        invariant
            tasks == visits@.len(),
            oop_sum == nonzero_sum(visits@, Player::Oop, n as nat),
            ip_sum == nonzero_sum(visits@, Player::Ip, n as nat),
            oop_max == nonzero_max(visits@, Player::Oop, n as nat),
            ip_max == nonzero_max(visits@, Player::Ip, n as nat),
    {
        oop_sum = bounded_sum(oop_sum, visits[n].oop_nonzero);
        ip_sum = bounded_sum(ip_sum, visits[n].ip_nonzero);
        oop_max = max_usize(oop_max, visits[n].oop_nonzero);
        ip_max = max_usize(ip_max, visits[n].ip_nonzero);
    }
    let oop_unique_reaches: usize = count_different(visits, VisitField::OopReach);
    let ip_unique_reaches: usize = count_different(visits, VisitField::IpReach);
    TerminalBoardReuseRow {
        board_index,
        board,
        state_board_pairs: tasks,
        unique_terminal_states: count_different(visits, VisitField::State),
        pot_buckets: count_different(visits, VisitField::Pot),
        oop_unique_reaches,
        ip_unique_reaches,
        pair_unique_reaches: count_different(visits, VisitField::Pair),
        oop_value_side_reuse_factor: average_usize(tasks, ip_unique_reaches),
        ip_value_side_reuse_factor: average_usize(tasks, oop_unique_reaches),
        average_oop_nonzero: average_usize(oop_sum, tasks),
        average_ip_nonzero: average_usize(ip_sum, tasks),
        max_oop_nonzero: oop_max,
        max_ip_nonzero: ip_max,
    }
}

/// A count of each row that is summed up.
#[derive(Clone, Copy, Debug, PartialEq, Eq, Structural)]
pub enum RowField {
    Pairs,
    States,
    OopReaches,
    IpReaches,
    PairReaches,
}

/// A count of a row.
pub open spec fn row_field<S>(row: TerminalBoardReuseRow<S>, field: RowField) -> usize {
    match field {
        RowField::Pairs => row.state_board_pairs,
        RowField::States => row.unique_terminal_states,
        RowField::OopReaches => row.oop_unique_reaches,
        RowField::IpReaches => row.ip_unique_reaches,
        RowField::PairReaches => row.pair_unique_reaches,
    }
}

/// The sum of a count over the first `n` rows.
pub open spec fn rows_total<S>(rows: Seq<TerminalBoardReuseRow<S>>, field: RowField, n: nat) -> usize
    decreases n,
{
    if n == 0 {
        0
    } else {
        bounded(rows_total(rows, field, (n - 1) as nat) + row_field(rows[n - 1], field)) as usize
    }
}

fn sum_rows<S: Scalar>(rows: &Vec<TerminalBoardReuseRow<S>>, field: RowField) -> (r: usize)
    ensures
        r == rows_total(rows@, field, rows@.len()),
{
    let mut total: usize = 0;
    for n in 0..rows.len()
        invariant
            total == rows_total(rows@, field, n as nat),
    {
        let more: usize = match field {
            RowField::Pairs => rows[n].state_board_pairs,
            RowField::States => rows[n].unique_terminal_states,
            RowField::OopReaches => rows[n].oop_unique_reaches,
            RowField::IpReaches => rows[n].ip_unique_reaches,
            RowField::PairReaches => rows[n].pair_unique_reaches,
        };
        total = bounded_sum(total, more);
    }
    total
}

/// The sum of a player's factors over the first `n` rows.
pub open spec fn factor_total<S: Scalar>(rows: Seq<TerminalBoardReuseRow<S>>, player: Player, n: nat) -> S
    decreases n,
{
    if n == 0 {
        S::zero_spec()
    } else {
        factor_total(rows, player, (n - 1) as nat).plus_spec(
            match player {
                Player::Oop => rows[n - 1].oop_value_side_reuse_factor,
                Player::Ip => rows[n - 1].ip_value_side_reuse_factor,
            },
        )
    }
}

/// The average of a sum over a count, zero over none.
pub open spec fn mean_of<S: Scalar>(sum: S, count: usize) -> S {
    if count > 0 {
        sum.over_spec(S::from_count_spec(count))
    } else {
        S::zero_spec()
    }
}

fn mean_factor<S: Scalar>(rows: &Vec<TerminalBoardReuseRow<S>>, player: Player) -> (r: S)
    ensures
        r == mean_of(factor_total(rows@, player, rows@.len()), rows@.len() as usize),
{
    let mut total: S = S::zero();
    for n in 0..rows.len()
        invariant
            total == factor_total(rows@, player, n as nat),
    {
        total =
        total.plus(
            match player {
                Player::Oop => rows[n].oop_value_side_reuse_factor,
                Player::Ip => rows[n].ip_value_side_reuse_factor,
            },
        );
    }
    if rows.len() > 0 {
        total.over(S::from_count(rows.len()))
    } else {
        S::zero()
    }
}

/// The least count of pairs among the first `n` rows, zero if there is no row.
pub open spec fn least_pairs<S>(rows: Seq<TerminalBoardReuseRow<S>>, n: nat) -> usize
    decreases n,
{
    if n == 0 {
        0
    } else if n == 1 {
        rows[0].state_board_pairs
    } else {
        lesser(
            least_pairs(rows, (n - 1) as nat) as int,
            rows[n - 1].state_board_pairs as int,
        ) as usize
    }
}

/// The largest count of pairs among the first `n` rows, zero if there is no row.
pub open spec fn most_pairs<S>(rows: Seq<TerminalBoardReuseRow<S>>, n: nat) -> usize
    decreases n,
{
    if n == 0 {
        0
    } else {
        greater(
            most_pairs(rows, (n - 1) as nat) as int,
            rows[n - 1].state_board_pairs as int,
        ) as usize
    }
}

/// By what rows are ordered: the most pairs first, then the most different ones, then by board.
pub open spec fn row_key<S>(row: TerminalBoardReuseRow<S>) -> SortKey {
    SortKey {
        first: (u64::MAX - row.state_board_pairs) as u64,
        second: (u64::MAX - row.pair_unique_reaches) as u64,
        third: row.board_index as u64,
        fourth: 0,
    }
}

/// By what rows are ordered.
pub open spec fn row_keys<S>(rows: Seq<TerminalBoardReuseRow<S>>) -> Seq<SortKey> {
    rows.map(|i: int, row: TerminalBoardReuseRow<S>| row_key(row))
}

/// Whether a report sums its rows up.
pub open spec fn sums_up<S: Scalar>(report: TerminalBoardReuseReport<S>) -> bool {
    let rows = report.rows@;
    let n = rows.len();
    let average = |field: RowField| average_spec_of::<S>(rows_total(rows, field, n), n as usize);
    &&& report.unique_boards == n
    &&& report.state_board_pairs == rows_total(rows, RowField::Pairs, n)
    &&& report.average_state_board_pairs_per_board == average(RowField::Pairs)
    &&& report.min_state_board_pairs_per_board == least_pairs(rows, n)
    &&& report.max_state_board_pairs_per_board == most_pairs(rows, n)
    &&& report.average_unique_terminal_states_per_board == average(RowField::States)
    &&& report.average_oop_unique_reaches_per_board == average(RowField::OopReaches)
    &&& report.average_ip_unique_reaches_per_board == average(RowField::IpReaches)
    &&& report.average_pair_unique_reaches_per_board == average(RowField::PairReaches)
    &&& report.average_oop_value_side_reuse_factor == mean_of(
        factor_total(rows, Player::Oop, n),
        n as usize,
    )
    &&& report.average_ip_value_side_reuse_factor == mean_of(
        factor_total(rows, Player::Ip, n),
        n as usize,
    )
}

/// Whether rows are those of the boards that are visited, in ascending order of the boards.
pub open spec fn are_reuse_rows<S: Scalar>(
    caches: Seq<TerminalEvalCache>,
    visits: Seq<Seq<BoardVisit>>,
    rows: Seq<TerminalBoardReuseRow<S>>,
    upto: int,
) -> bool {
    &&& forall|k: int|
        0 <= k < rows.len() ==> {
            let row = #[trigger] rows[k];
            &&& row.board_index < upto
            &&& row.board@ == caches[row.board_index as int].board@
            &&& visits[row.board_index as int].len() > 0
            &&& is_reuse_row(visits[row.board_index as int], row)
        }
    &&& forall|k: int, l: int|
        0 <= k < l < rows.len() ==> (#[trigger] rows[k]).board_index < (#[trigger] rows[l]).board_index
    &&& forall|b: int|
        0 <= b < upto && visits[b].len() > 0 ==> #[trigger] has_row(rows, b)
}

/// Whether a board has a row.
pub open spec fn has_row<S>(rows: Seq<TerminalBoardReuseRow<S>>, board: int) -> bool {
    exists|k: int| 0 <= k < rows.len() && (#[trigger] rows[k]).board_index == board
}

/// Whether a report holds the rows of the boards that are visited, the most visited first, and sums them
/// up.
pub open spec fn is_reuse_report<S: Scalar>(
    caches: Seq<TerminalEvalCache>,
    visits: Seq<Seq<BoardVisit>>,
    listed: Seq<TerminalBoardReuseRow<S>>,
    order: Seq<usize>,
    report: TerminalBoardReuseReport<S>,
) -> bool {
    &&& are_reuse_rows(caches, visits, listed, caches.len() as int)
    &&& is_sorting(row_keys(listed), 0, listed.len() as int, order)
    &&& report.rows@ == Seq::new(listed.len(), |i: int| listed[order[i] as int])
    &&& sums_up(report)
}

impl<S: Scalar> RealSetup<S> {
    /// How often the same work comes up again, by the visits to each board.
    pub fn reuse_report_of<W: Scalar>(&self, visits: &Vec<Vec<BoardVisit>>) -> (r: TerminalBoardReuseReport<W>)
        requires
            self.wf(),
            visits@.len() == self.terminal_cache@.len(),
        ensures
            exists|listed: Seq<TerminalBoardReuseRow<W>>, order: Seq<usize>| #[trigger]
                is_reuse_report(
                    self.terminal_cache@,
                    visit_lists(visits@),
                    listed,
                    order,
                    r,
                ),
    {
        let ghost lists = visit_lists(visits@);
        let mut listed: Vec<TerminalBoardReuseRow<W>> = Vec::new();
        for b in 0..visits.len()
            invariant
                self.wf(),
                visits@.len() == self.terminal_cache@.len(),
                lists == visit_lists(visits@),
                are_reuse_rows(self.terminal_cache@, lists, listed@, b as int),
        {
            let ghost was = listed@;
            proof {
                assert(lists[b as int] == visits@[b as int]@);
            }
            if visits[b].len() > 0 {
                let row: TerminalBoardReuseRow<W> = reuse_row(
                    b,
                    self.terminal_cache[b].board,
                    &visits[b],
                );
                listed.push(row);
                proof {
                    assert(listed@[was.len() as int].board_index == b);
                }
            }
            proof {
                assert forall|c: int| 0 <= c < b + 1 && lists[c].len() > 0 implies #[trigger] has_row(
                    listed@,
                    c,
                ) by {
                    if c < b {
                        assert(has_row(was, c));
                        let k = choose|k: int| 0 <= k < was.len() && (#[trigger] was[k]).board_index == c;
                        assert(listed@[k] == was[k]);
                    }
                }
            }
        }
        let mut keys: Vec<SortKey> = Vec::new();
        let ghost goal = row_keys(listed@);
        for i in 0..listed.len()
            invariant
                goal == row_keys(listed@),
                keys@ =~= goal.take(i as int),
        {
            keys.push(
                SortKey {
                    first: u64::MAX - listed[i].state_board_pairs as u64,
                    second: u64::MAX - listed[i].pair_unique_reaches as u64,
                    third: listed[i].board_index as u64,
                    fourth: 0,
                },
            );
        }
        proof {
            assert(goal.take(goal.len() as int) =~= goal);
        }
        let order: Vec<usize> = sorted_positions(&keys);
        let mut rows: Vec<TerminalBoardReuseRow<W>> = Vec::new();
        for i in 0..order.len()
            invariant
                is_sorting(goal, 0, goal.len() as int, order@),
                goal.len() == listed@.len(),
                rows@.len() == i,
                forall|k: int| 0 <= k < i ==> #[trigger] rows@[k] == listed@[order@[k] as int],
        {
            proof {
                assert(0 <= order@[i as int] < listed@.len());
            }
            rows.push(listed[order[i]]);
        }
        let mut least: usize = 0;
        let mut most: usize = 0;
        for n in 0..rows.len()
            invariant
                least == least_pairs(rows@, n as nat),
                most == most_pairs(rows@, n as nat),
        {
            let pairs: usize = rows[n].state_board_pairs;
            least =
            if n == 0 {
                pairs
            } else {
                min_usize(least, pairs)
            };
            most = max_usize(most, pairs);
        }
        let count: usize = rows.len();
        let state_board_pairs: usize = sum_rows(&rows, RowField::Pairs);
        let report = TerminalBoardReuseReport {
            state_board_pairs,
            unique_boards: count,
            average_state_board_pairs_per_board: average_usize(state_board_pairs, count),
            min_state_board_pairs_per_board: least,
            max_state_board_pairs_per_board: most,
            average_unique_terminal_states_per_board: average_usize(
                sum_rows(&rows, RowField::States),
                count,
            ),
            average_oop_unique_reaches_per_board: average_usize(
                sum_rows(&rows, RowField::OopReaches),
                count,
            ),
            average_ip_unique_reaches_per_board: average_usize(
                sum_rows(&rows, RowField::IpReaches),
                count,
            ),
            average_pair_unique_reaches_per_board: average_usize(
                sum_rows(&rows, RowField::PairReaches),
                count,
            ),
            average_oop_value_side_reuse_factor: mean_factor(&rows, Player::Oop),
            average_ip_value_side_reuse_factor: mean_factor(&rows, Player::Ip),
            rows,
        };
        proof {
            assert(report.rows@ =~= Seq::new(listed@.len(), |i: int| listed@[order@[i] as int]));
            assert(is_reuse_report(self.terminal_cache@, lists, listed@, order@, report));
        }
        report
    }
}

impl<S: Scalar> RealCfrSolver<S> {
    /// How many finished hands there are over all boards. Hands compared before the river are an error.
    pub fn terminal_eval_breakdown(&self) -> (r: Result<TerminalEvalBreakdown, String>)
        requires
            self.wf(),
        ensures
            match r {
                Ok(breakdown) => breakdown == self.setup.breakdown_spec(0, 3),
                Err(message) => message@ == "showdown terminal before river is invalid"@,
            },
            r is Err == self.setup.compares_early(0, 3),
    {
        self.setup.breakdown_from(0, 3)
    }

    /// How finished hands lie together by board, with averages in a number type of their own.
    pub fn terminal_board_locality<W: Scalar>(&self) -> (r: Result<TerminalBoardLocality<W>, String>)
        requires
            self.wf(),
        ensures
            r is Ok,
            exists|tasks: Seq<TerminalBoardTask>, counts: Seq<usize>|
                task_views(tasks) == self.setup.tasks_spec(0, self.setup.flop_board@) && counts.len()
                    == self.setup.terminal_cache@.len() && #[trigger] is_locality(
                    tasks,
                    counts,
                    r->Ok_0,
                ),
    {
        let tasks: Vec<TerminalBoardTask> = self.setup.collect_terminal_board_tasks();
        let report: TerminalBoardLocality<W> = self.setup.locality_of::<W>(&tasks);
        let r: Result<TerminalBoardLocality<W>, String> = Ok(report);
        proof {
            let counts = choose|counts: Seq<usize>|
                counts.len() == self.setup.terminal_cache@.len() && #[trigger] is_locality(
                    tasks@,
                    counts,
                    report,
                );
            assert(is_locality(tasks@, counts, r->Ok_0));
        }
        r
    }

    /// How often the same work comes up again when the current strategies are followed, with averages in
    /// a number type of their own.
    pub fn terminal_board_reuse_report<W: Scalar>(&self) -> (r: Result<TerminalBoardReuseReport<W>, String>)
        requires
            self.wf(),
        ensures
            r is Ok,
            exists|
                states: Seq<PhaseState>,
                listed: Seq<TerminalBoardReuseRow<W>>,
                order: Seq<usize>,
            |
                #![trigger self.reuses(states, listed, order, r->Ok_0)]
                self.reuses(states, listed, order, r->Ok_0),
    {
        let states: Vec<PhaseState> = self.setup.collect_phase_states();
        let reaches: ReachTable<S> = self.setup.forward_reaches(
            &states,
            &self.tables,
            EvaluationMode::Profile,
            StrategySource::Current,
            false,
        );
        let visits: Vec<Vec<BoardVisit>> = self.setup.board_visits(&states, &reaches);
        let report: TerminalBoardReuseReport<W> = self.setup.reuse_report_of::<W>(&visits);
        let r: Result<TerminalBoardReuseReport<W>, String> = Ok(report);
        proof {
            let lists = visit_lists(visits@);
            let (listed, order) = choose|
                listed: Seq<TerminalBoardReuseRow<W>>,
                order: Seq<usize>,
            | #[trigger]
                is_reuse_report(self.setup.terminal_cache@, lists, listed, order, report);
            assert(lists =~= self.setup.all_visits(states@, reaches@));
            assert(self.reuses(states@, listed, order, r->Ok_0));
        }
        r
    }

    /// Whether a report says how often the same work comes up again when the current strategies are
    /// followed.
    pub open spec fn reuses<W: Scalar>(
        self,
        states: Seq<PhaseState>,
        listed: Seq<TerminalBoardReuseRow<W>>,
        order: Seq<usize>,
        report: TerminalBoardReuseReport<W>,
    ) -> bool {
        &&& self.setup.is_phase(states)
        &&& is_reuse_report(
            self.setup.terminal_cache@,
            self.setup.all_visits(
                states,
                self.setup.reached(
                    states,
                    self.tables@,
                    EvaluationMode::Profile,
                    StrategySource::Current,
                    false,
                    states.len(),
                ),
            ),
            listed,
            order,
            report,
        )
    }
}

impl<S: Scalar> RealSetup<S> {
    /// The visits to each prepared board.
    pub open spec fn all_visits(self, states: Seq<PhaseState>, reaches: Reaches<S>) -> Seq<Seq<BoardVisit>> {
        Seq::new(
            self.terminal_cache@.len(),
            |b: int| self.visits_to(states, reaches, b, states.len()),
        )
    }
}

} // verus!
