//! How the work on a solver's states is divided: finished hands by their weight, all other states by how
//! far they are from the end.
use vstd::prelude::*;
use crate::arith::{ceil_quotient, ceil_quotient_usize, greater, lesser, max_usize, min_usize};
use crate::phase_states::{
    goes_on, kids, level, level_among, level_facts, phase_state_levels, PhaseState,
};
use crate::real_setup::{board_count_of, infoset_of, RealSetup};
use crate::scalar::Scalar;

verus! {

/// A stretch of states at one level, and the stretch of the tables in which their numbers stand.
#[derive(Clone, Copy, Debug, PartialEq, Eq, Structural)]
pub struct BackupRun {
    pub start: usize,
    pub end: usize,
    pub slot_start: usize,
    pub slot_end: usize,
}

/// A part of a stretch of states that one worker takes.
#[derive(Clone, Copy, Debug, PartialEq, Eq, Structural)]
pub struct BackupChunk {
    pub state_start: usize,
    pub state_end: usize,
    pub slot_start: usize,
    pub slot_end: usize,
}

/// The stretches of states by level, from the end on.
#[derive(Clone, Debug)]
pub struct BackupLevelPlan {
    pub levels: Vec<Vec<BackupRun>>,
}

/// The place of the first state that nothing follows.
pub fn first_terminal_state_index(states: &[PhaseState]) -> (r: usize)
    ensures
        r <= states@.len(),
        forall|i: int| 0 <= i < r ==> (#[trigger] states@[i]).children@.len() > 0,
        r < states@.len() ==> states@[r as int].children@.len() == 0,
{
    let mut at: usize = 0;
    while at < states.len()
        invariant
            at <= states@.len(),
            forall|i: int| 0 <= i < at ==> (#[trigger] states@[i]).children@.len() > 0,
        decreases states@.len() - at,
    {
        if states[at].children.len() == 0 {
            return at;
        }
        at = at + 1;
    }
    at
}

/// How much work a finished hand is: its classes of boards, at least one.
pub open spec fn state_weight(state: PhaseState) -> int {
    greater(state.terminal_cache_refs@.len() as int, 1)
}

/// How much work a finished hand is.
pub fn terminal_phase_state_weight(state: &PhaseState) -> (r: usize)
    ensures
        r == state_weight(*state),
{
    max_usize(state.terminal_cache_refs.len(), 1)
}

/// How much work the states from one place to another are.
pub open spec fn weight_between(states: Seq<PhaseState>, start: int, end: int) -> int
    decreases end - start,
{
    if start >= end {
        0
    } else {
        weight_between(states, start, end - 1) + state_weight(states[end - 1])
    }
}

/// The parts into which the states from a place on are cut, with the state at `index` next, so much work
/// gathered since `start`, and so many parts cut before: a part ends where it holds its share of the
/// work, as long as enough states are left for the parts to come; the last part takes all that is left.
pub open spec fn parts_from(
    states: Seq<PhaseState>,
    threads: int,
    share: int,
    start: int,
    index: int,
    weight: int,
    count: int,
) -> Seq<(usize, usize)>
    decreases states.len() - index,
{
    if index >= states.len() {
        if start < states.len() {
            seq![(start as usize, states.len() as usize)]
        } else {
            Seq::empty()
        }
    } else {
        let gathered = weight + state_weight(states[index]);
        if gathered >= share && states.len() - index - 1 >= greater(threads - (count + 1), 0) {
            let part = (start as usize, (index + 1) as usize);
            if count + 2 == threads {
                if index + 1 < states.len() {
                    seq![part, ((index + 1) as usize, states.len() as usize)]
                } else {
                    seq![part]
                }
            } else {
                seq![part] + parts_from(states, threads, share, index + 1, index + 1, 0, count + 1)
            }
        } else {
            parts_from(states, threads, share, start, index + 1, gathered, count)
        }
    }
}

/// The parts into which the states from a place on are cut for so many workers.
pub open spec fn parts(states: Seq<PhaseState>, terminal_start: int, threads: int) -> Seq<(usize, usize)> {
    let len = states.len() - terminal_start;
    if len == 0 {
        Seq::empty()
    } else {
        let workers = lesser(greater(threads, 1), len);
        let share = ceil_quotient(
            greater(weight_between(states, terminal_start, states.len() as int), 1),
            workers,
        );
        parts_from(states, workers, share, terminal_start, terminal_start, 0, 0)
    }
}

/// Whether parts are not empty, follow each other, and cover everything from one place to another.
pub open spec fn covers(parts: Seq<(usize, usize)>, start: int, end: int) -> bool
    decreases parts.len(),
{
    if parts.len() == 0 {
        start == end
    } else {
        &&& parts[0].0 == start
        &&& parts[0].0 < parts[0].1
        &&& covers(parts.drop_first(), parts[0].1 as int, end)
    }
}

proof fn lemma_parts_cover(
    states: Seq<PhaseState>,
    threads: int,
    share: int,
    start: int,
    index: int,
    weight: int,
    count: int,
)
    requires
        0 <= start <= index <= states.len() <= usize::MAX,
    ensures
        covers(
            parts_from(states, threads, share, start, index, weight, count),
            start,
            states.len() as int,
        ),
    decreases states.len() - index,
{
    let list = parts_from(states, threads, share, start, index, weight, count);
    if index >= states.len() {
        if start < states.len() {
            assert(list.drop_first() =~= Seq::<(usize, usize)>::empty());
            assert(covers(list.drop_first(), states.len() as int, states.len() as int));
        }
    } else {
        let gathered = weight + state_weight(states[index]);
        if gathered >= share && states.len() - index - 1 >= greater(threads - (count + 1), 0) {
            if count + 2 == threads {
                if index + 1 < states.len() {
                    let rest = list.drop_first();
                    assert(rest =~= seq![((index + 1) as usize, states.len() as usize)]);
                    assert(rest.drop_first() =~= Seq::<(usize, usize)>::empty());
                    assert(covers(rest.drop_first(), states.len() as int, states.len() as int));
                    assert(covers(rest, index + 1, states.len() as int));
                } else {
                    assert(list.drop_first() =~= Seq::<(usize, usize)>::empty());
                    assert(covers(list.drop_first(), states.len() as int, states.len() as int));
                }
            } else {
                let rest = parts_from(states, threads, share, index + 1, index + 1, 0, count + 1);
                lemma_parts_cover(states, threads, share, index + 1, index + 1, 0, count + 1);
                assert(list.drop_first() =~= rest);
            }
        } else {
            lemma_parts_cover(states, threads, share, start, index + 1, gathered, count);
        }
    }
}

/// The parts into which finished hands are cut are not empty, follow each other, and cover all of them.
pub proof fn parts_cover_terminal_states(states: Seq<PhaseState>, terminal_start: int, threads: int)
    requires
        0 <= terminal_start <= states.len() <= usize::MAX,
    ensures
        covers(parts(states, terminal_start, threads), terminal_start, states.len() as int),
{
    let len = states.len() - terminal_start;
    if len > 0 {
        let workers = lesser(greater(threads, 1), len);
        let share = ceil_quotient(
            greater(weight_between(states, terminal_start, states.len() as int), 1),
            workers,
        );
        lemma_parts_cover(states, workers, share, terminal_start, terminal_start, 0, 0);
    }
}

proof fn lemma_weight_bound(states: Seq<PhaseState>, start: int, end: int)
    requires
        0 <= start <= end <= states.len(),
        forall|i: int|
            0 <= i < states.len() ==> state_weight(#[trigger] states[i]) <= 0xffff_ffff_ffff_ffff,
    ensures
        0 <= weight_between(states, start, end) <= (end - start) * 0xffff_ffff_ffff_ffff,
    decreases end - start,
{
    if start < end {
        lemma_weight_bound(states, start, end - 1);
    }
}

/// The parts into which the states from a place on are cut for so many workers.
pub fn terminal_phase_partitions(states: &[PhaseState], terminal_start: usize, threads: usize) -> (r: Vec<
    (usize, usize),
>)
    requires
        terminal_start <= states@.len(),
    ensures
        r@ == parts(states@, terminal_start as int, threads as int),
        covers(r@, terminal_start as int, states@.len() as int),
{
    let count: usize = states.len();
    proof {
        parts_cover_terminal_states(states@, terminal_start as int, threads as int);
    }
    let mut out: Vec<(usize, usize)> = Vec::new();
    let len: usize = count - terminal_start;
    if len == 0 {
        return out;
    }
    let workers: usize = min_usize(max_usize(threads, 1), len);
    let mut total: u128 = 0;
    let mut at: usize = terminal_start;
    while at < count
        invariant
            count == states@.len(),
            terminal_start <= at <= count,
            total == weight_between(states@, terminal_start as int, at as int),
            total <= (at - terminal_start) * 0xffff_ffff_ffff_ffff,
        decreases count - at,
    {
        let weight: usize = terminal_phase_state_weight(&states[at]);
        proof {
            assert((at - terminal_start) * 0xffff_ffff_ffff_ffff <= 0xffff_ffff_ffff_fffe
                * 0xffff_ffff_ffff_ffff) by (nonlinear_arith)
                requires
                    at - terminal_start <= 0xffff_ffff_ffff_fffe,
            ;
            assert((at + 1 - terminal_start) * 0xffff_ffff_ffff_ffff == (at - terminal_start)
                * 0xffff_ffff_ffff_ffff + 0xffff_ffff_ffff_ffff) by (nonlinear_arith);
        }
        total = total + weight as u128;
        at = at + 1;
    }
    if total < 1 {
        total = 1;
    }
    let share: u128 = (total - 1) / (workers as u128) + 1;
    let ghost goal = parts(states@, terminal_start as int, threads as int);
    proof {
        crate::arith::ceil_quotient_is_least(total as int, workers as int);
        assert(share == ceil_quotient(total as int, workers as int));
    }
    let mut start: usize = terminal_start;
    let mut weight: u128 = 0;
    let mut index: usize = terminal_start;
    let mut done: bool = false;
    while index < count && !done
        invariant
            count == states@.len(),
            terminal_start <= start <= index <= count,
            0 < workers <= count,
            weight <= (index - terminal_start) * 0xffff_ffff_ffff_ffff,
            !done ==> goal == out@ + parts_from(
                states@,
                workers as int,
                share as int,
                start as int,
                index as int,
                weight as int,
                out@.len() as int,
            ),
            done ==> goal == out@ + (if start < count {
                seq![(start, count)]
            } else {
                Seq::empty()
            }),
            out@.len() <= index,
        decreases count - index,
    {
        let ghost before = out@;
        let ghost left = parts_from(
            states@,
            workers as int,
            share as int,
            start as int,
            index as int,
            weight as int,
            out@.len() as int,
        );
        let more: usize = terminal_phase_state_weight(&states[index]);
        proof {
            assert((index - terminal_start) * 0xffff_ffff_ffff_ffff <= 0xffff_ffff_ffff_fffe
                * 0xffff_ffff_ffff_ffff) by (nonlinear_arith)
                requires
                    index - terminal_start <= 0xffff_ffff_ffff_fffe,
            ;
            assert((index + 1 - terminal_start) * 0xffff_ffff_ffff_ffff == (index - terminal_start)
                * 0xffff_ffff_ffff_ffff + 0xffff_ffff_ffff_ffff) by (nonlinear_arith);
        }
        weight = weight + more as u128;
        let remaining_states: usize = count - index - 1;
        let placed: usize = out.len();
        let remaining_parts: usize = if workers >= placed + 1 {
            workers - (placed + 1)
        } else {
            0
        };
        index = index + 1;
        if weight >= share && remaining_states >= remaining_parts {
            out.push((start, index));
            let ghost part = (start, index);
            start = index;
            weight = 0;
            proof {
                assert(0 <= (index - terminal_start) * 0xffff_ffff_ffff_ffff) by (nonlinear_arith)
                    requires
                        index >= terminal_start,
                ;
            }
            if workers >= 2 && placed == workers - 2 {
                done = true;
                proof {
                    if start < count {
                        assert(left =~= seq![part, (start, count)]);
                    } else {
                        assert(left =~= seq![part]);
                    }
                    assert(goal =~= out@ + (if start < count {
                        seq![(start, count)]
                    } else {
                        Seq::empty()
                    }));
                }
            } else {
                proof {
                    let rest = parts_from(
                        states@,
                        workers as int,
                        share as int,
                        index as int,
                        index as int,
                        0,
                        placed + 1,
                    );
                    assert(left =~= seq![part] + rest);
                    assert(goal =~= out@ + rest);
                }
            }
        }
    }
    if start < count {
        out.push((start, count));
    }
    proof {
        assert(out@ =~= goal);
    }
    out
}

/// Where the numbers of the states from one place to another stand.
pub open spec fn slots_between<S: Scalar>(
    setup: RealSetup<S>,
    states: Seq<PhaseState>,
    start: int,
    end: int,
) -> Option<(int, int)>
    decreases end - start,
{
    if start >= end {
        None
    } else {
        let front = slots_between(setup, states, start, end - 1);
        match (front, setup.slot_range(states[end - 1])) {
            (Some((a, b)), Some((c, d))) => Some((lesser(a, c), greater(b, d))),
            (None, range) => range,
            (front, None) => front,
        }
    }
}

/// The stretch of states from one place to another.
pub open spec fn run_of<S: Scalar>(
    setup: RealSetup<S>,
    states: Seq<PhaseState>,
    start: int,
    end: int,
) -> BackupRun {
    let (slot_start, slot_end) = match slots_between(setup, states, start, end) {
        Some((a, b)) => (a, b),
        None => (0int, 0int),
    };
    BackupRun {
        start: start as usize,
        end: end as usize,
        slot_start: slot_start as usize,
        slot_end: slot_end as usize,
    }
}

/// Whether a stretch holds exactly the states of a level among the first ones.
pub open spec fn is_level_run(kids: Seq<Seq<usize>>, run: BackupRun, at: nat, upto: int) -> bool {
    &&& run.start < run.end <= upto
    &&& forall|i: int|
        0 <= i < upto ==> (#[trigger] level(kids, i) == at <==> run.start <= i < run.end)
}

/// Whether every level has one stretch, which holds exactly its states.
pub open spec fn is_level_plan<S: Scalar>(
    setup: RealSetup<S>,
    states: Seq<PhaseState>,
    plan: BackupLevelPlan,
) -> bool {
    &&& plan.levels@.len() == level(kids(states), 0) + 1
    &&& forall|at: int|
        0 <= at < plan.levels@.len() ==> {
            let runs = (#[trigger] plan.levels@[at])@;
            &&& runs.len() == 1
            &&& is_level_run(kids(states), runs[0], at as nat, states.len() as int)
            &&& runs[0] == run_of(setup, states, runs[0].start as int, runs[0].end as int)
        }
}

/// Below every state that is not at the end, something stands one level lower.
proof fn lemma_next_level(kids: Seq<Seq<usize>>, i: int)
    requires
        goes_on(kids),
        0 <= i < kids.len(),
        level(kids, i) > 0,
    ensures
        exists|j: int| 0 <= j < kids.len() && #[trigger] level(kids, j) == level(kids, i) - 1,
{
    lemma_next_among(kids, i, kids[i].len());
}

proof fn lemma_next_among(kids: Seq<Seq<usize>>, i: int, n: nat)
    requires
        goes_on(kids),
        0 <= i < kids.len(),
        n <= kids[i].len(),
        level_among(kids, i, n) > 0,
    ensures
        exists|j: int| 0 <= j < kids.len() && #[trigger] level(kids, j) == level_among(kids, i, n) - 1,
    decreases n,
{
    let child = kids[i][n - 1] as int;
    assert(i < kids[i][n - 1] < kids.len());
    if level(kids, child) + 1 > level_among(kids, i, (n - 1) as nat) {
        assert(level(kids, child) == level_among(kids, i, n) - 1);
    } else {
        lemma_next_among(kids, i, (n - 1) as nat);
    }
}

proof fn lemma_all_levels(kids: Seq<Seq<usize>>, i: int, at: nat)
    requires
        goes_on(kids),
        0 <= i < kids.len(),
        at <= level(kids, i),
    ensures
        exists|j: int| 0 <= j < kids.len() && #[trigger] level(kids, j) == at,
    decreases level(kids, i),
{
    if at < level(kids, i) {
        lemma_next_level(kids, i);
        let j = choose|j: int| 0 <= j < kids.len() && #[trigger] level(kids, j) == level(kids, i) - 1;
        lemma_all_levels(kids, j, at);
    }
}

impl<S: Scalar> RealSetup<S> {
    /// States stand in descending order of their levels.
    pub proof fn levels_descend(self, states: Seq<PhaseState>, i: int, j: int)
        requires
            self.is_phase(states),
            0 <= i <= j < states.len(),
        ensures
            level(kids(states), j) <= level(kids(states), i),
    {
        if i < j {
            assert(self.in_order(states, i, j));
            level_facts(kids(states), i);
            level_facts(kids(states), j);
        }
    }

    /// The numbers of two states do not overlap.
    pub proof fn rows_apart(self, states: Seq<PhaseState>, i: int, j: int)
        requires
            self.wf(),
            self.is_phase(states),
            0 <= i < states.len(),
            0 <= j < states.len(),
            i != j,
            self.slot_range(states[i]) is Some,
            self.slot_range(states[j]) is Some,
        ensures
            ({
                let (a, b) = self.slot_range(states[i])->Some_0;
                let (c, d) = self.slot_range(states[j])->Some_0;
                b <= c || d <= a
            }),
    {
        let (m, n) = (states[i].node_id as int, states[j].node_id as int);
        assert(self.is_phase_state(states, i) && self.is_phase_state(states, j));
        self.knows_has_slot(states[i].board@);
        self.knows_has_slot(states[j].board@);
        self.row_fits(m, states[i].board_slot as int);
        self.row_fits(n, states[j].board_slot as int);
        if m == n {
            let (x, y) = (states[i].board_slot as int, states[j].board_slot as int);
            assert(x != y) by {
                if i < j {
                    assert(!(states[i].node_id == states[j].node_id && states[i].board@
                        == states[j].board@));
                } else {
                    assert(!(states[j].node_id == states[i].node_id && states[j].board@
                        == states[i].board@));
                }
            }
            let row = self.row_len(m);
            assert(x < y ==> x * row + row <= y * row) by (nonlinear_arith)
                requires
                    row >= 0,
            ;
            assert(y < x ==> y * row + row <= x * row) by (nonlinear_arith)
                requires
                    row >= 0,
            ;
        } else if m < n {
            self.lemma_rows_of_nodes(m, n, states[i].board_slot as int, states[j].board_slot as int);
        } else {
            self.lemma_rows_of_nodes(n, m, states[j].board_slot as int, states[i].board_slot as int);
        }
    }

    proof fn lemma_rows_of_nodes(self, m: int, n: int, x: int, y: int)
        requires
            self.wf(),
            0 <= m < n < self.tree.nodes@.len(),
            self.infosets@[m] is Some,
            self.infosets@[n] is Some,
            0 <= x < board_count_of(
                self.tree.nodes@[m].state.board@.len(),
                self.turns().len(),
                self.rivers().len(),
            ),
            0 <= y,
            0 <= self.row_len(n),
        ensures
            self.row_start(m, x) + self.row_len(m) <= self.row_start(n, y),
    {
        let nodes = self.tree.nodes@;
        let (oop, ip) = (self.oop().len(), self.ip().len());
        let (turns, rivers) = (self.turns().len(), self.rivers().len());
        assert(self.infosets@[m] == infoset_of(nodes, oop, ip, turns, rivers, m));
        assert(self.infosets@[n] == infoset_of(nodes, oop, ip, turns, rivers, n));
        crate::real_setup::slots_grow(nodes, oop, ip, turns, rivers, (m + 1) as nat, n as nat);
        crate::real_setup::slots_grow(nodes, oop, ip, turns, rivers, m as nat, nodes.len());
        crate::real_setup::slots_grow(nodes, oop, ip, turns, rivers, n as nat, nodes.len());
        crate::real_setup::slots_grow(nodes, oop, ip, turns, rivers, (m + 1) as nat, nodes.len());
        let infoset = self.infosets@[m]->Some_0;
        let boards = board_count_of(nodes[m].state.board@.len(), turns, rivers) as int;
        let combos = self.combos(infoset.player) as int;
        let actions = infoset.actions as int;
        self.row_fits(m, x);
        let row = combos * actions;
        assert(boards * combos * actions == boards * row) by (nonlinear_arith)
            requires
                row == combos * actions,
        ;
        assert(x * row + row <= boards * row) by (nonlinear_arith)
            requires
                0 <= x < boards,
                0 <= row,
        ;
        let other = self.row_len(n);
        assert(0 <= y * other) by (nonlinear_arith)
            requires
                y >= 0,
                other >= 0,
        ;
    }

    /// Of two states at one level, the numbers of the former stand before those of the latter, and if the
    /// former has none the latter has none.
    pub proof fn rows_in_order(self, states: Seq<PhaseState>, i: int, j: int)
        requires
            self.wf(),
            self.is_phase(states),
            0 <= i < j < states.len(),
            level(kids(states), i) == level(kids(states), j),
        ensures
            match (self.slot_range(states[i]), self.slot_range(states[j])) {
                (Some((a, b)), Some((c, d))) => b <= c,
                (None, Some(range)) => false,
                _ => true,
            },
    {
        assert(self.in_order(states, i, j));
        assert(self.is_phase_state(states, i) && self.is_phase_state(states, j));
        self.knows_has_slot(states[i].board@);
        self.knows_has_slot(states[j].board@);
        level_facts(kids(states), i);
        if self.slot_range(states[j]) is Some {
            self.row_fits(states[j].node_id as int, states[j].board_slot as int);
            if self.slot_range(states[i]) is Some {
                self.row_fits(states[i].node_id as int, states[i].board_slot as int);
                self.rows_apart(states, i, j);
            }
        }
    }

    /// The stretch of states from one place to another.
    pub fn backup_run_with_slots(&self, states: &[PhaseState], start: usize, end: usize) -> (r: BackupRun)
        requires
            self.wf(),
            self.is_phase(states@),
            start <= end <= states@.len(),
        ensures
            r == run_of(*self, states@, start as int, end as int),
    {
        let mut slots: Option<(usize, usize)> = None;
        let mut at: usize = start;
        while at < end
            invariant
                self.wf(),
                self.is_phase(states@),
                start <= at <= end <= states@.len(),
                match (slots, slots_between(*self, states@, start as int, at as int)) {
                    (Some((a, b)), Some((c, d))) => a == c && b == d,
                    (None, None) => true,
                    _ => false,
                },
            decreases end - at,
        {
            let state: &PhaseState = &states[at];
            proof {
                assert(self.is_phase_state(states@, at as int));
                self.knows_has_slot(state.board@);
            }
            if let Some((a, b)) = self.backup_state_slot_range(state.node_id, state.board_slot) {
                slots =
                match slots {
                    Some((c, d)) => Some((min_usize(c, a), max_usize(d, b))),
                    None => Some((a, b)),
                };
            }
            at = at + 1;
        }
        let (slot_start, slot_end): (usize, usize) = match slots {
            Some((a, b)) => (a, b),
            None => (0, 0),
        };
        BackupRun { start, end, slot_start, slot_end }
    }

    /// One stretch for each level.
    pub fn backup_level_plan(&self, states: &[PhaseState]) -> (r: BackupLevelPlan)
        requires
            self.wf(),
            self.is_phase(states@),
        ensures
            is_level_plan(*self, states@, r),
    {
        let count: usize = states.len();
        let state_level: Vec<usize> = phase_state_levels(states);
        let ghost all = kids(states@);
        let most: usize = state_level[0];
        proof {
            level_facts(all, 0);
        }
        let mut levels: Vec<Vec<BackupRun>> = Vec::new();
        for at in 0..most + 1
            invariant
                levels@.len() == at,
                forall|k: int| 0 <= k < at ==> (#[trigger] levels@[k])@.len() == 0,
        {
            levels.push(Vec::new());
        }
        let mut run_start: usize = 0;
        let mut run_level: usize = most;
        let mut index: usize = 1;
        while index < count
            invariant
                self.wf(),
                self.is_phase(states@),
                all == kids(states@),
                count == states@.len(),
                state_level@.len() == count,
                forall|i: int| 0 <= i < count ==> #[trigger] state_level@[i] == level(all, i),
                most == level(all, 0),
                run_start < index <= count,
                run_level <= most,
                levels@.len() == most + 1,
                forall|i: int| run_start <= i < index ==> #[trigger] level(all, i) == run_level,
                forall|i: int| 0 <= i < run_start ==> #[trigger] level(all, i) > run_level,
                forall|k: int| 0 <= k <= run_level ==> (#[trigger] levels@[k])@.len() == 0,
                forall|k: int|
                    run_level < k <= most ==> runs_ok(*self, states@, #[trigger] levels@[k]@, k, run_start as int),
            decreases count - index,
        {
            let next: usize = state_level[index];
            proof {
                self.levels_descend(states@, index - 1, index as int);
                self.levels_descend(states@, 0, index as int);
            }
            if next != run_level {
                let run: BackupRun = self.backup_run_with_slots(states, run_start, index);
                let ghost was = levels@;
                levels[run_level].push(run);
                proof {
                    assert forall|k: int| next < k <= most implies runs_ok(
                        *self,
                        states@,
                        #[trigger] levels@[k]@,
                        k,
                        index as int,
                    ) by {
                        if k == run_level {
                            assert(levels@[k]@ =~= seq![run]);
                            assert(is_level_run(all, run, k as nat, index as int));
                        } else {
                            assert(levels@[k] == was[k]);
                            if k > run_level {
                                assert(runs_ok(*self, states@, was[k]@, k, run_start as int));
                                lemma_runs_ok(*self, states@, was[k]@, k, run_start as int, index as int);
                            }
                        }
                    }
                }
                run_start = index;
                run_level = next;
            }
            index = index + 1;
        }
        let run: BackupRun = self.backup_run_with_slots(states, run_start, count);
        let ghost was = levels@;
        levels[run_level].push(run);
        proof {
            assert forall|k: int| 0 <= k < levels@.len() implies {
                let runs = (#[trigger] levels@[k])@;
                &&& runs.len() == 1
                &&& is_level_run(all, runs[0], k as nat, states@.len() as int)
                &&& runs[0] == run_of(*self, states@, runs[0].start as int, runs[0].end as int)
            } by {
                lemma_all_levels(all, 0, k as nat);
                let j = choose|j: int| 0 <= j < all.len() && #[trigger] level(all, j) == k;
                if k == run_level {
                    assert(levels@[k]@ =~= seq![run]);
                    assert(is_level_run(all, run, k as nat, count as int));
                } else {
                    assert(levels@[k] == was[k]);
                    if k > run_level {
                        assert(runs_ok(*self, states@, was[k]@, k, run_start as int));
                        lemma_runs_ok(*self, states@, was[k]@, k, run_start as int, count as int);
                    }
                }
            }
        }
        BackupLevelPlan { levels }
    }

    /// Where the states of a stretch that have numbers end.
    pub fn backup_run_decision_prefix_end(&self, states: &[PhaseState], run: &BackupRun) -> (r: usize)
        requires
            self.wf(),
            self.is_phase(states@),
            run.start <= run.end <= states@.len(),
        ensures
            run.start <= r <= run.end,
            forall|i: int|
                run.start <= i < r ==> self.infosets@[(#[trigger] states@[i]).node_id as int] is Some,
            r < run.end ==> self.infosets@[states@[r as int].node_id as int] is None,
    {
        let mut at: usize = run.start;
        while at < run.end
            invariant
                self.wf(),
                self.is_phase(states@),
                run.start <= at <= run.end <= states@.len(),
                forall|i: int|
                    run.start <= i < at ==> self.infosets@[(#[trigger] states@[i]).node_id as int] is Some,
            decreases run.end - at,
        {
            proof {
                assert(self.is_phase_state(states@, at as int));
            }
            if self.infosets[states[at].node_id].is_none() {
                return at;
            }
            at = at + 1;
        }
        at
    }

    /// The chunks into which a stretch of states with numbers is cut for so many workers: all of one
    /// length but for the last, with their numbers in order and apart.
    pub fn backup_decision_chunks(
        &self,
        states: &[PhaseState],
        state_start: usize,
        state_end: usize,
        threads: usize,
    ) -> (r: Vec<BackupChunk>)
        requires
            self.wf(),
            self.is_phase(states@),
            state_start <= state_end <= states@.len(),
            forall|i: int|
                state_start <= i < state_end ==> self.infosets@[(
                #[trigger] states@[i]).node_id as int] is Some && level(kids(states@), i) == level(
                    kids(states@),
                    state_start as int,
                ),
        ensures
            are_chunks(
                *self,
                states@,
                state_start as int,
                state_end as int,
                chunk_length(state_end - state_start, threads as int),
                r@,
            ),
            chunks_in_order(r@),
    {
        let state_count: usize = state_end - state_start;
        let mut chunks: Vec<BackupChunk> = Vec::new();
        if state_count == 0 {
            proof {
                assert(0int * 1int == 0);
            }
            return chunks;
        }
        let chunk_count: usize = min_usize(max_usize(threads, 1), state_count);
        let chunk_len: usize = ceil_quotient_usize(state_count, chunk_count);
        proof {
            crate::arith::ceil_quotient_is_least(state_count as int, chunk_count as int);
            assert(chunk_len > 0) by {
                if chunk_len == 0 {
                    assert(chunk_count * 0 == 0);
                }
            }
            assert(0int * (chunk_len as int) == 0);
        }
        let mut start: usize = state_start;
        while start < state_end
            invariant
                self.wf(),
                self.is_phase(states@),
                state_start <= start <= state_end <= states@.len(),
                chunk_len > 0,
                chunk_len == chunk_length(state_end - state_start, threads as int),
                forall|i: int|
                    state_start <= i < state_end ==> self.infosets@[(
                    #[trigger] states@[i]).node_id as int] is Some && level(kids(states@), i) == level(
                        kids(states@),
                        state_start as int,
                    ),
                start == lesser(state_start + chunks@.len() * chunk_len, state_end as int),
                start < state_end ==> start == state_start + chunks@.len() * chunk_len,
                are_chunks(
                    *self,
                    states@,
                    state_start as int,
                    start as int,
                    chunk_len as int,
                    chunks@,
                ),
                chunks_in_order(chunks@),
            decreases state_end - start,
        {
            let left: usize = state_end - start;
            let end: usize = if chunk_len < left {
                start + chunk_len
            } else {
                state_end
            };
            let run: BackupRun = self.backup_run_with_slots(states, start, end);
            let ghost was = chunks@;
            let chunk = BackupChunk {
                state_start: start,
                state_end: end,
                slot_start: run.slot_start,
                slot_end: run.slot_end,
            };
            chunks.push(chunk);
            proof {
                let n = was.len() as int;
                assert((n + 1) * chunk_len == n * chunk_len + chunk_len) by (nonlinear_arith);
                assert forall|k: int| 0 <= k < chunks@.len() implies #[trigger] is_chunk(
                    *self,
                    states@,
                    state_start as int,
                    end as int,
                    chunk_len as int,
                    chunks@,
                    k,
                ) by {
                    if k < n {
                        assert(is_chunk(
                            *self,
                            states@,
                            state_start as int,
                            start as int,
                            chunk_len as int,
                            was,
                            k,
                        ));
                        assert((k + 1) * chunk_len <= n * chunk_len) by (nonlinear_arith)
                            requires
                                k + 1 <= n,
                                chunk_len > 0,
                        ;
                    }
                }
                assert forall|a: int, b: int| 0 <= a < b < chunks@.len() implies #[trigger] chunks@[a].state_end
                    <= #[trigger] chunks@[b].state_start && chunks@[a].slot_end
                    <= chunks@[b].slot_start by {
                    if b == n {
                        let c = was[a];
                        assert(is_chunk(
                            *self,
                            states@,
                            state_start as int,
                            start as int,
                            chunk_len as int,
                            was,
                            a,
                        ));
                        assert((a + 1) * chunk_len <= n * chunk_len) by (nonlinear_arith)
                            requires
                                a + 1 <= n,
                                chunk_len > 0,
                        ;
                        assert(0 <= a * chunk_len) by (nonlinear_arith)
                            requires
                                a >= 0,
                                chunk_len > 0,
                        ;
                        self.lemma_stretches_apart(
                            states@,
                            c.state_start as int,
                            c.state_end as int,
                            start as int,
                            end as int,
                        );
                    } else {
                        assert(chunks@[a] == was[a] && chunks@[b] == was[b]);
                    }
                }
            }
            start = end;
        }
        chunks
    }

    /// The numbers of a former stretch at one level stand before those of a latter.
    proof fn lemma_stretches_apart(self, states: Seq<PhaseState>, a: int, b: int, c: int, d: int)
        requires
            self.wf(),
            self.is_phase(states),
            0 <= a < b <= c < d <= states.len(),
            forall|i: int|
                a <= i < d ==> self.infosets@[(#[trigger] states[i]).node_id as int] is Some && level(
                    kids(states),
                    i,
                ) == level(kids(states), a),
        ensures
            run_of(self, states, a, b).slot_end <= run_of(self, states, c, d).slot_start,
    {
        self.lemma_last_slots(states, a, b);
        self.lemma_first_slots(states, c, d);
        self.rows_in_order(states, b - 1, c);
    }

    proof fn lemma_last_slots(self, states: Seq<PhaseState>, a: int, b: int)
        requires
            self.wf(),
            self.is_phase(states),
            0 <= a < b <= states.len(),
            forall|i: int|
                a <= i < b ==> self.infosets@[(#[trigger] states[i]).node_id as int] is Some && level(
                    kids(states),
                    i,
                ) == level(kids(states), a),
        ensures
            slots_between(self, states, a, b) is Some,
            0 <= (slots_between(self, states, a, b)->Some_0).0 <= (slots_between(
                self,
                states,
                a,
                b,
            )->Some_0).1 == (self.slot_range(states[b - 1])->Some_0).1 <= self.action_slots,
        decreases b - a,
    {
        assert(self.is_phase_state(states, b - 1));
        self.knows_has_slot(states[b - 1].board@);
        assert(self.infosets@[states[b - 1].node_id as int] is Some);
        self.row_fits(states[b - 1].node_id as int, states[b - 1].board_slot as int);
        if a + 1 < b {
            self.lemma_last_slots(states, a, b - 1);
            assert(level(kids(states), b - 2) == level(kids(states), b - 1)) by {
                assert(self.infosets@[states[b - 2].node_id as int] is Some);
            }
            self.rows_in_order(states, b - 2, b - 1);
        } else {
            assert(slots_between(self, states, a, b - 1) is None);
        }
    }

    proof fn lemma_first_slots(self, states: Seq<PhaseState>, a: int, b: int)
        requires
            self.wf(),
            self.is_phase(states),
            0 <= a < b <= states.len(),
            forall|i: int|
                a <= i < b ==> self.infosets@[(#[trigger] states[i]).node_id as int] is Some && level(
                    kids(states),
                    i,
                ) == level(kids(states), a),
        ensures
            slots_between(self, states, a, b) is Some,
            0 <= (slots_between(self, states, a, b)->Some_0).0 == (self.slot_range(
                states[a],
            )->Some_0).0 <= self.action_slots,
        decreases b - a,
    {
        assert(self.is_phase_state(states, a));
        self.knows_has_slot(states[a].board@);
        assert(self.infosets@[states[a].node_id as int] is Some);
        self.row_fits(states[a].node_id as int, states[a].board_slot as int);
        if a + 1 < b {
            self.lemma_first_slots(states, a, b - 1);
            assert(self.infosets@[states[b - 1].node_id as int] is Some);
            assert(self.is_phase_state(states, b - 1));
            self.knows_has_slot(states[b - 1].board@);
            self.row_fits(states[b - 1].node_id as int, states[b - 1].board_slot as int);
            self.rows_in_order(states, a, b - 1);
        } else {
            assert(slots_between(self, states, a, b - 1) is None);
        }
    }
}

/// How many states a chunk has, but for the last.
pub open spec fn chunk_length(states: int, threads: int) -> int {
    if states == 0 {
        1
    } else {
        ceil_quotient(states, lesser(greater(threads, 1), states))
    }
}

/// Whether a chunk of a list is the one that belongs at its place.
pub open spec fn is_chunk<S: Scalar>(
    setup: RealSetup<S>,
    states: Seq<PhaseState>,
    start: int,
    end: int,
    length: int,
    chunks: Seq<BackupChunk>,
    k: int,
) -> bool {
    let chunk = chunks[k];
    let run = run_of(setup, states, chunk.state_start as int, chunk.state_end as int);
    &&& chunk.state_start == start + k * length
    &&& chunk.state_end == lesser(start + (k + 1) * length, end)
    &&& chunk.state_start < chunk.state_end
    &&& chunk.slot_start == run.slot_start
    &&& chunk.slot_end == run.slot_end
}

/// Whether chunks cut a stretch of states.
pub open spec fn are_chunks<S: Scalar>(
    setup: RealSetup<S>,
    states: Seq<PhaseState>,
    start: int,
    end: int,
    length: int,
    chunks: Seq<BackupChunk>,
) -> bool {
    &&& forall|k: int|
        0 <= k < chunks.len() ==> #[trigger] is_chunk(setup, states, start, end, length, chunks, k)
    &&& end <= start + chunks.len() * length
    &&& chunks.len() == 0 ==> start == end
}

/// Whether chunks follow each other, and so do their numbers.
pub open spec fn chunks_in_order(chunks: Seq<BackupChunk>) -> bool {
    forall|a: int, b: int|
        0 <= a < b < chunks.len() ==> #[trigger] chunks[a].state_end <= #[trigger] chunks[b].state_start
            && chunks[a].slot_end <= chunks[b].slot_start
}

/// Whether a level's stretches are the one that holds its states among the first ones, if there are any.
spec fn runs_ok<S: Scalar>(
    setup: RealSetup<S>,
    states: Seq<PhaseState>,
    runs: Seq<BackupRun>,
    at: int,
    upto: int,
) -> bool {
    if runs.len() == 0 {
        forall|i: int| 0 <= i < upto ==> #[trigger] level(kids(states), i) != at
    } else {
        &&& runs.len() == 1
        &&& is_level_run(kids(states), runs[0], at as nat, upto)
        &&& runs[0] == run_of(setup, states, runs[0].start as int, runs[0].end as int)
    }
}

proof fn lemma_runs_ok<S: Scalar>(
    setup: RealSetup<S>,
    states: Seq<PhaseState>,
    runs: Seq<BackupRun>,
    at: int,
    upto: int,
    end: int,
)
    requires
        runs_ok(setup, states, runs, at, upto),
        0 <= upto <= end,
        at >= 0,
        forall|i: int| upto <= i < end ==> #[trigger] level(kids(states), i) != at,
    ensures
        runs_ok(setup, states, runs, at, end),
{
}

} // verus!
