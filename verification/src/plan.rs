//! How much storage and work a solve of a tree takes.
use vstd::prelude::*;
use crate::arith::{ceil_quotient, greater};
use crate::tree::{PublicNode, PublicNodeKind, PublicTree, Street, TerminalReason};
use crate::tree_shape::{decisions_on, tally};

verus! {

/// How many bytes a chunk should have, and how many a regret and a strategy sum take.
#[derive(Clone, Copy, Debug, PartialEq, Eq, Structural)]
pub struct CfrStorageConfig {
    pub chunk_target_bytes: u128,
    pub regret_bytes: u128,
    pub strategy_sum_bytes: u128,
}

impl Default for CfrStorageConfig {
    fn default() -> (r: Self)
        ensures
            r.chunk_target_bytes == 268435456,
            r.regret_bytes == 4,
            r.strategy_sum_bytes == 4,
    {
        CfrStorageConfig {
            chunk_target_bytes: 268435456,
            regret_bytes: 4,
            strategy_sum_bytes: 4,
        }
    }
}

/// The work of a street.
#[derive(Clone, Copy, Debug, PartialEq, Eq, Structural)]
pub struct StreetWorkPlan {
    pub decisions: u128,
    pub action_slots: u128,
    pub storage_bytes: u128,
    pub chunks: u128,
}

impl Default for StreetWorkPlan {
    fn default() -> (r: Self)
        ensures
            r == (StreetWorkPlan { decisions: 0, action_slots: 0, storage_bytes: 0, chunks: 0 }),
    {
        StreetWorkPlan { decisions: 0, action_slots: 0, storage_bytes: 0, chunks: 0 }
    }
}

/// The work at the ends of hands.
#[derive(Clone, Copy, Debug, PartialEq, Eq, Structural)]
pub struct TerminalWorkPlan {
    pub fold_terminals: u128,
    pub showdown_terminals: u128,
    pub all_in_terminals: u128,
    pub showdown_board_evals: u128,
    pub all_in_board_evals: u128,
    pub terminal_cfv_calls: u128,
    pub terminal_private_pair_upper_bound: u128,
}

impl Default for TerminalWorkPlan {
    fn default() -> (r: Self)
        ensures
            r == (TerminalWorkPlan {
                fold_terminals: 0,
                showdown_terminals: 0,
                all_in_terminals: 0,
                showdown_board_evals: 0,
                all_in_board_evals: 0,
                terminal_cfv_calls: 0,
                terminal_private_pair_upper_bound: 0,
            }),
    {
        TerminalWorkPlan {
            fold_terminals: 0,
            showdown_terminals: 0,
            all_in_terminals: 0,
            showdown_board_evals: 0,
            all_in_board_evals: 0,
            terminal_cfv_calls: 0,
            terminal_private_pair_upper_bound: 0,
        }
    }
}

/// The work of a solve.
#[derive(Clone, Copy, Debug, PartialEq, Eq)]
pub struct CfrWorkPlan {
    pub street: [StreetWorkPlan; 3],
    pub terminals: TerminalWorkPlan,
    pub total_action_slots: u128,
    pub total_storage_bytes: u128,
    pub total_chunks: u128,
    pub max_chunk_bytes: u128,
}

/// The place of a street: 0, 1 or 2.
pub fn street_index(street: Street) -> (r: usize)
    ensures
        r == street.place(),
{
    street.index()
}

/// How many pairs can be made of so many things.
pub open spec fn choose2_spec(count: int) -> int {
    count * (count - 1) / 2
}

/// How many pairs can be made of so many things.
pub fn choose2(count: u128) -> (r: u128)
    requires
        1 <= count,
        count * (count - 1) <= u128::MAX,
    ensures
        r == choose2_spec(count as int),
{
    count * (count - 1) / 2
}

/// How many boards a flop can have become by a street, the turn told from the river.
pub open spec fn boards_on(street: Street) -> int {
    match street {
        Street::Flop => 1,
        Street::Turn => 49,
        Street::River => 2352,
    }
}

/// How many boards a flop can have become by a street, the turn told from the river.
pub fn public_board_multiplicity(street: Street) -> (r: u128)
    ensures
        r == boards_on(street),
{
    match street {
        Street::Flop => 1,
        Street::Turn => 49,
        Street::River => 49 * 48,
    }
}

/// How many hands the cards off the board make on a street.
pub open spec fn combos_on(street: Street) -> int {
    choose2_spec(49 - street.place())
}

/// How many hands the cards off the board make on a street.
pub fn live_private_combos(street: Street) -> (r: u128)
    ensures
        r == combos_on(street),
        r <= 1176,
{
    match street {
        Street::Flop => choose2(49),
        Street::Turn => choose2(48),
        Street::River => choose2(47),
    }
}

/// How many pairs of hands the cards off the board make on a street, overlapping ones too.
pub fn private_pair_count(street: Street) -> (r: u128)
    ensures
        r == combos_on(street) * combos_on(street),
        r <= 1382976,
{
    let combos: u128 = live_private_combos(street);
    proof {
        assert(combos * combos <= 1176 * 1176) by (nonlinear_arith)
            requires
                0 <= combos <= 1176,
        ;
    }
    combos * combos
}

/// How many runouts the rest of the board has, the turn told from the river.
pub open spec fn runouts_on(street: Street) -> int {
    match street {
        Street::Flop => 2352,
        Street::Turn => 48,
        Street::River => 1,
    }
}

/// How many runouts the rest of the board has, the turn told from the river.
pub fn all_in_runout_multiplicity(street: Street) -> (r: u128)
    ensures
        r == runouts_on(street),
{
    match street {
        Street::Flop => 49 * 48,
        Street::Turn => 48,
        Street::River => 1,
    }
}

/// The quotient rounded up; of zero, zero.
pub fn ceil_div(value: u128, divisor: u128) -> (r: u128)
    requires
        value > 0 ==> divisor > 0,
    ensures
        value == 0 ==> r == 0,
        value > 0 ==> r == ceil_quotient(value as int, divisor as int),
{
    if value == 0 {
        0
    } else {
        proof {
            assert((value - 1) / divisor as int <= value - 1) by (nonlinear_arith)
                requires
                    value >= 1,
                    divisor >= 1,
            ;
        }
        (value - 1) / divisor + 1
    }
}

/// The sum of what each of the first `n` nodes adds.
pub open spec fn total_of(nodes: Seq<PublicNode>, adds: spec_fn(PublicNode) -> int, n: nat) -> int
    decreases n,
{
    if n == 0 {
        0
    } else {
        total_of(nodes, adds, (n - 1) as nat) + adds(nodes[n - 1])
    }
}

/// What decision nodes of a street add: a slot for each board, hand and action.
pub open spec fn slots_on(place: int) -> spec_fn(PublicNode) -> int {
    |node: PublicNode|
        match node.kind {
            PublicNodeKind::Decision { player, actions } => if node.state.street.place() == place {
                boards_on(node.state.street) * combos_on(node.state.street) * actions@.len()
            } else {
                0
            },
            _ => 0,
        }
}

/// Terminal nodes of a kind add one.
pub open spec fn ends_by(reason: TerminalReason) -> spec_fn(PublicNode) -> int {
    |node: PublicNode|
        if node.kind == (PublicNodeKind::Terminal { reason }) {
            1
        } else {
            0
        }
}

/// Showdowns add the boards of their street.
pub open spec fn showdown_boards() -> spec_fn(PublicNode) -> int {
    |node: PublicNode|
        if node.kind == (PublicNodeKind::Terminal { reason: TerminalReason::Showdown }) {
            boards_on(node.state.street)
        } else {
            0
        }
}

/// All-ins add the runouts that are left.
pub open spec fn all_in_boards() -> spec_fn(PublicNode) -> int {
    |node: PublicNode|
        if node.kind == (PublicNodeKind::Terminal { reason: TerminalReason::AllIn }) {
            runouts_on(node.state.street)
        } else {
            0
        }
}

/// Showdowns and all-ins add the pairs of hands on each of their boards.
pub open spec fn pairs_compared() -> spec_fn(PublicNode) -> int {
    |node: PublicNode|
        if node.kind == (PublicNodeKind::Terminal { reason: TerminalReason::Showdown }) {
            boards_on(node.state.street) * (combos_on(node.state.street) * combos_on(
                node.state.street,
            ))
        } else if node.kind == (PublicNodeKind::Terminal { reason: TerminalReason::AllIn }) {
            runouts_on(node.state.street) * (combos_on(Street::River) * combos_on(Street::River))
        } else {
            0
        }
}

/// The slots of a street.
pub open spec fn street_slots(tree: PublicTree, place: int) -> int {
    total_of(tree.nodes@, slots_on(place), tree.nodes@.len())
}

/// The slots of all streets.
pub open spec fn all_slots(tree: PublicTree) -> int {
    street_slots(tree, 0) + street_slots(tree, 1) + street_slots(tree, 2)
}

/// The bytes of a slot.
pub open spec fn slot_size(config: CfrStorageConfig) -> int {
    config.regret_bytes + config.strategy_sum_bytes
}

/// Into how many chunks of a target size bytes are cut: none for none, at least one otherwise.
pub open spec fn chunks_of(bytes: int, config: CfrStorageConfig) -> int {
    if bytes <= 0 {
        0
    } else {
        ceil_quotient(bytes, greater(config.chunk_target_bytes as int, slot_size(config)))
    }
}

/// How many bytes the largest of the chunks has.
pub open spec fn chunk_size_of(bytes: int, config: CfrStorageConfig) -> int {
    if bytes <= 0 {
        0
    } else {
        ceil_quotient(bytes, chunks_of(bytes, config))
    }
}

/// Whether the sizes of a plan fit its counters.
pub open spec fn plan_fits(tree: PublicTree, config: CfrStorageConfig) -> bool {
    &&& slot_size(config) <= u128::MAX
    &&& all_slots(tree) <= u128::MAX
    &&& all_slots(tree) * slot_size(config) <= u128::MAX
}

proof fn lemma_slots_on(node: PublicNode, place: int)
    ensures
        slots_on(place)(node) >= 0,
{
    if let PublicNodeKind::Decision { player, actions } = node.kind {
        assert(boards_on(node.state.street) * combos_on(node.state.street) * actions@.len() >= 0)
            by (nonlinear_arith)
            requires
                boards_on(node.state.street) >= 0,
                combos_on(node.state.street) >= 0,
                actions@.len() >= 0,
        ;
    }
}

proof fn lemma_slots_grow(nodes: Seq<PublicNode>, place: int, n: nat, m: nat)
    requires
        n <= m,
    ensures
        0 <= total_of(nodes, slots_on(place), n) <= total_of(nodes, slots_on(place), m),
    decreases m,
{
    if m > 0 {
        lemma_slots_on(nodes[m - 1], place);
        if n < m {
            lemma_slots_grow(nodes, place, n, (m - 1) as nat);
        } else {
            lemma_slots_grow(nodes, place, (m - 1) as nat, (m - 1) as nat);
        }
    }
}

/// The plan of a street from its slots.
fn street_plan(decisions: u128, action_slots: u128, config: CfrStorageConfig) -> (r: StreetWorkPlan)
    requires
        slot_size(config) <= u128::MAX,
        action_slots * slot_size(config) <= u128::MAX,
    ensures
        r.decisions == decisions,
        r.action_slots == action_slots,
        r.storage_bytes == action_slots * slot_size(config),
        r.chunks == chunks_of(r.storage_bytes as int, config),
{
    let slot_bytes: u128 = config.regret_bytes + config.strategy_sum_bytes;
    let storage_bytes: u128 = action_slots * slot_bytes;
    let target: u128 = if config.chunk_target_bytes >= slot_bytes {
        config.chunk_target_bytes
    } else {
        slot_bytes
    };
    proof {
        if storage_bytes > 0 {
            assert(slot_bytes > 0) by {
                if slot_bytes == 0 {
                    assert(action_slots * slot_bytes == 0) by (nonlinear_arith)
                        requires
                            slot_bytes == 0,
                    ;
                }
            }
        }
    }
    let chunks: u128 = ceil_div(storage_bytes, target);
    StreetWorkPlan { decisions, action_slots, storage_bytes, chunks }
}

/// The bytes of a street's largest chunk.
fn largest_chunk(plan: StreetWorkPlan, config: CfrStorageConfig) -> (r: u128)
    requires
        plan.storage_bytes > 0 ==> slot_size(config) > 0,
        plan.chunks == chunks_of(plan.storage_bytes as int, config),
    ensures
        r == chunk_size_of(plan.storage_bytes as int, config),
{
    if plan.chunks == 0 {
        proof {
            if plan.storage_bytes > 0 {
                let target = greater(config.chunk_target_bytes as int, slot_size(config));
                crate::arith::ceil_quotient_is_least(plan.storage_bytes as int, target);
            }
        }
        0
    } else {
        ceil_div(plan.storage_bytes, plan.chunks)
    }
}

fn max_u128(a: u128, b: u128) -> (r: u128)
    ensures
        r == greater(a as int, b as int),
{
    if a >= b {
        a
    } else {
        b
    }
}

/// The storage and the work that a solve of a tree takes.
pub fn plan_cfr_work(tree: &PublicTree, config: CfrStorageConfig) -> (r: CfrWorkPlan)
    requires
        plan_fits(*tree, config),
    ensures
        forall|s: int|
            #![trigger r.street@[s]]
            0 <= s < 3 ==> {
                &&& r.street@[s].decisions == tally(
                    tree.nodes@,
                    decisions_on(s),
                    0,
                    tree.nodes@.len() as int,
                )
                &&& r.street@[s].action_slots == street_slots(*tree, s)
                &&& r.street@[s].storage_bytes == street_slots(*tree, s) * slot_size(config)
                &&& r.street@[s].chunks == chunks_of(r.street@[s].storage_bytes as int, config)
            },
        r.terminals.fold_terminals == total_of(
            tree.nodes@,
            ends_by(TerminalReason::Fold),
            tree.nodes@.len(),
        ),
        r.terminals.showdown_terminals == total_of(
            tree.nodes@,
            ends_by(TerminalReason::Showdown),
            tree.nodes@.len(),
        ),
        r.terminals.all_in_terminals == total_of(
            tree.nodes@,
            ends_by(TerminalReason::AllIn),
            tree.nodes@.len(),
        ),
        r.terminals.showdown_board_evals == total_of(
            tree.nodes@,
            showdown_boards(),
            tree.nodes@.len(),
        ),
        r.terminals.all_in_board_evals == total_of(tree.nodes@, all_in_boards(), tree.nodes@.len()),
        r.terminals.terminal_cfv_calls == r.terminals.showdown_board_evals
            + r.terminals.all_in_board_evals,
        r.terminals.terminal_private_pair_upper_bound == total_of(
            tree.nodes@,
            pairs_compared(),
            tree.nodes@.len(),
        ),
        r.total_action_slots == all_slots(*tree),
        r.total_storage_bytes == all_slots(*tree) * slot_size(config),
        r.total_chunks == r.street@[0].chunks + r.street@[1].chunks + r.street@[2].chunks,
        r.max_chunk_bytes == greater(
            greater(
                chunk_size_of(r.street@[0].storage_bytes as int, config),
                chunk_size_of(r.street@[1].storage_bytes as int, config),
            ),
            chunk_size_of(r.street@[2].storage_bytes as int, config),
        ),
{
    let ghost nodes = tree.nodes@;
    let mut decisions: [u128; 3] = [0, 0, 0];
    let mut slots: [u128; 3] = [0, 0, 0];
    let mut terminals: TerminalWorkPlan = TerminalWorkPlan::default();
    proof {
        assert(decisions@ =~= seq![0u128, 0u128, 0u128]);
        assert(slots@ =~= seq![0u128, 0u128, 0u128]);
    }
    for i in 0..tree.nodes.len()
        invariant
            nodes == tree.nodes@,
            plan_fits(*tree, config),
            forall|s: int|
                0 <= s < 3 ==> #[trigger] decisions@[s] == tally(nodes, decisions_on(s), 0, i as int),
            forall|s: int| 0 <= s < 3 ==> #[trigger] decisions@[s] <= i,
            forall|s: int|
                0 <= s < 3 ==> #[trigger] slots@[s] == total_of(nodes, slots_on(s), i as nat),
            terminals.fold_terminals == total_of(nodes, ends_by(TerminalReason::Fold), i as nat),
            terminals.showdown_terminals == total_of(
                nodes,
                ends_by(TerminalReason::Showdown),
                i as nat,
            ),
            terminals.all_in_terminals == total_of(nodes, ends_by(TerminalReason::AllIn), i as nat),
            terminals.showdown_board_evals == total_of(nodes, showdown_boards(), i as nat),
            terminals.all_in_board_evals == total_of(nodes, all_in_boards(), i as nat),
            terminals.terminal_cfv_calls == terminals.showdown_board_evals
                + terminals.all_in_board_evals,
            terminals.terminal_private_pair_upper_bound == total_of(nodes, pairs_compared(), i as nat),
            terminals.fold_terminals <= i,
            terminals.showdown_terminals <= i,
            terminals.all_in_terminals <= i,
            terminals.showdown_board_evals <= 2352 * i,
            terminals.all_in_board_evals <= 2352 * i,
            terminals.terminal_private_pair_upper_bound <= 3252759552 * i,
    {
        let ghost (was_decisions, was_slots) = (decisions@, slots@);
        let street: Street = tree.nodes[i].state.street;
        match &tree.nodes[i].kind {
            PublicNodeKind::Decision { player, actions } => {
                let place: usize = street_index(street);
                let boards: u128 = public_board_multiplicity(street);
                let combos: u128 = live_private_combos(street);
                let count: u128 = actions.len() as u128;
                proof {
                    let s = place as int;
                    assert(decisions@[s] <= i);
                    lemma_slots_grow(nodes, s, (i + 1) as nat, nodes.len());
                    lemma_slots_grow(nodes, 0, nodes.len(), nodes.len());
                    lemma_slots_grow(nodes, 1, nodes.len(), nodes.len());
                    lemma_slots_grow(nodes, 2, nodes.len(), nodes.len());
                    lemma_slots_grow(nodes, s, i as nat, nodes.len());
                    assert(slots_on(s)(nodes[i as int]) == boards * combos * count);
                    assert(total_of(nodes, slots_on(s), (i + 1) as nat) == total_of(
                        nodes,
                        slots_on(s),
                        i as nat,
                    ) + boards * combos * count);
                    assert(total_of(nodes, slots_on(s), nodes.len()) <= u128::MAX);
                    assert(boards * combos <= 2352 * 1176) by (nonlinear_arith)
                        requires
                            0 <= boards <= 2352,
                            0 <= combos <= 1176,
                    ;
                    assert(slots@[s] == total_of(nodes, slots_on(s), i as nat));
                }
                let added: u128 = boards * combos * count;
                let decided: u128 = decisions[place] + 1;
                let slotted: u128 = slots[place] + added;
                decisions[place] = decided;
                slots[place] = slotted;
                proof {
                    assert(decisions@ =~= was_decisions.update(place as int, decided));
                    assert(slots@ =~= was_slots.update(place as int, slotted));
                }
            },
            PublicNodeKind::Terminal { reason } => {
                match reason {
                    TerminalReason::Fold => {
                        terminals.fold_terminals = terminals.fold_terminals + 1;
                    },
                    TerminalReason::Showdown => {
                        let boards: u128 = public_board_multiplicity(street);
                        let pairs: u128 = private_pair_count(street);
                        proof {
                            assert(boards * pairs <= 2352 * 1382976) by (nonlinear_arith)
                                requires
                                    0 <= boards <= 2352,
                                    0 <= pairs <= 1382976,
                            ;
                        }
                        terminals.showdown_terminals = terminals.showdown_terminals + 1;
                        terminals.showdown_board_evals = terminals.showdown_board_evals + boards;
                        terminals.terminal_cfv_calls = terminals.terminal_cfv_calls + boards;
                        terminals.terminal_private_pair_upper_bound =
                        terminals.terminal_private_pair_upper_bound + boards * pairs;
                    },
                    TerminalReason::AllIn => {
                        let boards: u128 = all_in_runout_multiplicity(street);
                        let pairs: u128 = private_pair_count(Street::River);
                        proof {
                            assert(boards * pairs <= 2352 * 1382976) by (nonlinear_arith)
                                requires
                                    0 <= boards <= 2352,
                                    0 <= pairs <= 1382976,
                            ;
                        }
                        terminals.all_in_terminals = terminals.all_in_terminals + 1;
                        terminals.all_in_board_evals = terminals.all_in_board_evals + boards;
                        terminals.terminal_cfv_calls = terminals.terminal_cfv_calls + boards;
                        terminals.terminal_private_pair_upper_bound =
                        terminals.terminal_private_pair_upper_bound + boards * pairs;
                    },
                }
            },
            PublicNodeKind::Chance(_) => {},
        }
        proof {
            assert forall|s: int| 0 <= s < 3 implies #[trigger] decisions@[s] == tally(
                nodes,
                decisions_on(s),
                0,
                i + 1,
            ) && decisions@[s] <= i + 1 by {
                assert(was_decisions[s] == tally(nodes, decisions_on(s), 0, i as int));
            }
            assert forall|s: int| 0 <= s < 3 implies #[trigger] slots@[s] == total_of(
                nodes,
                slots_on(s),
                (i + 1) as nat,
            ) by {
                assert(was_slots[s] == total_of(nodes, slots_on(s), i as nat));
            }
        }
    }
    let ghost size = slot_size(config);
    proof {
        lemma_slots_grow(nodes, 0, nodes.len(), nodes.len());
        lemma_slots_grow(nodes, 1, nodes.len(), nodes.len());
        lemma_slots_grow(nodes, 2, nodes.len(), nodes.len());
        assert(slots@[0] == street_slots(*tree, 0));
        assert(slots@[1] == street_slots(*tree, 1));
        assert(slots@[2] == street_slots(*tree, 2));
        let (a, b, c) = (slots@[0] as int, slots@[1] as int, slots@[2] as int);
        assert((a + b + c) * size == a * size + b * size + c * size && a * size >= 0 && b * size >= 0
            && c * size >= 0) by (nonlinear_arith)
            requires
                a >= 0,
                b >= 0,
                c >= 0,
                size >= 0,
        ;
        assert(size == 0 ==> a * size == 0 && b * size == 0 && c * size == 0) by (nonlinear_arith);
    }
    let flop: StreetWorkPlan = street_plan(decisions[0], slots[0], config);
    let turn: StreetWorkPlan = street_plan(decisions[1], slots[1], config);
    let river: StreetWorkPlan = street_plan(decisions[2], slots[2], config);
    proof {
        lemma_chunks(flop.storage_bytes as int, config);
        lemma_chunks(turn.storage_bytes as int, config);
        lemma_chunks(river.storage_bytes as int, config);
    }
    let max_chunk_bytes: u128 = max_u128(
        max_u128(largest_chunk(flop, config), largest_chunk(turn, config)),
        largest_chunk(river, config),
    );
    CfrWorkPlan {
        street: [flop, turn, river],
        terminals,
        total_action_slots: flop.action_slots + turn.action_slots + river.action_slots,
        total_storage_bytes: flop.storage_bytes + turn.storage_bytes + river.storage_bytes,
        total_chunks: flop.chunks + turn.chunks + river.chunks,
        max_chunk_bytes,
    }
}

/// There are no more chunks than bytes.
proof fn lemma_chunks(bytes: int, config: CfrStorageConfig)
    requires
        0 <= bytes,
        bytes > 0 ==> slot_size(config) > 0,
    ensures
        0 <= chunks_of(bytes, config) <= bytes,
{
    if bytes > 0 {
        let target = greater(config.chunk_target_bytes as int, slot_size(config));
        crate::arith::ceil_quotient_is_least(bytes, target);
        assert(chunks_of(bytes, config) <= bytes) by (nonlinear_arith)
            requires
                chunks_of(bytes, config) == (bytes - 1) / target + 1,
                target >= 1,
                bytes >= 1,
        ;
    }
}

} // verus!
