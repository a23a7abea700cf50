//! Solving one street of a subgame.
use vstd::prelude::*;
use crate::cards::{mask_of, Card};
use crate::scalar::Scalar;
use crate::subgame::{fault_of, Player, PotState, Sides, SubgameBuildError, SubgameSpec};
use crate::subgame_actions::ActionKind;
use crate::subgame_deals::{
    are_deals, are_live, deal_for, deals_spec, dealt, focused_deals, focused_spec, legal_deals,
    range_hands, weighted_postflop_combos, LegalDeal, PostflopCombo, WeightedPostflopCombo,
    DRAW_START,
};
use crate::subgame_equity::{combo_equity, equity_spec, is_live};
use crate::subgame_nodes::{
    average_strategy_weight, average_weight_spec, fresh, latest, learned, lemma_latest, strategy,
    strategy_spec, CfrVariant, Entry, FactsView, InfoFacts, InfoKey, InfoTable, Turn,
};
use crate::subgame_report::{
    combo_strategies, copy_cards, reported, strategies_match, SubgameCfrResult,
    SubgameComboStrategy,
};
use crate::subgame_tree::{
    copied, edges_view, is_ordered, leads_on, nodes_view, tree_spec, trees_are_ordered, ActionEdge,
    ActionTree, ActionTreeNode, EdgeView, NodeId, NodeView, TerminalKind,
};

verus! {

/// How a subgame is solved.
#[derive(Clone, Copy, Debug)]
pub struct SubgameSolveRequest<S> {
    pub iterations: usize,
    pub focused_oop_combo_mask: Option<u64>,
    pub focused_ip_combo_mask: Option<u64>,
    pub focused_sampling_rate: S,
    pub variant: CfrVariant,
}

/// The hands that are dealt, and the share of the pot that the first wins.
#[derive(Clone, Copy, Debug)]
pub struct DealtHands<S> {
    pub oop: PostflopCombo,
    pub ip: PostflopCombo,
    pub equity: S,
}

impl<S: Scalar> DealtHands<S> {
    /// The hand of a player.
    pub open spec fn hand(self, player: Player) -> PostflopCombo {
        match player {
            Player::Oop => self.oop,
            Player::Ip => self.ip,
        }
    }

    /// The share of a player.
    pub open spec fn share(self, player: Player) -> S {
        match player {
            Player::Oop => self.equity,
            Player::Ip => S::one_spec().minus_spec(self.equity),
        }
    }

    fn hand_of(self, player: Player) -> (r: PostflopCombo)
        ensures
            r == self.hand(player),
    {
        match player {
            Player::Oop => self.oop,
            Player::Ip => self.ip,
        }
    }

    fn share_for(self, player: Player) -> (r: S)
        ensures
            r == self.share(player),
    {
        match player {
            Player::Oop => self.equity,
            Player::Ip => S::one().minus(self.equity),
        }
    }
}

/// What the player out of position gets where betting ends: the pot or the share of it that is won,
/// less what was put in since the start.
pub open spec fn ending_value<S: Scalar>(
    terminal: TerminalKind,
    pot: PotState<S>,
    invested: S,
    equity: S,
) -> S {
    let put_in = pot.invested.oop.minus_spec(invested);
    match terminal {
        TerminalKind::Fold { winner } => match winner {
            Player::Oop => pot.pot.minus_spec(put_in),
            Player::Ip => put_in.negate_spec(),
        },
        TerminalKind::Showdown => equity.times_spec(pot.pot).minus_spec(put_in),
    }
}

/// What the player out of position gets where betting ends.
pub fn terminal_utility<S: Scalar>(
    terminal: TerminalKind,
    pot: PotState<S>,
    invested: S,
    equity: S,
) -> (r: S)
    ensures
        r == ending_value(terminal, pot, invested, equity),
{
    let put_in: S = pot.invested.oop.minus(invested);
    match terminal {
        TerminalKind::Fold { winner } => match winner {
            Player::Oop => pot.pot.minus(put_in),
            Player::Ip => put_in.negate(),
        },
        TerminalKind::Showdown => equity.times(pot.pot).minus(put_in),
    }
}

/// What does not change while an iteration walks a tree.
pub ghost struct Walk<S> {
    pub tree: Seq<NodeView<S>>,
    pub board: Seq<Card>,
    pub invested: S,
    pub hands: DealtHands<S>,
    pub turn: Turn<S>,
}

/// What a visit gives: the value to the player out of position, and what is known then.
pub ghost struct Visit<S> {
    pub value: S,
    pub entries: Seq<Entry<S>>,
}

/// What the first actions of a decision give.
pub ghost struct ActionVisits<S> {
    pub values: Seq<S>,
    pub value: S,
    pub entries: Seq<Entry<S>>,
}

/// By what a decision of the tree is known.
pub open spec fn tree_key(id: int, player: Player, mask: u64) -> InfoKey {
    InfoKey {
        place: id as u64,
        history: 0,
        step: (if player is Oop {
            0int
        } else {
            1
        }) as u64,
        hand: mask,
    }
}

/// The actions of edges.
pub open spec fn edge_actions<S>(edges: Seq<EdgeView<S>>) -> Seq<ActionKind<S>> {
    Seq::new(edges.len(), |i: int| edges[i].action)
}

/// What is known of a decision.
pub open spec fn tree_facts<S: Scalar>(
    walk: Walk<S>,
    id: int,
    player: Player,
    history: Seq<ActionKind<S>>,
    actions: Seq<EdgeView<S>>,
) -> FactsView<S> {
    FactsView {
        node: NodeId(id as usize),
        player,
        board: walk.board,
        history,
        combo: walk.hands.hand(player),
        equity: walk.hands.share(player),
        actions: edge_actions(actions),
    }
}

/// The entries with one for a key.
pub open spec fn entered<S: Scalar>(entries: Seq<Entry<S>>, key: InfoKey, facts: FactsView<S>) -> Seq<
    Entry<S>,
> {
    if latest(entries, key, entries.len()) >= 0 {
        entries
    } else {
        entries.push(fresh(key, facts))
    }
}

/// A visit of a node.
pub open spec fn visited<S: Scalar>(
    walk: Walk<S>,
    id: int,
    reach: Sides<S>,
    entries: Seq<Entry<S>>,
) -> Visit<S>
    decreases walk.tree.len() - id, 1int, 0int,
{
    match walk.tree[id] {
        NodeView::Terminal { terminal, pot, .. } => Visit {
            value: ending_value(terminal, pot, walk.invested, walk.hands.equity),
            entries,
        },
        NodeView::Decision { player, history, actions, .. } => {
            let key = tree_key(id, player, walk.hands.hand(player).mask);
            let known = entered(entries, key, tree_facts(walk, id, player, history, actions));
            let place = latest(known, key, known.len());
            let strategy = strategy_spec(known[place].regrets);
            let visits = actions_visited(
                walk,
                id,
                player,
                actions,
                strategy,
                reach,
                known,
                actions.len(),
            );
            Visit {
                value: visits.value,
                entries: visits.entries.update(
                    place,
                    learned(
                        visits.entries[place],
                        player,
                        reach,
                        strategy,
                        visits.values,
                        visits.value,
                        walk.turn,
                    ),
                ),
            }
        },
    }
}

/// Visits of what the first `k` actions of a decision lead to.
pub open spec fn actions_visited<S: Scalar>(
    walk: Walk<S>,
    id: int,
    player: Player,
    actions: Seq<EdgeView<S>>,
    strategy: Seq<S>,
    reach: Sides<S>,
    entries: Seq<Entry<S>>,
    k: nat,
) -> ActionVisits<S>
    decreases walk.tree.len() - id, 0int, k,
{
    if k == 0 {
        ActionVisits { values: Seq::empty(), value: S::zero_spec(), entries }
    } else {
        let front = actions_visited(
            walk,
            id,
            player,
            actions,
            strategy,
            reach,
            entries,
            (k - 1) as nat,
        );
        let to = actions[k - 1].to;
        let share = strategy[k - 1];
        if id < to < walk.tree.len() {
            let below = visited(
                walk,
                to,
                reach.with_spec(player, reach.of_spec(player).times_spec(share)),
                front.entries,
            );
            ActionVisits {
                values: front.values.push(below.value),
                value: front.value.plus_spec(share.times_spec(below.value)),
                entries: below.entries,
            }
        } else {
            front
        }
    }
}

/// Whether every entry belongs to a decision of a tree and has a value for each of its actions.
pub open spec fn entries_fit<S>(tree: Seq<NodeView<S>>, entries: Seq<Entry<S>>) -> bool {
    forall|i: int|
        0 <= i < entries.len() ==> {
            let entry = #[trigger] entries[i];
            &&& entry.key.place < tree.len()
            &&& tree[entry.key.place as int] is Decision
            &&& entry.facts.actions.len() == tree[entry.key.place as int]->actions.len()
        }
}

/// Whether entries were added and none lost its key or facts.
pub open spec fn kept<S>(before: Seq<Entry<S>>, after: Seq<Entry<S>>) -> bool {
    &&& after.len() >= before.len()
    &&& forall|i: int|
        0 <= i < before.len() ==> (#[trigger] after[i]).key == before[i].key && after[i].facts
            == before[i].facts
}

fn edge_list<S: Scalar>(edges: &[ActionEdge<S>]) -> (r: Vec<ActionKind<S>>)
    ensures
        r@ == edge_actions(edges_view(edges@)),
{
    let mut actions: Vec<ActionKind<S>> = Vec::new();
    for i in 0..edges.len()
        invariant
            actions@ =~= edge_actions(edges_view(edges@)).take(i as int),
    {
        actions.push(edges[i].action);
        assert(edge_actions(edges_view(edges@)).take(i + 1) =~= edge_actions(
            edges_view(edges@),
        ).take(i as int).push(edge_actions(edges_view(edges@))[i as int]));
    }
    assert(actions@ =~= edge_actions(edges_view(edges@)));
    actions
}

/// Visits a node: plays on below every action and learns at the decision.
#[verifier::spinoff_prover]
#[verifier::rlimit(60)]
fn visit<S: Scalar>(
    tree: &[ActionTreeNode<S>],
    board: &[Card],
    invested: S,
    hands: DealtHands<S>,
    turn: Turn<S>,
    id: usize,
    reach: Sides<S>,
    table: &mut InfoTable<S>,
) -> (r: S)
    requires
        is_ordered(nodes_view(tree@)),
        tree@.len() <= u64::MAX,
        id < tree@.len(),
        old(table).wf(),
        entries_fit(nodes_view(tree@), old(table)@),
    ensures
        final(table).wf(),
        entries_fit(nodes_view(tree@), final(table)@),
        kept(old(table)@, final(table)@),
        ({
            let walk = Walk { tree: nodes_view(tree@), board: board@, invested, hands, turn };
            let visit = visited(walk, id as int, reach, old(table)@);
            r == visit.value && final(table)@ == visit.entries
        }),
    decreases tree@.len() - id,
{
    let ghost nodes = nodes_view(tree@);
    let ghost walk = Walk { tree: nodes, board: board@, invested, hands, turn };
    proof {
        assert(nodes[id as int] == tree@[id as int]@);
        assert(leads_on(nodes, id as int));
    }
    match &tree[id] {
        ActionTreeNode::Terminal { terminal, pot, history: _ } => {
            terminal_utility(*terminal, *pot, invested, hands.equity)
        },
        ActionTreeNode::Decision { player, pot: _, raises: _, history, actions } => {
            let player: Player = *player;
            let hand: PostflopCombo = hands.hand_of(player);
            let key: InfoKey = InfoKey {
                place: id as u64,
                history: 0,
                step: player.index() as u64,
                hand: hand.mask,
            };
            let ghost edges = edges_view(actions@);
            let ghost facts = tree_facts(walk, id as int, player, history@, edges);
            let ghost start = table@;
            let ghost known = entered(start, key, facts);
            assert(key == tree_key(id as int, player, hands.hand(player).mask));
            let place: usize = match table.find(key) {
                Some(place) => place,
                None => {
                    let place: usize = table.len();
                    let list: Vec<ActionKind<S>> = edge_list(actions);
                    table.push(
                        key,
                        InfoFacts {
                            node: NodeId(id),
                            player,
                            board: copy_cards(board),
                            history: copied(history),
                            combo: hand,
                            equity: hands.share_for(player),
                            actions: list,
                        },
                    );
                    place
                },
            };
            proof {
                lemma_latest(known, key, known.len());
                assert(table@ =~= known);
                assert(place == latest(known, key, known.len()));
                assert(known[place as int].key == key);
                assert(entries_fit(nodes, known));
                assert(known[place as int].facts.actions.len() == edges.len());
                table.wf_facts();
                assert(known[place as int].regrets.len() == edges.len());
            }
            let shares: Vec<S> = strategy(table.regrets_at(place));
            let mut values: Vec<S> = Vec::new();
            let mut value: S = S::zero();
            for k in 0..actions.len()
                invariant
                    nodes == nodes_view(tree@),
                    is_ordered(nodes),
                    tree@.len() <= u64::MAX,
                    walk == (Walk { tree: nodes, board: board@, invested, hands, turn }),
                    id < tree@.len(),
                    leads_on(nodes, id as int),
                    nodes[id as int] is Decision,
                    edges == nodes[id as int]->actions,
                    edges == edges_view(actions@),
                    shares@ == strategy_spec(known[place as int].regrets),
                    shares@.len() == edges.len(),
                    table.wf(),
                    entries_fit(nodes, table@),
                    kept(known, table@),
                    values@.len() == k,
                    ({
                        let visits = actions_visited(
                            walk,
                            id as int,
                            player,
                            edges,
                            shares@,
                            reach,
                            known,
                            k as nat,
                        );
                        values@ == visits.values && value == visits.value && table@
                            == visits.entries
                    }),
            {
                let to: usize = actions[k].to.0;
                assert(edges[k as int].to == to);
                assert(id < edges[k as int].to < nodes.len());
                let share: S = shares[k];
                let below: S = visit(
                    tree,
                    board,
                    invested,
                    hands,
                    turn,
                    to,
                    reach.with(player, reach.of(player).times(share)),
                    table,
                );
                values.push(below);
                value = value.plus(share.times(below));
            }
            proof {
                assert(kept(known, table@));
                assert(table@[place as int].facts == known[place as int].facts);
            }
            table.learn(place, player, reach, &shares, &values, value, turn);
            value
        },
    }
}

/// The hands that a game deals from.
pub ghost struct Hands<S> {
    pub oop: Seq<WeightedPostflopCombo<S>>,
    pub ip: Seq<WeightedPostflopCombo<S>>,
}

/// The hands that a game deals from.
pub open spec fn hands_of<S: Scalar>(game: SubgameSpec<S>) -> Hands<S> {
    let mask = mask_of(game.board@);
    Hands {
        oop: range_hands(game.ranges.oop@, mask, game.ranges.oop@.len()),
        ip: range_hands(game.ranges.ip@, mask, game.ranges.ip@.len()),
    }
}

/// The hands dealt in an iteration, with the share of the pot that the first wins.
pub open spec fn dealt_hands<S: Scalar>(
    game: SubgameSpec<S>,
    request: SubgameSolveRequest<S>,
    iteration: int,
) -> DealtHands<S> {
    let hands = hands_of(game);
    let deals = deals_spec(hands.oop, hands.ip);
    let focused = focused_spec(
        hands.oop,
        hands.ip,
        deals,
        request.focused_oop_combo_mask,
        request.focused_ip_combo_mask,
    );
    let deal = dealt(deals, focused, request.focused_sampling_rate, iteration);
    let oop = hands.oop[deal.0 as int].combo;
    let ip = hands.ip[deal.1 as int].combo;
    DealtHands {
        oop,
        ip,
        equity: equity_spec::<S>(
            game.board@,
            oop,
            ip,
            game.chance.max_runouts_spec() as nat,
        ),
    }
}

/// The turn of an iteration. The first is numbered one.
pub open spec fn turn_of<S: Scalar>(variant: CfrVariant, iteration: int) -> Turn<S> {
    Turn {
        iteration: (iteration + 1) as usize,
        average_weight: average_weight_spec::<S>(variant, (iteration + 1) as usize),
        variant,
    }
}

/// What `n` iterations give, their values added up.
pub open spec fn iterated<S: Scalar>(
    game: SubgameSpec<S>,
    request: SubgameSolveRequest<S>,
    n: nat,
) -> Visit<S>
    decreases n,
{
    if n == 0 {
        Visit { value: S::zero_spec(), entries: Seq::empty() }
    } else {
        let front = iterated(game, request, (n - 1) as nat);
        let visit = visited(
            Walk {
                tree: tree_spec(game.actions@, game.root_player, game.pot),
                board: game.board@,
                invested: game.pot.invested.oop,
                hands: dealt_hands(game, request, n - 1),
                turn: turn_of(request.variant, n - 1),
            },
            0,
            Sides { oop: S::one_spec(), ip: S::one_spec() },
            front.entries,
        );
        Visit { value: front.value.plus_spec(visit.value), entries: visit.entries }
    }
}

/// The value of an iteration on average.
pub open spec fn mean_value<S: Scalar>(sum: S, iterations: usize) -> S {
    if iterations == 0 {
        S::zero_spec()
    } else {
        sum.over_spec(S::from_count_spec(iterations))
    }
}

/// Why a game cannot be solved: something is wrong with it, or no two hands can be dealt.
pub open spec fn obstacle<S: Scalar>(game: SubgameSpec<S>) -> Option<SubgameBuildError> {
    let hands = hands_of(game);
    match fault_of(game) {
        Some(fault) => Some(SubgameBuildError::Validation(fault)),
        None => if hands.oop.len() == 0 || hands.ip.len() == 0 || deals_spec(
            hands.oop,
            hands.ip,
        ).len() == 0 {
            Some(SubgameBuildError::NoLegalDeals)
        } else {
            None
        },
    }
}

impl<S: Scalar> SubgameSpec<S> {
    /// Solves the street of the subgame, drawing a deal in each iteration.
    pub fn solve_cfr(&self, iterations: usize) -> (r: Result<SubgameCfrResult<S>, SubgameBuildError>)
        requires
            self.wf(),
            iterations + DRAW_START <= u64::MAX,
        ensures
            match r {
                Ok(result) => obstacle(*self) is None && solves(
                    *self,
                    SubgameSolveRequest {
                        iterations,
                        focused_oop_combo_mask: None,
                        focused_ip_combo_mask: None,
                        focused_sampling_rate: S::zero_spec(),
                        variant: CfrVariant::CfrPlus,
                    },
                    result,
                ),
                Err(error) => obstacle(*self) == Some(error),
            },
    {
        self.solve_cfr_with_request(
            SubgameSolveRequest {
                iterations,
                focused_oop_combo_mask: None,
                focused_ip_combo_mask: None,
                focused_sampling_rate: S::zero(),
                variant: CfrVariant::default(),
            },
        )
    }

    /// Solves the street of the subgame as requested.
    #[verifier::spinoff_prover]
    #[verifier::rlimit(40)]
    pub fn solve_cfr_with_request(&self, request: SubgameSolveRequest<S>) -> (r: Result<
        SubgameCfrResult<S>,
        SubgameBuildError,
    >)
        requires
            self.wf(),
            request.iterations + DRAW_START <= u64::MAX,
        ensures
            match r {
                Ok(result) => obstacle(*self) is None && solves(*self, request, result),
                Err(error) => obstacle(*self) == Some(error),
            },
    {
        let tree: ActionTree<S> = match self.build_action_tree() {
            Ok(tree) => tree,
            Err(error) => {
                return Err(error);
            },
        };
        let oop_range: Vec<WeightedPostflopCombo<S>> = weighted_postflop_combos(
            &self.ranges.oop,
            &self.board,
        );
        let ip_range: Vec<WeightedPostflopCombo<S>> = weighted_postflop_combos(
            &self.ranges.ip,
            &self.board,
        );
        if oop_range.len() == 0 || ip_range.len() == 0 {
            return Err(SubgameBuildError::NoLegalDeals);
        }
        let deals: Vec<LegalDeal<S>> = legal_deals(&oop_range, &ip_range);
        if deals.len() == 0 {
            return Err(SubgameBuildError::NoLegalDeals);
        }
        let focused: Vec<LegalDeal<S>> = focused_deals(
            &oop_range,
            &ip_range,
            &deals,
            request.focused_oop_combo_mask,
            request.focused_ip_combo_mask,
        );
        let ghost nodes = nodes_view(tree.nodes@);
        proof {
            trees_are_ordered(self.actions@, self.root_player, self.pot);
            assert(tree.nodes@.len() == nodes.len());
            assert(tree.nodes.len() == tree.nodes@.len());
        }
        let mut table: InfoTable<S> = InfoTable::new();
        let mut utility: S = S::zero();
        for iteration in 0..request.iterations
            invariant
                fault_of(*self) is None,
                request.iterations + DRAW_START <= u64::MAX,
                nodes == nodes_view(tree.nodes@),
                nodes == tree_spec(self.actions@, self.root_player, self.pot),
                is_ordered(nodes),
                nodes.len() > 0,
                tree.nodes@.len() <= u64::MAX,
                hands_of(*self) == (Hands { oop: oop_range@, ip: ip_range@ }),
                are_live(oop_range@, mask_of(self.board@)),
                are_live(ip_range@, mask_of(self.board@)),
                deals@ == deals_spec(oop_range@, ip_range@),
                deals@.len() > 0,
                are_deals(oop_range@, ip_range@, deals@),
                focused@ == focused_spec(
                    oop_range@,
                    ip_range@,
                    deals@,
                    request.focused_oop_combo_mask,
                    request.focused_ip_combo_mask,
                ),
                are_deals(oop_range@, ip_range@, focused@),
                table.wf(),
                entries_fit(nodes, table@),
                ({
                    let done = iterated(*self, request, iteration as nat);
                    utility == done.value && table@ == done.entries
                }),
        {
            let deal: (usize, usize) = deal_for(
                &deals,
                &focused,
                request.focused_sampling_rate,
                iteration,
                &oop_range,
                &ip_range,
            );
            let oop: PostflopCombo = oop_range[deal.0].combo;
            let ip: PostflopCombo = ip_range[deal.1].combo;
            proof {
                assert(is_live(self.board@, oop_range@[deal.0 as int].combo));
                assert(is_live(self.board@, ip_range@[deal.1 as int].combo));
            }
            let equity: S = combo_equity(&self.board, &oop, &ip, self.chance.max_runouts());
            let hands: DealtHands<S> = DealtHands { oop, ip, equity };
            let turn: Turn<S> = Turn {
                iteration: iteration + 1,
                average_weight: average_strategy_weight(request.variant, iteration + 1),
                variant: request.variant,
            };
            assert(hands == dealt_hands(*self, request, iteration as int));
            assert(turn == turn_of::<S>(request.variant, iteration as int));
            let value: S = visit(
                &tree.nodes,
                &self.board,
                self.pot.invested.oop,
                hands,
                turn,
                0,
                Sides::new(S::one(), S::one()),
                &mut table,
            );
            utility = utility.plus(value);
        }
        let strategies: Vec<SubgameComboStrategy<S>> = combo_strategies(&table, &self.board, true);
        Ok(
            SubgameCfrResult {
                iterations: request.iterations,
                expected_value_oop: if request.iterations == 0 {
                    S::zero()
                } else {
                    utility.over(S::from_count(request.iterations))
                },
                root: tree.root,
                node_count: tree.nodes.len(),
                oop_combo_count: oop_range.len(),
                ip_combo_count: ip_range.len(),
                strategies,
            },
        )
    }
}

/// Whether a result is what solving the street of a game gives.
pub open spec fn solves<S: Scalar>(
    game: SubgameSpec<S>,
    request: SubgameSolveRequest<S>,
    result: SubgameCfrResult<S>,
) -> bool {
    let done = iterated(game, request, request.iterations as nat);
    &&& result.iterations == request.iterations
    &&& result.expected_value_oop == mean_value(done.value, request.iterations)
    &&& result.root == NodeId(0)
    &&& result.node_count == tree_spec(game.actions@, game.root_player, game.pot).len()
    &&& result.oop_combo_count == hands_of(game).oop.len()
    &&& result.ip_combo_count == hands_of(game).ip.len()
    &&& strategies_match(result.strategies@, reported(done.entries, game.board@, true))
}

} // verus!
